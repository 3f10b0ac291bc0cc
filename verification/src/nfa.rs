//! Nondeterministic automata and their epsilon-closures.

use crate::error::AutomataError;
use crate::export::{append_edges, edge_list, lists_edges};
use crate::token::Token;
use std::collections::HashMap;
use std::collections::HashSet;
use std::collections::VecDeque;
use vstd::prelude::*;
use vstd::std_specs::iter::IteratorSpec;

verus! {

broadcast use vstd::std_specs::hash::group_hash_axioms;

/// The mathematical content of an `NFA`: its two distinguished ids and, for
/// every node id, the edges leaving that node in insertion order.
pub struct NfaView {
    pub start: u64,
    pub terminal: u64,
    pub nodes: Map<u64, Seq<(Token, u64)>>,
}

impl NfaView {
    /// The graph is finite, holds its start node, and every edge leads to a
    /// node of the graph.
    pub open spec fn wf(self) -> bool {
        &&& self.nodes.dom().finite()
        &&& self.nodes.contains_key(self.start)
        &&& forall|id: u64, j: int|
            self.nodes.contains_key(id) && 0 <= j < self.nodes[id].len()
                ==> self.nodes.contains_key(#[trigger] self.nodes[id][j].1)
    }

    /// There is an `Epsilon` edge from `a` to `b`.
    pub open spec fn eps_edge(self, a: u64, b: u64) -> bool {
        self.nodes.contains_key(a) && self.nodes[a].contains((Token::Epsilon, b))
    }

    /// `b` is reached from `a` by following exactly `n` `Epsilon` edges.
    pub open spec fn eps_reach_in(self, a: u64, b: u64, n: nat) -> bool
        decreases n,
    {
        if n == 0 {
            a == b
        } else {
            exists|m: u64| self.eps_reach_in(a, m, (n - 1) as nat) && #[trigger] self.eps_edge(m, b)
        }
    }

    /// `b` is reached from `a` by following zero or more `Epsilon` edges.
    pub open spec fn eps_reach(self, a: u64, b: u64) -> bool {
        exists|n: nat| self.eps_reach_in(a, b, n)
    }

    /// The epsilon-closure of `a`: every id reached from `a` over `Epsilon`
    /// edges alone, `a` itself included.
    pub open spec fn closure(self, a: u64) -> Set<u64> {
        Set::new(|b: u64| self.eps_reach(a, b))
    }

    /// The targets of the `Epsilon` edges of node `id`, in edge order.
    pub open spec fn eps_targets(self, id: u64) -> Seq<u64> {
        epsilon_targets(self.nodes[id])
    }

    /// Every `Epsilon` edge walked before position `(p, j)`, when the
    /// edges of the nodes `ids` are walked node by node, leads to one of
    /// the first `k` of these nodes.
    pub open spec fn walk_among(self, ids: Seq<u64>, k: int, p: int, j: int) -> bool {
        forall|p2: int, j2: int|
            0 <= p2 < ids.len() && earlier(p, j, p2, j2) && 0 <= j2 < self.eps_targets(
                ids[p2],
            ).len() ==> among(ids, k, #[trigger] self.eps_targets(ids[p2])[j2])
    }

    /// `Epsilon` edge `j` of node `ids[p]` is the first that leads to
    /// `ids[k]`, and it leaves a node listed before `ids[k]`.
    pub open spec fn reached_at(self, ids: Seq<u64>, k: int, p: int, j: int) -> bool {
        &&& 0 <= p < k
        &&& 0 <= j < self.eps_targets(ids[p]).len()
        &&& self.eps_targets(ids[p])[j] == ids[k]
        &&& self.walk_among(ids, k, p, j)
    }

    /// `ids[k]` is the first node not listed before it that the `Epsilon`
    /// edges of the nodes before it lead to.
    pub open spec fn reached_first(self, ids: Seq<u64>, k: int) -> bool {
        exists|p: int, j: int| #[trigger] self.reached_at(ids, k, p, j)
    }

    /// `ids` lists the nodes reached from `a` over `Epsilon` edges in the
    /// order in which a breadth-first walk meets them: it begins with
    /// `a`, holds no node twice, each later node is the first new node
    /// that the `Epsilon` edges of the nodes before it lead to, and every
    /// `Epsilon` edge of a listed node leads to a listed node.
    pub open spec fn breadth_first(self, a: u64, ids: Seq<u64>) -> bool {
        &&& ids.len() >= 1
        &&& ids[0] == a
        &&& ids.no_duplicates()
        &&& forall|k: int| 1 <= k < ids.len() ==> #[trigger] self.reached_first(ids, k)
        &&& self.walk_among(ids, ids.len() as int, ids.len() as int, 0)
    }
}

/// The position `(p2, j2)` comes before `(p, j)` when the edges of a list
/// of nodes are walked node by node.
pub open spec fn earlier(p: int, j: int, p2: int, j2: int) -> bool {
    p2 < p || (p2 == p && j2 < j)
}

/// `t` is one of the first `k` ids of `ids`.
pub open spec fn among(ids: Seq<u64>, k: int, t: u64) -> bool {
    exists|i: int| 0 <= i < k && i < ids.len() && #[trigger] ids[i] == t
}

/// The `Epsilon` targets among `edges`, in edge order.
pub open spec fn epsilon_targets(edges: Seq<(Token, u64)>) -> Seq<u64>
    decreases edges.len(),
{
    if edges.len() == 0 {
        Seq::empty()
    } else if edges.last().0 == Token::Epsilon {
        epsilon_targets(edges.drop_last()).push(edges.last().1)
    } else {
        epsilon_targets(edges.drop_last())
    }
}

/// `epsilon_targets` holds exactly the targets of the `Epsilon` edges.
pub proof fn lemma_epsilon_targets(edges: Seq<(Token, u64)>, t: u64)
    ensures
        epsilon_targets(edges).contains(t) <==> edges.contains((Token::Epsilon, t)),
    decreases edges.len(),
{
    if edges.len() > 0 {
        let rest = edges.drop_last();
        lemma_epsilon_targets(rest, t);
        if edges.contains((Token::Epsilon, t)) {
            let j = choose|j: int| 0 <= j < edges.len() && edges[j] == (Token::Epsilon, t);
            if j < edges.len() - 1 {
                assert(rest[j] == (Token::Epsilon, t));
                assert(rest.contains((Token::Epsilon, t)));
                let k = choose|k: int|
                    0 <= k < epsilon_targets(rest).len() && epsilon_targets(rest)[k] == t;
                assert(epsilon_targets(edges)[k] == t);
            } else {
                let e = epsilon_targets(edges);
                assert(e[e.len() - 1] == t);
            }
        }
        if epsilon_targets(edges).contains(t) {
            let e = epsilon_targets(edges);
            let k = choose|k: int| 0 <= k < e.len() && e[k] == t;
            if edges.last().0 == Token::Epsilon && k == e.len() - 1 {
                assert(edges[edges.len() - 1] == (Token::Epsilon, t));
            } else {
                assert(epsilon_targets(rest)[k] == t);
                assert(epsilon_targets(rest).contains(t));
                let j = choose|j: int| 0 <= j < rest.len() && rest[j] == (Token::Epsilon, t);
                assert(edges[j] == (Token::Epsilon, t));
            }
        }
    }
}

/// Every node belongs to its own epsilon-closure.
pub proof fn lemma_closure_reflexive(g: NfaView, n: u64)
    ensures
        g.closure(n).contains(n),
{
    assert(g.eps_reach_in(n, n, 0));
}

/// Following one more `Epsilon` edge from a reached node stays inside the
/// closure.
pub proof fn lemma_closure_step(g: NfaView, a: u64, m: u64, b: u64)
    requires
        g.closure(a).contains(m),
        g.eps_edge(m, b),
    ensures
        g.closure(a).contains(b),
{
    let n = choose|n: nat| g.eps_reach_in(a, m, n);
    assert(g.eps_reach_in(a, b, n + 1));
}

/// An `Epsilon` edge followed by `k` more makes `k + 1`.
proof fn lemma_reach_prepend(g: NfaView, n: u64, m: u64, b: u64, k: nat)
    requires
        g.eps_edge(n, m),
        g.eps_reach_in(m, b, k),
    ensures
        g.eps_reach_in(n, b, k + 1),
    decreases k,
{
    if k == 0 {
        assert(g.eps_reach_in(n, n, 0));
    } else {
        let x = choose|x: u64| g.eps_reach_in(m, x, (k - 1) as nat) && #[trigger] g.eps_edge(x, b);
        lemma_reach_prepend(g, n, m, x, (k - 1) as nat);
        assert(g.eps_reach_in(n, x, k));
    }
}

/// For an `Epsilon` edge from `n` to `m`, the closure of `n` holds the whole
/// closure of `m`.
pub proof fn lemma_closure_monotone(g: NfaView, n: u64, m: u64)
    requires
        g.eps_edge(n, m),
    ensures
        g.closure(m).subset_of(g.closure(n)),
{
    assert forall|b: u64| g.closure(m).contains(b) implies g.closure(n).contains(b) by {
        let k = choose|k: nat| g.eps_reach_in(m, b, k);
        lemma_reach_prepend(g, n, m, b, k);
    }
}

/// Every node of a closure belongs to the graph, when the graph is well
/// formed and the closure is taken at one of its nodes.
pub proof fn lemma_closure_in_graph(g: NfaView, a: u64, b: u64)
    requires
        g.wf(),
        g.nodes.contains_key(a),
        g.closure(a).contains(b),
    ensures
        g.nodes.contains_key(b),
{
    let n = choose|n: nat| g.eps_reach_in(a, b, n);
    lemma_reach_in_graph(g, a, b, n);
}

/// What is reached from a node of a well formed graph is a node of the
/// graph.
proof fn lemma_reach_in_graph(g: NfaView, a: u64, b: u64, n: nat)
    requires
        g.wf(),
        g.nodes.contains_key(a),
        g.eps_reach_in(a, b, n),
    ensures
        g.nodes.contains_key(b),
    decreases n,
{
    if n > 0 {
        let m = choose|m: u64| g.eps_reach_in(a, m, (n - 1) as nat) && #[trigger] g.eps_edge(m, b);
        lemma_reach_in_graph(g, a, m, (n - 1) as nat);
        let j = choose|j: int| 0 <= j < g.nodes[m].len() && g.nodes[m][j] == (Token::Epsilon, b);
        assert(g.nodes.contains_key(g.nodes[m][j].1));
    }
}

/// A set that holds `a` and is closed under `Epsilon` edges holds the whole
/// closure of `a`.
pub proof fn lemma_closed_set_covers(g: NfaView, a: u64, s: Set<u64>)
    requires
        s.contains(a),
        forall|x: u64, y: u64| s.contains(x) && #[trigger] g.eps_edge(x, y) ==> s.contains(y),
    ensures
        g.closure(a).subset_of(s),
{
    assert forall|b: u64| g.closure(a).contains(b) implies s.contains(b) by {
        let n = choose|n: nat| g.eps_reach_in(a, b, n);
        lemma_closed_reach(g, a, s, b, n);
    }
}

/// What is reached from a node of a set that is closed under `Epsilon`
/// edges lies in the set.
proof fn lemma_closed_reach(g: NfaView, a: u64, s: Set<u64>, b: u64, n: nat)
    requires
        s.contains(a),
        forall|x: u64, y: u64| s.contains(x) && #[trigger] g.eps_edge(x, y) ==> s.contains(y),
        g.eps_reach_in(a, b, n),
    ensures
        s.contains(b),
    decreases n,
{
    if n > 0 {
        let m = choose|m: u64| g.eps_reach_in(a, m, (n - 1) as nat) && #[trigger] g.eps_edge(m, b);
        lemma_closed_reach(g, a, s, m, (n - 1) as nat);
    }
}

/// The node map after the edge `tuple` is appended to node `from`: the
/// target node is created empty if absent, then the source node likewise,
/// then the edge is added at the end of the source's edges.
pub open spec fn pushed(
    nodes: Map<u64, Seq<(Token, u64)>>,
    from: u64,
    tuple: (Token, u64),
) -> Map<u64, Seq<(Token, u64)>> {
    let with_target = if nodes.contains_key(tuple.1) {
        nodes
    } else {
        nodes.insert(tuple.1, Seq::empty())
    };
    let edges = if with_target.contains_key(from) {
        with_target[from]
    } else {
        Seq::empty()
    };
    with_target.insert(from, edges.push(tuple))
}

/// One node of an `NFA`: its id and the edges that leave it.
pub struct NFANode {
    nodeid: u64,
    edges: Vec<(Token, u64)>,
}

impl View for NFANode {
    type V = Seq<(Token, u64)>;

    closed spec fn view(&self) -> Seq<(Token, u64)> {
        self.edges@
    }
}

impl NFANode {
    /// The id under which the node is stored.
    pub closed spec fn id(&self) -> u64 {
        self.nodeid
    }

    /// The edges that leave the node, in insertion order.
    pub fn get_edges(&self) -> (edges: &Vec<(Token, u64)>)
        ensures
            edges@ == self@,
    {
        &self.edges
    }

    /// A node without edges.
    fn new(nodeid: u64) -> (node: Self)
        ensures
            node@ == Seq::<(Token, u64)>::empty(),
            node.id() == nodeid,
    {
        NFANode { nodeid, edges: Vec::new() }
    }

    /// Appends the edge `tuple`.
    fn push(&mut self, tuple: (Token, u64))
        ensures
            final(self)@ == old(self)@.push(tuple),
            final(self).id() == old(self).id(),
    {
        self.edges.push(tuple);
    }

    /// The targets of the `Epsilon` edges of the node, in edge order.
    fn epsilon_closures(&self) -> (targets: Vec<u64>)
        ensures
            targets@ == epsilon_targets(self@),
    {
        let mut targets: Vec<u64> = Vec::new();
        let mut i: usize = 0;
        while i < self.edges.len()
            invariant
                i <= self.edges.len(),
                targets@ == epsilon_targets(self.edges@.take(i as int)),
            decreases self.edges.len() - i,
        {
            let tuple = self.edges[i];
            assert(self.edges@.take(i + 1).drop_last() =~= self.edges@.take(i as int));
            if tuple.0 == Token::Epsilon {
                targets.push(tuple.1);
            }
            i += 1;
        }
        assert(self.edges@.take(i as int) =~= self.edges@);
        targets
    }
}

/// A nondeterministic automaton: a start id, one accepting id, and a node
/// for every id that an edge mentions.
pub struct NFA {
    start: u64,
    termnial: u64,
    nodes: HashMap<u64, NFANode>,
}

impl View for NFA {
    type V = NfaView;

    closed spec fn view(&self) -> NfaView {
        NfaView {
            start: self.start,
            terminal: self.termnial,
            nodes: Map::new(|id: u64| self.nodes@.contains_key(id), |id: u64| self.nodes@[id]@),
        }
    }
}

impl NFA {
    /// Every node is stored under its own id.
    pub closed spec fn ids_consistent(&self) -> bool {
        forall|id: u64| #[trigger] self.nodes@.contains_key(id) ==> self.nodes@[id].id() == id
    }

    /// The invariant of the type: the graph is finite, holds its start node
    /// and the target of every edge, and stores each node under its own id.
    /// `new` establishes it and `push` keeps it.
    pub open spec fn wf(&self) -> bool {
        self@.wf() && self.ids_consistent()
    }

    /// A graph whose only node is `start`, without edges.
    pub fn new(start: u64, termnial: u64) -> (nfa: Self)
        ensures
            nfa@.start == start,
            nfa@.terminal == termnial,
            nfa@.nodes == Map::<u64, Seq<(Token, u64)>>::empty().insert(start, Seq::empty()),
            nfa.wf(),
    {
        let mut nodes: HashMap<u64, NFANode> = HashMap::new();
        nodes.insert(start, NFANode::new(start));
        proof {
            let ghost view = NfaView {
                start,
                terminal: termnial,
                nodes: Map::new(|id: u64| nodes@.contains_key(id), |id: u64| nodes@[id]@),
            };
            assert(view.nodes =~= Map::<u64, Seq<(Token, u64)>>::empty().insert(
                start,
                Seq::empty(),
            ));
            assert(view.wf());
        }
        NFA { start, termnial, nodes }
    }

    /// The accepting id.
    pub fn get_terminal(&self) -> (id: u64)
        ensures
            id == self@.terminal,
    {
        self.termnial
    }

    /// The start id.
    pub fn get_start(&self) -> (id: u64)
        ensures
            id == self@.start,
    {
        self.start
    }

    /// Appends the edge `tuple` to the node `nodeid`. A node that the edge
    /// mentions and the graph lacks is created first, without edges.
    pub fn push(&mut self, nodeid: u64, tuple: (Token, u64))
        requires
            old(self).wf(),
        ensures
            final(self)@.start == old(self)@.start,
            final(self)@.terminal == old(self)@.terminal,
            final(self)@.nodes == pushed(old(self)@.nodes, nodeid, tuple),
            final(self).wf(),
    {
        let ghost before = self@;
        if self.nodes.get(&tuple.1).is_none() {
            self.nodes.insert(tuple.1, NFANode::new(tuple.1));
        }
        let mut node = match self.nodes.remove(&nodeid) {
            Some(node) => node,
            None => NFANode::new(nodeid),
        };
        node.push(tuple);
        self.nodes.insert(nodeid, node);
        proof {
            assert(self@.nodes =~= pushed(before.nodes, nodeid, tuple));
            assert forall|id: u64, j: int|
                self@.nodes.contains_key(id) && 0 <= j < self@.nodes[id].len()
                    implies self@.nodes.contains_key(#[trigger] self@.nodes[id][j].1) by {
                if id == nodeid && j == self@.nodes[id].len() - 1 {
                } else {
                    assert(before.nodes.contains_key(id));
                    assert(before.nodes.contains_key(before.nodes[id][j].1));
                }
            }
        }
    }

    /// The node stored under `nodeid`, if there is one.
    pub fn get_node(&self, nodeid: u64) -> (node: Option<&NFANode>)
        ensures
            node is Some <==> self@.nodes.contains_key(nodeid),
            node is Some ==> node.unwrap()@ == self@.nodes[nodeid],
            node is Some && self.wf() ==> node.unwrap().id() == nodeid,
    {
        self.nodes.get(&nodeid)
    }
}

impl NFA {
    /// The epsilon-closure of `nodeid`: every id reached from it over
    /// `Epsilon` edges alone, itself first, each id once, in the order in
    /// which a breadth-first walk with a queue and a visited set meets
    /// them. An id without a node in the graph is refused with
    /// `UnknownNode`.
    #[verifier::rlimit(50)]
    pub fn get_epsilon_closure_node(&self, nodeid: u64) -> (result: Result<Vec<u64>, AutomataError>)
        requires
            self.wf(),
        ensures
            match result {
                Ok(ids) => {
                    &&& self@.nodes.contains_key(nodeid)
                    &&& self@.breadth_first(nodeid, ids@)
                    &&& ids@.to_set() == self@.closure(nodeid)
                },
                Err(e) => e == AutomataError::UnknownNode && !self@.nodes.contains_key(nodeid),
            },
    {
        if self.nodes.get(&nodeid).is_none() {
            return Err(AutomataError::UnknownNode);
        }
        let ghost g = self@;
        let ghost bound = g.nodes.dom().len() as int;
        let mut queue: VecDeque<u64> = VecDeque::new();
        let mut ans: Vec<u64> = Vec::new();
        let mut visited: HashSet<u64> = HashSet::new();
        queue.push_back(nodeid);
        visited.insert(nodeid);
        ans.push(nodeid);
        let ghost mut done: int = 0;
        proof {
            lemma_closure_reflexive(g, nodeid);
            assert(ans@ =~= seq![nodeid]);
            assert(queue@ =~= ans@.skip(0));
            assert(ans@[0] == nodeid);
            assert forall|x: u64| #[trigger] ans@.contains(x) implies x == nodeid by {
                let k = choose|k: int| 0 <= k < ans@.len() && ans@[k] == x;
            }
            lemma_closure_bound(g, nodeid, ans@);
        }
        while queue.len() > 0
            invariant
                g == self@,
                self.wf(),
                bound == g.nodes.dom().len(),
                g.nodes.contains_key(nodeid),
                ans@.len() > 0,
                ans@[0] == nodeid,
                ans@.no_duplicates(),
                ans@.len() <= bound,
                0 <= done <= ans@.len(),
                queue@ == ans@.skip(done),
                forall|x: u64|
                    #![trigger visited@.contains(x)]
                    #![trigger ans@.contains(x)]
                    visited@.contains(x) <==> ans@.contains(x),
                forall|x: u64| #[trigger] ans@.contains(x) ==> g.closure(nodeid).contains(x),
                forall|k: int| 1 <= k < ans@.len() ==> #[trigger] g.reached_first(ans@, k),
                g.walk_among(ans@, ans@.len() as int, done, 0),
            decreases 2 * (bound - ans@.len()) + queue@.len(),
        {
            let ghost measure = 2 * (bound - ans@.len()) + queue@.len();
            let cur = queue.pop_front().unwrap();
            proof {
                assert(cur == ans@[done]);
                assert(ans@.contains(cur));
                lemma_closure_in_graph(g, nodeid, cur);
                assert(queue@ =~= ans@.skip(done + 1));
            }
            let succ = self.nodes.get(&cur).unwrap().epsilon_closures();
            let mut j: usize = 0;
            while j < succ.len()
                invariant
                    g == self@,
                    self.wf(),
                    bound == g.nodes.dom().len(),
                    g.nodes.contains_key(nodeid),
                    g.nodes.contains_key(cur),
                    succ@ == g.eps_targets(cur),
                    j <= succ.len(),
                    ans@.len() > 0,
                    ans@[0] == nodeid,
                    ans@.no_duplicates(),
                    ans@.len() <= bound,
                    0 <= done < ans@.len(),
                    cur == ans@[done],
                    queue@ == ans@.skip(done + 1),
                    2 * (bound - ans@.len()) + queue@.len() < measure,
                    forall|x: u64|
                        #![trigger visited@.contains(x)]
                        #![trigger ans@.contains(x)]
                        visited@.contains(x) <==> ans@.contains(x),
                    forall|x: u64| #[trigger] ans@.contains(x) ==> g.closure(nodeid).contains(x),
                    forall|k: int| 1 <= k < ans@.len() ==> #[trigger] g.reached_first(ans@, k),
                    g.walk_among(ans@, ans@.len() as int, done, j as int),
                decreases succ.len() - j,
            {
                let id = succ[j];
                let ghost ans_before = ans@;
                let ghost queue_before = queue@;
                let found = visited.contains(&id);
                proof {
                    assert(ans@[done] == cur);
                    assert(ans@.contains(cur));
                    assert(g.closure(nodeid).contains(cur));
                }
                if !found {
                    ans.push(id);
                    queue.push_back(id);
                    visited.insert(id);
                }
                proof {
                    assert(succ@.contains(id));
                    lemma_epsilon_targets(g.nodes[cur], id);
                    assert(g.eps_edge(cur, id));
                    lemma_closure_step(g, nodeid, cur, id);
                    lemma_walk_on(g, ans_before, ans@, done, j as int);
                    if !found {
                        assert(queue@ =~= ans@.skip(done + 1));
                        assert forall|x: u64| ans@.contains(x) <==> ans_before.contains(x) || x
                            == id by {
                            if ans@.contains(x) {
                                let k = choose|k: int| 0 <= k < ans@.len() && ans@[k] == x;
                                if k < ans_before.len() {
                                    assert(ans_before[k] == x);
                                }
                            }
                            if ans_before.contains(x) {
                                let k = choose|k: int|
                                    0 <= k < ans_before.len() && ans_before[k] == x;
                                assert(ans@[k] == x);
                            }
                            if x == id {
                                assert(ans@[ans_before.len() as int] == x);
                            }
                        }
                        assert forall|x: u64| #[trigger] ans@.contains(x) implies g.closure(
                            nodeid,
                        ).contains(x) by {
                            if x != id {
                                assert(ans_before.contains(x));
                            }
                        }
                        lemma_closure_bound(g, nodeid, ans@);
                    }
                }
                j += 1;
            }
            proof {
                done = done + 1;
            }
        }
        proof {
            assert(queue@.len() == 0);
            assert(done == ans@.len());
            let s = ans@.to_set();
            assert forall|x: u64, y: u64| s.contains(x) && #[trigger] g.eps_edge(x, y) implies s.contains(
                y,
            ) by {
                let p = choose|p: int| 0 <= p < ans@.len() && ans@[p] == x;
                lemma_epsilon_targets(g.nodes[x], y);
                let targets = g.eps_targets(ans@[p]);
                let j = choose|j: int| 0 <= j < targets.len() && targets[j] == y;
                assert(earlier(ans@.len() as int, 0, p, j));
                assert(among(ans@, ans@.len() as int, g.eps_targets(ans@[p])[j]));
            }
            assert(s.contains(nodeid)) by {
                assert(ans@[0] == nodeid);
            }
            lemma_closed_set_covers(g, nodeid, s);
            assert(s =~= g.closure(nodeid));
        }
        Ok(ans)
    }
}

/// Walking one `Epsilon` edge more keeps a breadth-first list in order,
/// whether the edge leads to a listed node or to a new one, which is
/// then listed last.
proof fn lemma_walk_on(g: NfaView, ids: Seq<u64>, ids2: Seq<u64>, c: int, j: int)
    requires
        0 <= c < ids.len(),
        0 <= j < g.eps_targets(ids[c]).len(),
        ids.no_duplicates(),
        forall|k: int| 1 <= k < ids.len() ==> #[trigger] g.reached_first(ids, k),
        g.walk_among(ids, ids.len() as int, c, j),
        ids2 == if ids.contains(g.eps_targets(ids[c])[j]) {
            ids
        } else {
            ids.push(g.eps_targets(ids[c])[j])
        },
    ensures
        ids2.no_duplicates(),
        forall|k: int| 1 <= k < ids2.len() ==> #[trigger] g.reached_first(ids2, k),
        g.walk_among(ids2, ids2.len() as int, c, j + 1),
{
    let t = g.eps_targets(ids[c])[j];
    let n = ids.len() as int;
    assert forall|i: int| 0 <= i < n implies ids2[i] == ids[i] by {}
    assert forall|k: int, t2: u64| among(ids, k, t2) implies among(ids2, k, t2) by {
        let i = choose|i: int| 0 <= i < k && i < ids.len() && #[trigger] ids[i] == t2;
        assert(ids2[i] == t2);
    }
    assert forall|k: int, p1: int, j1: int|
        k <= n && p1 <= n && g.walk_among(ids, k, p1, j1) && (p1 < n || j1
            <= 0) implies g.walk_among(ids2, k, p1, j1) by {
        assert forall|p2: int, j2: int|
            0 <= p2 < ids2.len() && earlier(p1, j1, p2, j2) && 0 <= j2 < g.eps_targets(
                ids2[p2],
            ).len() implies among(ids2, k, #[trigger] g.eps_targets(ids2[p2])[j2]) by {
            assert(ids2[p2] == ids[p2]);
            assert(among(ids, k, g.eps_targets(ids[p2])[j2]));
        }
    }
    assert forall|k: int| 1 <= k < ids2.len() implies #[trigger] g.reached_first(ids2, k) by {
        if k < n {
            assert(g.reached_first(ids, k));
            let (p1, j1) = choose|p1: int, j1: int| #[trigger] g.reached_at(ids, k, p1, j1);
            assert(ids2[p1] == ids[p1]);
            assert(g.walk_among(ids2, k, p1, j1));
            assert(g.reached_at(ids2, k, p1, j1));
        } else {
            assert(ids2[c] == ids[c]);
            assert forall|p2: int, j2: int|
                0 <= p2 < ids2.len() && earlier(c, j, p2, j2) && 0 <= j2 < g.eps_targets(
                    ids2[p2],
                ).len() implies among(ids2, k, #[trigger] g.eps_targets(ids2[p2])[j2]) by {
                assert(ids2[p2] == ids[p2]);
                assert(among(ids, n, g.eps_targets(ids[p2])[j2]));
            }
            assert(g.reached_at(ids2, k, c, j));
        }
    }
    assert forall|a: int, b: int|
        0 <= a < ids2.len() && 0 <= b < ids2.len() && a != b implies ids2[a] != ids2[b] by {
        if a < n && b < n {
        } else if a < n {
            assert(ids.contains(ids[a]));
        } else {
            assert(ids.contains(ids[b]));
        }
    }
    assert forall|p2: int, j2: int|
        0 <= p2 < ids2.len() && earlier(c, j + 1, p2, j2) && 0 <= j2 < g.eps_targets(
            ids2[p2],
        ).len() implies among(
        ids2,
        ids2.len() as int,
        #[trigger] g.eps_targets(ids2[p2])[j2],
    ) by {
        assert(ids2[p2] == ids[p2]);
        if p2 == c && j2 == j {
            if ids.contains(t) {
                let i = choose|i: int| 0 <= i < ids.len() && ids[i] == t;
                assert(ids2[i] == t);
            } else {
                assert(ids2[n] == t);
            }
        } else {
            assert(among(ids, n, g.eps_targets(ids[p2])[j2]));
        }
    }
}

/// A duplicate-free list of ids inside the closure of a node of a well
/// formed graph is no longer than the graph has nodes.
proof fn lemma_closure_bound(g: NfaView, a: u64, ids: Seq<u64>)
    requires
        g.wf(),
        g.nodes.contains_key(a),
        ids.no_duplicates(),
        forall|x: u64| #[trigger] ids.contains(x) ==> g.closure(a).contains(x),
    ensures
        ids.len() <= g.nodes.dom().len(),
{
    ids.unique_seq_to_set();
    assert forall|x: u64| ids.to_set().contains(x) implies g.nodes.dom().contains(x) by {
        assert(ids.contains(x));
        lemma_closure_in_graph(g, a, x);
    }
    vstd::set_lib::lemma_len_subset(ids.to_set(), g.nodes.dom());
}

impl NFA {
    /// The ids of the nodes, each once, in no particular order.
    pub fn nodes(&self) -> (ids: Vec<u64>)
        ensures
            ids@.no_duplicates(),
            ids@.to_set() == self@.nodes.dom(),
    {
        let mut ids: Vec<u64> = Vec::new();
        let ghost all: Seq<u64> = self.nodes.keys().remaining().unref();
        for key in it: self.nodes.keys()
            invariant
                it.seq().unref() == all,
                ids@ == all.take(it.index() as int),
            ensures
                ids@ == all,
        {
            ids.push(*key);
            assert(ids@ =~= all.take(it.index() + 1));
        }
        assert(all.to_set() =~= self@.nodes.dom());
        ids
    }

    /// The edges of the graph, each as source, target and label: the
    /// edges of one node together and in their order, the nodes in no
    /// particular order.
    pub fn edges(&self) -> (list: Vec<(u64, u64, Token)>)
        ensures
            lists_edges(self@.nodes, list@),
    {
        let ids = self.nodes();
        let mut list: Vec<(u64, u64, Token)> = Vec::new();
        let mut i: usize = 0;
        while i < ids.len()
            invariant
                i <= ids.len(),
                ids@.to_set() == self@.nodes.dom(),
                list@ == edge_list(self@.nodes, ids@.take(i as int)),
            decreases ids.len() - i,
        {
            assert(ids@.to_set().contains(ids@[i as int]));
            let node = self.nodes.get(&ids[i]).unwrap();
            append_edges(&mut list, ids[i], &node.edges);
            assert(ids@.take(i + 1).drop_last() =~= ids@.take(i as int));
            i += 1;
        }
        assert(ids@.take(i as int) =~= ids@);
        list
    }
}

} // verus!
