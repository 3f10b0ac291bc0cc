//! Deterministic automata: their mathematical content, how they read an
//! input, and the longest-match scan.

use crate::export::{append_edges, edge_list, lists_edges};
use crate::text::{char_at, chars_of, string_of};
use crate::token::Token;
use std::collections::HashMap;
use vstd::prelude::*;
use vstd::std_specs::iter::IteratorSpec;

mod determinize;
mod simplify;

verus! {

broadcast use vstd::std_specs::hash::group_hash_axioms;

/// Whether a node of a `DFA` accepts.
#[derive(Clone, Copy, Debug, PartialEq, Eq, Structural)]
pub enum DFANodeType {
    Terminal,
    NonTerminal,
}

/// The mathematical content of one node of a `DFA`.
pub struct DfaNodeView {
    pub accepting: bool,
    pub edges: Seq<(Token, u64)>,
}

/// The mathematical content of a `DFA`: the start id, the nodes by id, and
/// for every node the ids that it stands for (its point).
pub struct DfaView {
    pub start: u64,
    pub nodes: Map<u64, DfaNodeView>,
    pub points: Map<u64, Seq<u64>>,
}

impl DfaView {
    /// The graph is finite and holds its start node; every node has a
    /// point; no edge is labelled `Epsilon`; every edge leads to a node of
    /// the graph; and no node has two edges with the same symbol.
    pub open spec fn wf(self) -> bool {
        &&& self.nodes.dom().finite()
        &&& self.nodes.contains_key(self.start)
        &&& self.points.dom() == self.nodes.dom()
        &&& forall|q: u64, j: int|
            self.nodes.contains_key(q) && 0 <= j < self.nodes[q].edges.len() ==> {
                let e = #[trigger] self.nodes[q].edges[j];
                e.0 != Token::Epsilon && self.nodes.contains_key(e.1)
            }
        &&& forall|q: u64, i: int, j: int|
            #![trigger self.nodes[q].edges[i], self.nodes[q].edges[j]]
            self.nodes.contains_key(q) && 0 <= i < j < self.nodes[q].edges.len()
                ==> self.nodes[q].edges[i].0 != self.nodes[q].edges[j].0
    }
}

/// The target of the first edge of `edges` that is labelled `s`.
pub open spec fn find_edge(edges: Seq<(Token, u64)>, s: Token) -> Option<u64>
    decreases edges.len(),
{
    if edges.len() == 0 {
        None
    } else if edges[0].0 == s {
        Some(edges[0].1)
    } else {
        find_edge(edges.drop_first(), s)
    }
}

impl DfaView {
    /// The node reached from `q` over its edge labelled `s`, if it has one.
    pub open spec fn step(self, q: u64, s: Token) -> Option<u64> {
        if self.nodes.contains_key(q) {
            find_edge(self.nodes[q].edges, s)
        } else {
            None
        }
    }

    /// The node reached from `q` by following one edge for each symbol of
    /// `input`; `None` as soon as an edge is missing.
    pub open spec fn run(self, q: u64, input: Seq<Token>) -> Option<u64>
        decreases input.len(),
    {
        if input.len() == 0 {
            Some(q)
        } else {
            match self.step(q, input[0]) {
                Some(t) => self.run(t, input.drop_first()),
                None => None,
            }
        }
    }

    /// Reading the whole of `input` from `q` ends in an accepting node.
    pub open spec fn accepts_from(self, q: u64, input: Seq<Token>) -> bool {
        match self.run(q, input) {
            Some(t) => self.nodes.contains_key(t) && self.nodes[t].accepting,
            None => false,
        }
    }

    /// Reading the whole of `input` from the start ends in an accepting
    /// node.
    pub open spec fn accepts(self, input: Seq<Token>) -> bool {
        self.accepts_from(self.start, input)
    }

    /// The best match once the accepting check has been made at node
    /// `cur`: the run in progress replaces the best one only if the node
    /// accepts and the run is longer.
    pub open spec fn checked(self, cur: u64, acc: Seq<char>, best: Seq<char>) -> Seq<char> {
        if self.nodes.contains_key(cur) && self.nodes[cur].accepting && acc.len() > best.len() {
            acc
        } else {
            best
        }
    }

    /// What the longest-match scan returns when it stands before position
    /// `i` of `input`, at node `cur`, with the run `acc` in progress and
    /// `best` the longest accepted run so far. At each position the
    /// accepting check is made first. Then the symbol is followed from
    /// `cur`; if `cur` has no edge for it, the run is dropped and the
    /// symbol is tried once more from the start node; if that fails too,
    /// the symbol is passed over. After the last symbol the accepting
    /// check is made once more.
    pub open spec fn scan(
        self,
        input: Seq<char>,
        i: int,
        cur: u64,
        acc: Seq<char>,
        best: Seq<char>,
    ) -> Seq<char>
        decreases input.len() - i,
    {
        let best = self.checked(cur, acc, best);
        if i < 0 || i >= input.len() {
            best
        } else {
            let s = Token::Character(input[i]);
            match self.step(cur, s) {
                Some(t) => self.scan(input, i + 1, t, acc.push(input[i]), best),
                None => match self.step(self.start, s) {
                    Some(t) => self.scan(input, i + 1, t, seq![input[i]], best),
                    None => self.scan(input, i + 1, self.start, Seq::empty(), best),
                },
            }
        }
    }

    /// The longest-match scan of the whole of `input`.
    pub open spec fn longest_match(self, input: Seq<char>) -> Seq<char> {
        self.scan(input, 0, self.start, Seq::empty(), Seq::empty())
    }
}

/// `symbols` are the terminals that the characters of `text` stand for.
pub open spec fn spells(symbols: Seq<Token>, text: Seq<char>) -> bool {
    &&& symbols.len() == text.len()
    &&& forall|k: int| 0 <= k < text.len() ==> #[trigger] symbols[k] == Token::Character(text[k])
}

/// Reading one symbol more goes on from where the reading stood.
pub proof fn lemma_run_push(d: DfaView, q: u64, input: Seq<Token>, s: Token)
    ensures
        d.run(q, input.push(s)) == match d.run(q, input) {
            Some(t) => d.step(t, s),
            None => None,
        },
    decreases input.len(),
{
    let longer = input.push(s);
    if input.len() == 0 {
        assert(longer.drop_first() =~= Seq::<Token>::empty());
        assert(longer[0] == s);
        match d.step(q, s) {
            Some(t) => {
                assert(d.run(t, longer.drop_first()) == Some(t));
            },
            None => {},
        }
    } else {
        assert(longer[0] == input[0]);
        assert(longer.drop_first() =~= input.drop_first().push(s));
        match d.step(q, input[0]) {
            Some(t) => {
                lemma_run_push(d, t, input.drop_first(), s);
            },
            None => {},
        }
    }
}

/// In a well formed graph an edge that is found leads to a node of the
/// graph.
pub proof fn lemma_step_in_graph(d: DfaView, q: u64, s: Token)
    requires
        d.wf(),
        d.step(q, s) is Some,
    ensures
        d.nodes.contains_key(d.step(q, s).unwrap()),
{
    lemma_find_edge(d.nodes[q].edges, s);
    let j = choose|j: int|
        0 <= j < d.nodes[q].edges.len() && d.nodes[q].edges[j] == (s, d.step(q, s).unwrap());
    assert(d.nodes.contains_key(d.nodes[q].edges[j].1));
}

/// `find_edge` returns the target of an edge labelled `s` if there is such
/// an edge, and `None` if there is none.
pub proof fn lemma_find_edge(edges: Seq<(Token, u64)>, s: Token)
    ensures
        match find_edge(edges, s) {
            Some(t) => exists|j: int| 0 <= j < edges.len() && edges[j] == (s, t),
            None => forall|j: int| 0 <= j < edges.len() ==> (#[trigger] edges[j]).0 != s,
        },
    decreases edges.len(),
{
    if edges.len() > 0 && edges[0].0 != s {
        let rest = edges.drop_first();
        lemma_find_edge(rest, s);
        match find_edge(rest, s) {
            Some(t) => {
                let j = choose|j: int| 0 <= j < rest.len() && rest[j] == (s, t);
                assert(edges[j + 1] == (s, t));
            },
            None => {
                assert forall|j: int| 0 <= j < edges.len() implies (#[trigger] edges[j]).0
                    != s by {
                    if j > 0 {
                        assert(rest[j - 1].0 != s);
                    }
                }
            },
        }
    } else if edges.len() > 0 {
        assert(edges[0] == (s, edges[0].1));
    }
}

/// One node of a `DFA`: its id, whether it accepts, and the edges that
/// leave it.
struct DFANode {
    nodeid: u64,
    nodetype: DFANodeType,
    edges: Vec<(Token, u64)>,
}

impl DFANode {
    /// A node without edges.
    fn new(nodeid: u64, nodetype: DFANodeType) -> (node: Self)
        ensures
            node.nodeid == nodeid,
            node.nodetype == nodetype,
            node.edges@ == Seq::<(Token, u64)>::empty(),
    {
        DFANode { nodeid, nodetype, edges: Vec::new() }
    }

    /// Appends the edge labelled `token` that leads to `to`.
    fn push(&mut self, token: Token, to: u64)
        ensures
            final(self).nodeid == old(self).nodeid,
            final(self).nodetype == old(self).nodetype,
            final(self).edges@ == old(self).edges@.push((token, to)),
    {
        self.edges.push((token, to));
    }
}

/// A deterministic automaton: a start id and a node for every id, each
/// with an accepting flag, its edges, and the ids that the node stands for.
pub struct DFA {
    start: u64,
    nodes: HashMap<u64, DFANode>,
    id_to_point: HashMap<u64, Vec<u64>>,
}

/// The mathematical content of a node.
spec fn node_view(node: DFANode) -> DfaNodeView {
    DfaNodeView { accepting: node.nodetype == DFANodeType::Terminal, edges: node.edges@ }
}

/// The mathematical content of the automaton that starts at `start` and
/// has the nodes `nodes` with the points `points`.
spec fn view_of(start: u64, nodes: Map<u64, DFANode>, points: Map<u64, Vec<u64>>) -> DfaView {
    DfaView {
        start,
        nodes: Map::new(|q: u64| nodes.contains_key(q), |q: u64| node_view(nodes[q])),
        points: Map::new(|q: u64| points.contains_key(q), |q: u64| points[q]@),
    }
}

/// Every node is stored under its own id.
spec fn ids_consistent(nodes: Map<u64, DFANode>) -> bool {
    forall|q: u64| #[trigger] nodes.contains_key(q) ==> nodes[q].nodeid == q
}

impl View for DFA {
    type V = DfaView;

    closed spec fn view(&self) -> DfaView {
        view_of(self.start, self.nodes@, self.id_to_point@)
    }
}

/// A copy of the list `ids`.
fn copy_ids(ids: &Vec<u64>) -> (copy: Vec<u64>)
    ensures
        copy@ == ids@,
{
    let mut copy: Vec<u64> = Vec::new();
    let mut i: usize = 0;
    while i < ids.len()
        invariant
            i <= ids.len(),
            copy@ == ids@.take(i as int),
        decreases ids.len() - i,
    {
        copy.push(ids[i]);
        assert(ids@.take(i + 1) =~= ids@.take(i as int).push(ids@[i as int]));
        i += 1;
    }
    assert(ids@.take(i as int) =~= ids@);
    copy
}

impl DFA {
    /// Every node is stored under its own id.
    pub closed spec fn ids_consistent(&self) -> bool {
        ids_consistent(self.nodes@)
    }

    /// The invariant of the type: the view is well formed and each node
    /// is stored under its own id. `from_nfa` establishes it and
    /// `simplifier` keeps it.
    pub open spec fn wf(&self) -> bool {
        self@.wf() && self.ids_consistent()
    }
}

/// A copy of the list `symbols`.
fn copy_symbols(symbols: &Vec<char>) -> (copy: Vec<char>)
    ensures
        copy@ == symbols@,
{
    let mut copy: Vec<char> = Vec::new();
    let mut i: usize = 0;
    while i < symbols.len()
        invariant
            i <= symbols.len(),
            copy@ == symbols@.take(i as int),
        decreases symbols.len() - i,
    {
        copy.push(symbols[i]);
        assert(symbols@.take(i + 1) =~= symbols@.take(i as int).push(symbols@[i as int]));
        i += 1;
    }
    assert(symbols@.take(i as int) =~= symbols@);
    copy
}

impl DFA {
    /// The start id.
    pub fn get_start(&self) -> (id: u64)
        ensures
            id == self@.start,
    {
        self.start
    }

    /// Whether the node `id` accepts; `None` if the graph has no such node.
    pub fn node_type(&self, id: u64) -> (nodetype: Option<DFANodeType>)
        ensures
            nodetype is Some <==> self@.nodes.contains_key(id),
            nodetype == Some(DFANodeType::Terminal) ==> self@.nodes[id].accepting,
            nodetype == Some(DFANodeType::NonTerminal) ==> !self@.nodes[id].accepting,
    {
        match self.nodes.get(&id) {
            Some(node) => Some(node.nodetype),
            None => None,
        }
    }

    /// The ids that the node `id` stands for; `None` if the graph has no
    /// such node.
    pub fn get_point(&self, id: u64) -> (point: Option<Vec<u64>>)
        ensures
            point is Some <==> self@.points.contains_key(id),
            point is Some ==> point.unwrap()@ == self@.points[id],
    {
        match self.id_to_point.get(&id) {
            Some(ids) => Some(copy_ids(ids)),
            None => None,
        }
    }

    /// The node reached from `id` over its edge labelled `token`, if the
    /// node exists and has such an edge.
    pub fn follow(&self, id: u64, token: Token) -> (to: Option<u64>)
        ensures
            to == self@.step(id, token),
    {
        match self.nodes.get(&id) {
            None => None,
            Some(node) => {
                let mut j: usize = 0;
                assert(node.edges@.skip(0) =~= node.edges@);
                while j < node.edges.len()
                    invariant
                        j <= node.edges.len(),
                        self@.step(id, token) == find_edge(node.edges@, token),
                        find_edge(node.edges@, token) == find_edge(
                            node.edges@.skip(j as int),
                            token,
                        ),
                    decreases node.edges.len() - j,
                {
                    let edge = node.edges[j];
                    assert(node.edges@.skip(j as int)[0] == node.edges@[j as int]);
                    if edge.0 == token {
                        return Some(edge.1);
                    }
                    assert(node.edges@.skip(j as int).drop_first() =~= node.edges@.skip(j + 1));
                    j += 1;
                }
                assert(node.edges@.skip(j as int).len() == 0);
                None
            },
        }
    }

    /// Whether reading the whole of `input` from the start node, one edge
    /// for each symbol, ends in an accepting node.
    pub fn accepts(&self, input: &Vec<Token>) -> (accepted: bool)
        ensures
            accepted == self@.accepts(input@),
    {
        let mut id = self.start;
        let mut i: usize = 0;
        assert(input@.skip(0) =~= input@);
        while i < input.len()
            invariant
                i <= input.len(),
                self@.run(self@.start, input@) == self@.run(id, input@.skip(i as int)),
            decreases input.len() - i,
        {
            assert(input@.skip(i as int)[0] == input@[i as int]);
            assert(input@.skip(i as int).drop_first() =~= input@.skip(i + 1));
            match self.follow(id, input[i]) {
                Some(to) => {
                    id = to;
                },
                None => {
                    return false;
                },
            }
            i += 1;
        }
        assert(input@.skip(i as int).len() == 0);
        match self.node_type(id) {
            Some(DFANodeType::Terminal) => true,
            _ => false,
        }
    }

    /// The longest accepted run found in `string`. The symbols are read
    /// one by one; a symbol that the current node has no edge for ends the
    /// run in progress and is tried again from the start node, and is
    /// passed over if the start node has no edge for it either. Of the
    /// accepted runs met on the way the first of the longest is returned,
    /// the empty string if there is none.
    pub fn scanner(&self, string: &str) -> (best: String)
        ensures
            best@ == self@.longest_match(string@),
            best@.len() > 0 ==> exists|symbols: Seq<Token>|
                spells(symbols, best@) && self@.accepts(symbols),
    {
        let input = chars_of(string);
        let mut ans: Vec<char> = Vec::new();
        let mut max_ans: Vec<char> = Vec::new();
        let mut id = self.start;
        let mut i: usize = 0;
        let ghost mut run: Seq<Token> = Seq::empty();
        let ghost mut best_run: Seq<Token> = Seq::empty();
        while i < input.len()
            invariant
                i <= input.len(),
                self@.longest_match(input@) == self@.scan(input@, i as int, id, ans@, max_ans@),
                spells(run, ans@),
                self@.run(self@.start, run) == Some(id),
                spells(best_run, max_ans@),
                max_ans@.len() > 0 ==> self@.accepts(best_run),
            decreases input.len() - i,
        {
            let ch = char_at(&input, i);
            if self.is_accepting(id) && max_ans.len() < ans.len() {
                max_ans = copy_symbols(&ans);
                proof {
                    best_run = run;
                }
            }
            match self.follow(id, Token::Character(ch)) {
                Some(to) => {
                    proof {
                        lemma_run_push(self@, self@.start, run, Token::Character(ch));
                        run = run.push(Token::Character(ch));
                    }
                    id = to;
                    ans.push(ch);
                },
                None => {
                    id = self.start;
                    ans.clear();
                    proof {
                        run = Seq::empty();
                    }
                    match self.follow(id, Token::Character(ch)) {
                        Some(to) => {
                            proof {
                                lemma_run_push(self@, self@.start, run, Token::Character(ch));
                                run = run.push(Token::Character(ch));
                            }
                            id = to;
                            ans.push(ch);
                            assert(ans@ =~= seq![ch]);
                        },
                        None => {},
                    }
                },
            }
            i += 1;
        }
        if self.is_accepting(id) && max_ans.len() < ans.len() {
            max_ans = copy_symbols(&ans);
            proof {
                best_run = run;
            }
        }
        string_of(&max_ans)
    }

    /// Whether `id` is a node of the graph that accepts.
    fn is_accepting(&self, id: u64) -> (accepting: bool)
        ensures
            accepting == (self@.nodes.contains_key(id) && self@.nodes[id].accepting),
    {
        match self.nodes.get(&id) {
            Some(node) => node.nodetype == DFANodeType::Terminal,
            None => false,
        }
    }
}

/// The edges of the nodes of a graph, by node id.
pub open spec fn edge_map(d: DfaView) -> Map<u64, Seq<(Token, u64)>> {
    Map::new(|q: u64| d.nodes.contains_key(q), |q: u64| d.nodes[q].edges)
}

impl DFA {
    /// The ids of the nodes, each once, in no particular order.
    pub fn nodes(&self) -> (ids: Vec<u64>)
        ensures
            ids@.no_duplicates(),
            ids@.to_set() == self@.nodes.dom(),
    {
        let mut ids: Vec<u64> = Vec::new();
        let ghost all: Seq<u64> = self.nodes.keys().remaining().unref();
        for key in it: self.nodes.keys()
            invariant
                it.seq().unref() == all,
                ids@ == all.take(it.index() as int),
            ensures
                ids@ == all,
        {
            ids.push(*key);
            assert(ids@ =~= all.take(it.index() + 1));
        }
        assert(all.to_set() =~= self@.nodes.dom());
        ids
    }

    /// The edges of the graph, each as source, target and label: the
    /// edges of one node together and in their order, the nodes in no
    /// particular order.
    pub fn edges(&self) -> (list: Vec<(u64, u64, Token)>)
        ensures
            lists_edges(edge_map(self@), list@),
    {
        let ids = self.nodes();
        let mut list: Vec<(u64, u64, Token)> = Vec::new();
        let mut i: usize = 0;
        assert(edge_map(self@).dom() =~= self@.nodes.dom());
        while i < ids.len()
            invariant
                i <= ids.len(),
                ids@.to_set() == self@.nodes.dom(),
                list@ == edge_list(edge_map(self@), ids@.take(i as int)),
            decreases ids.len() - i,
        {
            assert(ids@.to_set().contains(ids@[i as int]));
            let node = self.nodes.get(&ids[i]).unwrap();
            append_edges(&mut list, ids[i], &node.edges);
            assert(ids@.take(i + 1).drop_last() =~= ids@.take(i as int));
            i += 1;
        }
        assert(ids@.take(i as int) =~= ids@);
        list
    }
}

} // verus!
