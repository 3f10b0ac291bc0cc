//! What it means to minimize a deterministic automaton: bisimilar nodes,
//! signatures, groupings and their refinement, and the quotient graph.

use crate::dfa::{find_edge, lemma_find_edge, lemma_step_in_graph, DfaNodeView, DfaView};
use crate::sorted::strictly_increasing;
use crate::token::Token;
use vstd::prelude::*;
use vstd::relations::injective_on;
use vstd::set_lib::lemma_map_size;

verus! {

/// The two nodes agree up to depth `k`: they accept alike and, for `k`
/// above zero, have edges for the same symbols, which lead to nodes that
/// agree up to depth `k - 1`.
pub open spec fn equiv(d: DfaView, k: nat, p: u64, q: u64) -> bool
    decreases k,
{
    if k == 0 {
        d.nodes[p].accepting == d.nodes[q].accepting
    } else {
        &&& equiv(d, (k - 1) as nat, p, q)
        &&& forall|s: Token|
            match (#[trigger] d.step(p, s), d.step(q, s)) {
                (None, None) => true,
                (Some(a), Some(b)) => equiv(d, (k - 1) as nat, a, b),
                _ => false,
            }
    }
}

/// The two nodes agree up to every depth: no sequence of symbols tells
/// them apart, neither by acceptance nor by a missing edge.
pub open spec fn bisimilar(d: DfaView, p: u64, q: u64) -> bool {
    forall|k: nat| equiv(d, k, p, q)
}

/// No two different nodes of the graph are bisimilar.
pub open spec fn minimal(d: DfaView) -> bool {
    forall|p: u64, q: u64|
        d.nodes.contains_key(p) && d.nodes.contains_key(q) && #[trigger] bisimilar(d, p, q) ==> p
            == q
}

/// The edges of `p` with each target replaced by its group.
pub open spec fn signature(d: DfaView, part: Map<u64, u64>, p: u64) -> Seq<(Token, u64)> {
    Seq::new(
        d.nodes[p].edges.len(),
        |j: int| (d.nodes[p].edges[j].0, part[d.nodes[p].edges[j].1]),
    )
}

/// The group reached from `p` over its edge labelled `s`, if it has one.
pub open spec fn group_step(d: DfaView, part: Map<u64, u64>, p: u64, s: Token) -> Option<u64> {
    match d.step(p, s) {
        Some(t) => Some(part[t]),
        None => None,
    }
}

/// The two nodes have edges for the same symbols, into the same groups.
pub open spec fn same_signature(d: DfaView, part: Map<u64, u64>, p: u64, q: u64) -> bool {
    forall|s: Token| #[trigger] group_step(d, part, p, s) == group_step(d, part, q, s)
}

/// The order key of a signature entry: entries compare by symbol first,
/// then by group.
pub open spec fn pair_key(e: (Token, u64)) -> int {
    e.0.key() * 0x1_0000_0000_0000_0000 + e.1
}

/// The entries stand in strictly increasing order.
pub open spec fn sorted_pairs(v: Seq<(Token, u64)>) -> bool {
    forall|i: int, j: int| 0 <= i < j < v.len() ==> pair_key(v[i]) < pair_key(v[j])
}

/// Different entries have different order keys.
pub proof fn lemma_pair_key_injective(a: (Token, u64), b: (Token, u64))
    requires
        pair_key(a) == pair_key(b),
    ensures
        a == b,
{
    assert(a.0.key() == b.0.key());
    crate::token::lemma_key_injective(a.0, b.0);
}

/// A strictly sorted list of entries is determined by the set of its
/// entries.
pub proof fn lemma_sorted_pairs_unique(a: Seq<(Token, u64)>, b: Seq<(Token, u64)>)
    requires
        sorted_pairs(a),
        sorted_pairs(b),
        a.to_set() == b.to_set(),
    ensures
        a == b,
    decreases a.len(),
{
    if a.len() == 0 {
        if b.len() > 0 {
            assert(b.to_set().contains(b[0]));
            assert(a.to_set().contains(b[0]));
        }
        assert(a =~= b);
    } else {
        assert(a.to_set().contains(a.last()));
        assert(b.to_set().contains(a.last()));
        assert(b.len() > 0);
        assert(b.to_set().contains(b.last()));
        assert(a.to_set().contains(b.last()));
        let ja = choose|j: int| 0 <= j < a.len() && a[j] == b.last();
        let jb = choose|j: int| 0 <= j < b.len() && b[j] == a.last();
        assert(pair_key(a[ja]) <= pair_key(a.last()));
        assert(pair_key(b[jb]) <= pair_key(b.last()));
        lemma_pair_key_injective(a.last(), b.last());
        let a1 = a.drop_last();
        let b1 = b.drop_last();
        assert forall|x: (Token, u64)| a1.to_set().contains(x) <==> b1.to_set().contains(x) by {
            if a1.to_set().contains(x) {
                let i = choose|i: int| 0 <= i < a1.len() && a1[i] == x;
                assert(a[i] == x);
                assert(pair_key(x) < pair_key(a.last()));
                assert(a.to_set().contains(x));
                assert(b.to_set().contains(x));
                let k = choose|k: int| 0 <= k < b.len() && b[k] == x;
                assert(k < b.len() - 1);
                assert(b1[k] == x);
            }
            if b1.to_set().contains(x) {
                let i = choose|i: int| 0 <= i < b1.len() && b1[i] == x;
                assert(b[i] == x);
                assert(pair_key(x) < pair_key(b.last()));
                assert(b.to_set().contains(x));
                assert(a.to_set().contains(x));
                let k = choose|k: int| 0 <= k < a.len() && a[k] == x;
                assert(k < a.len() - 1);
                assert(a1[k] == x);
            }
        }
        assert(a1.to_set() =~= b1.to_set());
        lemma_sorted_pairs_unique(a1, b1);
        assert(a =~= a1.push(a.last()));
        assert(b =~= b1.push(b.last()));
    }
}

/// In a well formed graph the signature of a node holds the entry
/// `(s, g)` exactly if the node's edge labelled `s` leads into group `g`.
pub proof fn lemma_signature_entry(d: DfaView, part: Map<u64, u64>, p: u64, s: Token, g: u64)
    requires
        d.wf(),
        d.nodes.contains_key(p),
    ensures
        signature(d, part, p).contains((s, g)) <==> group_step(d, part, p, s) == Some(g),
{
    let edges = d.nodes[p].edges;
    let sig = signature(d, part, p);
    lemma_find_edge(edges, s);
    if sig.contains((s, g)) {
        let j = choose|j: int| 0 <= j < sig.len() && sig[j] == (s, g);
        assert(edges[j].0 == s);
        match find_edge(edges, s) {
            Some(t) => {
                let j2 = choose|j2: int| 0 <= j2 < edges.len() && edges[j2] == (s, t);
                if j2 < j {
                    assert(edges[j2].0 != edges[j].0);
                } else if j < j2 {
                    assert(edges[j].0 != edges[j2].0);
                }
            },
            None => {
                assert(edges[j].0 != s);
            },
        }
    }
    if group_step(d, part, p, s) == Some(g) {
        let t = d.step(p, s).unwrap();
        let j = choose|j: int| 0 <= j < edges.len() && edges[j] == (s, t);
        assert(sig[j] == (s, g));
    }
}

/// Two strictly sorted lists that hold the signature entries of two nodes
/// are equal exactly if the nodes have the same signature.
pub proof fn lemma_sorted_signatures(
    d: DfaView,
    part: Map<u64, u64>,
    p: u64,
    q: u64,
    sp: Seq<(Token, u64)>,
    sq: Seq<(Token, u64)>,
)
    requires
        d.wf(),
        d.nodes.contains_key(p),
        d.nodes.contains_key(q),
        sorted_pairs(sp),
        sorted_pairs(sq),
        sp.to_set() == signature(d, part, p).to_set(),
        sq.to_set() == signature(d, part, q).to_set(),
    ensures
        sp == sq <==> same_signature(d, part, p, q),
{
    if sp == sq {
        assert forall|s: Token| #[trigger]
            group_step(d, part, p, s) == group_step(d, part, q, s) by {
            match group_step(d, part, p, s) {
                Some(g) => {
                    lemma_signature_entry(d, part, p, s, g);
                    lemma_signature_entry(d, part, q, s, g);
                    assert(signature(d, part, p).to_set().contains((s, g)));
                    assert(signature(d, part, q).to_set().contains((s, g)));
                },
                None => {
                    match group_step(d, part, q, s) {
                        Some(g) => {
                            lemma_signature_entry(d, part, p, s, g);
                            lemma_signature_entry(d, part, q, s, g);
                            assert(signature(d, part, q).to_set().contains((s, g)));
                            assert(signature(d, part, p).to_set().contains((s, g)));
                        },
                        None => {},
                    }
                },
            }
        }
    }
    if same_signature(d, part, p, q) {
        assert forall|e: (Token, u64)| sp.to_set().contains(e) <==> sq.to_set().contains(e) by {
            lemma_signature_entry(d, part, p, e.0, e.1);
            lemma_signature_entry(d, part, q, e.0, e.1);
            assert(group_step(d, part, p, e.0) == group_step(d, part, q, e.0));
            assert(signature(d, part, p).to_set().contains(e) <==> signature(d, part, p).contains(
                e,
            ));
            assert(signature(d, part, q).to_set().contains(e) <==> signature(d, part, q).contains(
                e,
            ));
        }
        assert(sp.to_set() =~= sq.to_set());
        lemma_sorted_pairs_unique(sp, sq);
    }
}

/// Bisimilar nodes have edges for the same symbols, and these lead to
/// bisimilar nodes.
pub proof fn lemma_bisimilar_step(d: DfaView, p: u64, q: u64, s: Token)
    requires
        bisimilar(d, p, q),
    ensures
        match (d.step(p, s), d.step(q, s)) {
            (None, None) => true,
            (Some(a), Some(b)) => bisimilar(d, a, b),
            _ => false,
        },
{
    assert(equiv(d, 1, p, q));
    match (d.step(p, s), d.step(q, s)) {
        (Some(a), Some(b)) => {
            assert forall|k: nat| equiv(d, k, a, b) by {
                assert(equiv(d, k + 1, p, q));
            }
        },
        _ => {},
    }
}

/// The groups never hold two nodes that accept differently, and never
/// part two bisimilar nodes.
pub open spec fn refines(d: DfaView, part: Map<u64, u64>) -> bool {
    &&& part.dom() == d.nodes.dom()
    &&& forall|p: u64, q: u64|
        #![trigger part[p], part[q]]
        d.nodes.contains_key(p) && d.nodes.contains_key(q) && part[p] == part[q]
            ==> d.nodes[p].accepting == d.nodes[q].accepting
    &&& forall|p: u64, q: u64|
        d.nodes.contains_key(p) && d.nodes.contains_key(q) && #[trigger] bisimilar(d, p, q)
            ==> part[p] == part[q]
}

/// Nodes of one group have the same signature.
pub open spec fn stable(d: DfaView, part: Map<u64, u64>) -> bool {
    forall|p: u64, q: u64|
        #![trigger part[p], part[q]]
        d.nodes.contains_key(p) && d.nodes.contains_key(q) && part[p] == part[q]
            ==> same_signature(d, part, p, q)
}

/// While bisimilar nodes share a group, bisimilar nodes have the same
/// signature.
pub proof fn lemma_bisimilar_signature(d: DfaView, part: Map<u64, u64>, p: u64, q: u64)
    requires
        d.wf(),
        refines(d, part),
        d.nodes.contains_key(p),
        d.nodes.contains_key(q),
        bisimilar(d, p, q),
    ensures
        same_signature(d, part, p, q),
{
    assert forall|s: Token| #[trigger]
        group_step(d, part, p, s) == group_step(d, part, q, s) by {
        lemma_bisimilar_step(d, p, q, s);
        match (d.step(p, s), d.step(q, s)) {
            (Some(a), Some(b)) => {
                lemma_step_in_graph(d, p, s);
                lemma_step_in_graph(d, q, s);
            },
            _ => {},
        }
    }
}

/// In a stable grouping that keeps accepting and other nodes apart, the
/// nodes of one group agree up to every depth.
pub proof fn lemma_stable_equiv(d: DfaView, part: Map<u64, u64>, k: nat, p: u64, q: u64)
    requires
        d.wf(),
        refines(d, part),
        stable(d, part),
        d.nodes.contains_key(p),
        d.nodes.contains_key(q),
        part[p] == part[q],
    ensures
        equiv(d, k, p, q),
    decreases k,
{
    if k > 0 {
        lemma_stable_equiv(d, part, (k - 1) as nat, p, q);
        assert(same_signature(d, part, p, q));
        assert forall|s: Token|
            match (#[trigger] d.step(p, s), d.step(q, s)) {
                (None, None) => true,
                (Some(a), Some(b)) => equiv(d, (k - 1) as nat, a, b),
                _ => false,
            } by {
            assert(group_step(d, part, p, s) == group_step(d, part, q, s));
            match (d.step(p, s), d.step(q, s)) {
                (Some(a), Some(b)) => {
                    lemma_step_in_graph(d, p, s);
                    lemma_step_in_graph(d, q, s);
                    lemma_stable_equiv(d, part, (k - 1) as nat, a, b);
                },
                _ => {},
            }
        }
    }
}

/// In a stable grouping that parts no bisimilar nodes, two nodes share a
/// group exactly if they are bisimilar.
pub proof fn lemma_stable_bisimilar(d: DfaView, part: Map<u64, u64>, p: u64, q: u64)
    requires
        d.wf(),
        refines(d, part),
        stable(d, part),
        d.nodes.contains_key(p),
        d.nodes.contains_key(q),
    ensures
        part[p] == part[q] <==> bisimilar(d, p, q),
{
    if part[p] == part[q] {
        assert forall|k: nat| equiv(d, k, p, q) by {
            lemma_stable_equiv(d, part, k, p, q);
        }
    }
}

/// `groups` lists, for each group, its nodes in increasing order, and
/// `part` names the group of each node.
pub open spec fn partitions(d: DfaView, part: Map<u64, u64>, groups: Seq<Seq<u64>>) -> bool {
    &&& part.dom() == d.nodes.dom()
    &&& forall|p: u64|
        d.nodes.contains_key(p) ==> (#[trigger] part[p]) < groups.len() && groups[part[p] as int].contains(
            p,
        )
    &&& forall|i: int, k: int|
        0 <= i < groups.len() && 0 <= k < groups[i].len() ==> d.nodes.contains_key(
            #[trigger] groups[i][k],
        ) && part[groups[i][k]] == i
    &&& forall|i: int| 0 <= i < groups.len() ==> strictly_increasing(#[trigger] groups[i])
}

/// The graph with one node for each group that is not empty: the node
/// has the group's index as its id and the group as its point, accepts as
/// the group's first node does, and has that node's edges with each
/// target replaced by its group.
pub open spec fn quotient(d: DfaView, part: Map<u64, u64>, groups: Seq<Seq<u64>>) -> DfaView {
    DfaView {
        start: part[d.start],
        nodes: Map::new(
            |i: u64| i < groups.len() && groups[i as int].len() > 0,
            |i: u64|
                DfaNodeView {
                    accepting: d.nodes[groups[i as int][0]].accepting,
                    edges: signature(d, part, groups[i as int][0]),
                },
        ),
        points: Map::new(
            |i: u64| i < groups.len() && groups[i as int].len() > 0,
            |i: u64| groups[i as int],
        ),
    }
}

/// The node `i` of `m` has the edges of the first node of its point, each
/// leading to the node of `m` whose point holds the edge's target.
pub open spec fn copies_edges(d: DfaView, m: DfaView, i: u64) -> bool {
    let rep = m.points[i][0];
    &&& m.nodes[i].edges.len() == d.nodes[rep].edges.len()
    &&& forall|j: int|
        0 <= j < m.nodes[i].edges.len() ==> {
            let e = #[trigger] m.nodes[i].edges[j];
            &&& e.0 == d.nodes[rep].edges[j].0
            &&& m.points[e.1].contains(d.nodes[rep].edges[j].1)
        }
}

/// `m` is `d` with bisimilar nodes merged: the points of `m` are the
/// classes of bisimilar nodes of `d`, each node of `m` accepts as the
/// nodes of its point do and has the edges of the first of them, led to
/// the merged targets, and `m` starts at the node whose point holds the
/// start of `d`.
pub open spec fn minimized(d: DfaView, m: DfaView) -> bool {
    &&& m.wf()
    &&& forall|i: u64|
        m.nodes.contains_key(i) ==> (#[trigger] m.points[i]).len() > 0 && strictly_increasing(
            m.points[i],
        )
    &&& forall|i: u64, k: int|
        m.nodes.contains_key(i) && 0 <= k < m.points[i].len() ==> d.nodes.contains_key(
            #[trigger] m.points[i][k],
        )
    &&& forall|p: u64|
        #[trigger] d.nodes.contains_key(p) ==> exists|i: u64|
            m.nodes.contains_key(i) && (#[trigger] m.points[i]).contains(p)
    &&& forall|i: u64, j: u64, p: u64|
        m.nodes.contains_key(i) && m.nodes.contains_key(j) && #[trigger] m.points[i].contains(p)
            && #[trigger] m.points[j].contains(p) ==> i == j
    &&& m.points[m.start].contains(d.start)
    &&& forall|i: u64, p: u64|
        m.nodes.contains_key(i) && (#[trigger] m.points[i]).contains(p) ==> m.nodes[i].accepting
            == (#[trigger] d.nodes[p]).accepting
    &&& forall|i: u64| m.nodes.contains_key(i) ==> #[trigger] copies_edges(d, m, i)
    &&& forall|i: u64, p: u64, q: u64|
        m.nodes.contains_key(i) && (#[trigger] m.points[i]).contains(p) && d.nodes.contains_key(q)
            ==> (m.points[i].contains(q) <==> #[trigger] bisimilar(d, p, q))
}

/// The signature of a node of a well formed graph has an entry for `s`
/// exactly if the node has an edge for `s`, and then the entry names the
/// group of the edge's target.
pub proof fn lemma_signature_step(d: DfaView, part: Map<u64, u64>, p: u64, s: Token)
    requires
        d.wf(),
        d.nodes.contains_key(p),
    ensures
        find_edge(signature(d, part, p), s) == group_step(d, part, p, s),
{
    let sig = signature(d, part, p);
    let edges = d.nodes[p].edges;
    lemma_find_edge(sig, s);
    lemma_find_edge(edges, s);
    match find_edge(sig, s) {
        Some(g) => {
            lemma_signature_entry(d, part, p, s, g);
        },
        None => {
            match find_edge(edges, s) {
                Some(t) => {
                    let j = choose|j: int| 0 <= j < edges.len() && edges[j] == (s, t);
                    assert(sig[j].0 == s);
                },
                None => {},
            }
        },
    }
}

/// What the quotient of a well formed graph by a stable grouping is and
/// does: it is well formed, the node of a group accepts as the nodes of
/// the group do, and it steps as they do.
pub proof fn lemma_quotient_steps(d: DfaView, part: Map<u64, u64>, groups: Seq<Seq<u64>>)
    requires
        d.wf(),
        partitions(d, part, groups),
        refines(d, part),
        stable(d, part),
    ensures
        quotient(d, part, groups).wf(),
        forall|p: u64|
            d.nodes.contains_key(p) ==> quotient(d, part, groups).nodes.contains_key(
                #[trigger] part[p],
            ) && quotient(d, part, groups).nodes[part[p]].accepting == d.nodes[p].accepting,
        forall|p: u64, s: Token|
            d.nodes.contains_key(p) ==> #[trigger] quotient(d, part, groups).step(part[p], s)
                == group_step(d, part, p, s),
{
    let m = quotient(d, part, groups);
    assert forall|p: u64| d.nodes.contains_key(p) implies m.nodes.contains_key(#[trigger] part[p])
        && m.nodes[part[p]].accepting == d.nodes[p].accepting by {
        let i = part[p];
        assert(groups[i as int].contains(p));
        let rep = groups[i as int][0];
        assert(d.nodes.contains_key(rep) && part[rep] == i);
    }
    assert forall|p: u64, s: Token| d.nodes.contains_key(p) implies #[trigger] m.step(part[p], s)
        == group_step(d, part, p, s) by {
        let i = part[p];
        assert(groups[i as int].contains(p));
        let rep = groups[i as int][0];
        assert(d.nodes.contains_key(rep) && part[rep] == i);
        lemma_signature_step(d, part, rep, s);
        assert(same_signature(d, part, rep, p));
        assert(group_step(d, part, rep, s) == group_step(d, part, p, s));
    }
    // the quotient is well formed
    assert(m.nodes.dom().finite()) by {
        let f = |p: u64| part[p];
        let image = d.nodes.dom().map(f);
        d.nodes.dom().lemma_map_finite(f);
        assert forall|i: u64| m.nodes.dom().contains(i) implies image.contains(i) by {
            let rep = groups[i as int][0];
            assert(d.nodes.contains_key(rep) && part[rep] == i);
            assert(d.nodes.dom().contains(rep) && f(rep) == i);
        }
        vstd::set_lib::lemma_len_subset(m.nodes.dom(), image);
    }
    assert(m.nodes.contains_key(m.start)) by {
        assert(d.nodes.contains_key(d.start));
        assert(m.nodes.contains_key(part[d.start]));
    }
    assert(m.points.dom() =~= m.nodes.dom());
    assert forall|i: u64, j: int| m.nodes.contains_key(i) && 0 <= j < m.nodes[i].edges.len() implies {
        let e = #[trigger] m.nodes[i].edges[j];
        e.0 != Token::Epsilon && m.nodes.contains_key(e.1)
    } by {
        let rep = groups[i as int][0];
        assert(d.nodes.contains_key(rep) && part[rep] == i);
        let e = d.nodes[rep].edges[j];
        assert(e.0 != Token::Epsilon && d.nodes.contains_key(e.1));
        assert(m.nodes.contains_key(part[e.1]));
    }
    assert forall|i: u64, a: int, b: int|
        #![trigger m.nodes[i].edges[a], m.nodes[i].edges[b]]
        m.nodes.contains_key(i) && 0 <= a < b < m.nodes[i].edges.len() implies m.nodes[i].edges[a].0
        != m.nodes[i].edges[b].0 by {
        let rep = groups[i as int][0];
        assert(d.nodes.contains_key(rep) && part[rep] == i);
        assert(d.nodes[rep].edges[a].0 != d.nodes[rep].edges[b].0);
    }
}

/// The quotient runs as the graph does: reading `input` from the node of
/// a group ends in the node of the group in which reading `input` from a
/// node of that group ends.
pub proof fn lemma_quotient_run(
    d: DfaView,
    part: Map<u64, u64>,
    groups: Seq<Seq<u64>>,
    p: u64,
    input: Seq<Token>,
)
    requires
        d.wf(),
        partitions(d, part, groups),
        refines(d, part),
        stable(d, part),
        d.nodes.contains_key(p),
    ensures
        match d.run(p, input) {
            Some(t) => d.nodes.contains_key(t) && quotient(d, part, groups).run(part[p], input)
                == Some(part[t]),
            None => quotient(d, part, groups).run(part[p], input) is None,
        },
    decreases input.len(),
{
    let m = quotient(d, part, groups);
    lemma_quotient_steps(d, part, groups);
    if input.len() > 0 {
        let s = input[0];
        assert(m.step(part[p], s) == group_step(d, part, p, s));
        match d.step(p, s) {
            Some(t) => {
                lemma_step_in_graph(d, p, s);
                lemma_quotient_run(d, part, groups, t, input.drop_first());
            },
            None => {},
        }
    }
}

/// The quotient accepts exactly the inputs that the graph accepts.
pub proof fn lemma_quotient_accepts(
    d: DfaView,
    part: Map<u64, u64>,
    groups: Seq<Seq<u64>>,
    input: Seq<Token>,
)
    requires
        d.wf(),
        partitions(d, part, groups),
        refines(d, part),
        stable(d, part),
    ensures
        quotient(d, part, groups).accepts(input) == d.accepts(input),
{
    lemma_quotient_steps(d, part, groups);
    lemma_quotient_run(d, part, groups, d.start, input);
    match d.run(d.start, input) {
        Some(t) => {
            assert(quotient(d, part, groups).nodes.contains_key(part[t]));
        },
        None => {},
    }
}

/// Nodes of the quotient that agree up to depth `k` come from nodes of
/// the graph that agree up to depth `k`.
proof fn lemma_quotient_equiv(
    d: DfaView,
    part: Map<u64, u64>,
    groups: Seq<Seq<u64>>,
    k: nat,
    p: u64,
    q: u64,
)
    requires
        d.wf(),
        partitions(d, part, groups),
        refines(d, part),
        stable(d, part),
        d.nodes.contains_key(p),
        d.nodes.contains_key(q),
        equiv(quotient(d, part, groups), k, part[p], part[q]),
    ensures
        equiv(d, k, p, q),
    decreases k,
{
    let m = quotient(d, part, groups);
    lemma_quotient_steps(d, part, groups);
    assert(m.nodes.contains_key(part[p]));
    assert(m.nodes.contains_key(part[q]));
    if k > 0 {
        lemma_quotient_equiv(d, part, groups, (k - 1) as nat, p, q);
        assert forall|s: Token|
            match (#[trigger] d.step(p, s), d.step(q, s)) {
                (None, None) => true,
                (Some(a), Some(b)) => equiv(d, (k - 1) as nat, a, b),
                _ => false,
            } by {
            assert(m.step(part[p], s) == group_step(d, part, p, s));
            assert(m.step(part[q], s) == group_step(d, part, q, s));
            match (d.step(p, s), d.step(q, s)) {
                (Some(a), Some(b)) => {
                    lemma_step_in_graph(d, p, s);
                    lemma_step_in_graph(d, q, s);
                    lemma_quotient_equiv(d, part, groups, (k - 1) as nat, a, b);
                },
                _ => {},
            }
        }
    }
}

/// The quotient of a well formed graph by the grouping into classes of
/// bisimilar nodes is the graph minimized, and is itself minimal.
pub proof fn lemma_quotient_minimized(d: DfaView, part: Map<u64, u64>, groups: Seq<Seq<u64>>)
    requires
        d.wf(),
        partitions(d, part, groups),
        refines(d, part),
        stable(d, part),
    ensures
        minimized(d, quotient(d, part, groups)),
        minimal(quotient(d, part, groups)),
        minimal(d) ==> quotient(d, part, groups).nodes.dom().len() == d.nodes.dom().len(),
{
    let m = quotient(d, part, groups);
    lemma_quotient_steps(d, part, groups);
    assert forall|i: u64| m.nodes.contains_key(i) implies (#[trigger] m.points[i]).len() > 0
        && strictly_increasing(m.points[i]) by {}
    assert forall|i: u64, k: int|
        m.nodes.contains_key(i) && 0 <= k < m.points[i].len() implies d.nodes.contains_key(
        #[trigger] m.points[i][k],
    ) by {
        assert(d.nodes.contains_key(groups[i as int][k]));
    }
    assert forall|p: u64| #[trigger] d.nodes.contains_key(p) implies exists|i: u64|
        m.nodes.contains_key(i) && (#[trigger] m.points[i]).contains(p) by {
        assert(m.nodes.contains_key(part[p]) && m.points[part[p]].contains(p));
    }
    assert forall|i: u64, p: u64| m.nodes.contains_key(i) && m.points[i].contains(p) implies part[p]
        == i && d.nodes.contains_key(p) by {
        let k = choose|k: int| 0 <= k < groups[i as int].len() && groups[i as int][k] == p;
        assert(part[groups[i as int][k]] == i);
    }
    assert(m.points[m.start].contains(d.start)) by {
        assert(d.nodes.contains_key(d.start));
        assert(groups[part[d.start] as int].contains(d.start));
    }
    assert forall|i: u64| m.nodes.contains_key(i) implies #[trigger] copies_edges(d, m, i) by {
        let rep = m.points[i][0];
        assert(rep == groups[i as int][0]);
        assert(d.nodes.contains_key(rep));
        assert forall|j: int| 0 <= j < m.nodes[i].edges.len() implies {
            let e = #[trigger] m.nodes[i].edges[j];
            &&& e.0 == d.nodes[rep].edges[j].0
            &&& m.points[e.1].contains(d.nodes[rep].edges[j].1)
        } by {
            let t = d.nodes[rep].edges[j].1;
            assert(d.nodes.contains_key(t));
            assert(groups[part[t] as int].contains(t));
        }
    }
    assert forall|i: u64, p: u64, q: u64|
        m.nodes.contains_key(i) && (#[trigger] m.points[i]).contains(p) && d.nodes.contains_key(
            q,
        ) implies (m.points[i].contains(q) <==> #[trigger] bisimilar(d, p, q)) by {
        lemma_stable_bisimilar(d, part, p, q);
        if part[q] == i {
            assert(groups[i as int].contains(q));
        }
    }
    // the quotient is minimal
    assert forall|i: u64, j: u64|
        m.nodes.contains_key(i) && m.nodes.contains_key(j) && #[trigger] bisimilar(
            m,
            i,
            j,
        ) implies i == j by {
        let p = groups[i as int][0];
        let q = groups[j as int][0];
        assert(d.nodes.contains_key(p) && part[p] == i);
        assert(d.nodes.contains_key(q) && part[q] == j);
        assert forall|k: nat| equiv(d, k, p, q) by {
            assert(equiv(m, k, i, j));
            lemma_quotient_equiv(d, part, groups, k, p, q);
        }
        assert(bisimilar(d, p, q));
    }
    // a minimal graph keeps its size
    if minimal(d) {
        let f = |p: u64| part[p];
        assert(injective_on(f, d.nodes.dom())) by {
            assert forall|p: u64, q: u64|
                d.nodes.dom().contains(p) && d.nodes.dom().contains(q) && #[trigger] f(p)
                    == #[trigger] f(q) implies p == q by {
                lemma_stable_bisimilar(d, part, p, q);
            }
        }
        assert forall|i: u64| m.nodes.dom().contains(i) <==> d.nodes.dom().map(f).contains(i) by {
            if m.nodes.dom().contains(i) {
                let rep = groups[i as int][0];
                assert(d.nodes.dom().contains(rep) && f(rep) == i);
            }
            if d.nodes.dom().map(f).contains(i) {
                let p = choose|p: u64| d.nodes.dom().contains(p) && f(p) == i;
                assert(m.nodes.contains_key(part[p]));
            }
        }
        assert(d.nodes.dom().map(f) =~= m.nodes.dom());
        lemma_map_size(d.nodes.dom(), m.nodes.dom(), f);
    }
}

/// All nodes of the list have the same signature.
pub open spec fn uniform(d: DfaView, part: Map<u64, u64>, members: Seq<u64>) -> bool {
    forall|x: int, y: int|
        0 <= x < members.len() && 0 <= y < members.len() ==> same_signature(
            d,
            part,
            #[trigger] members[x],
            #[trigger] members[y],
        )
}

/// Some member has class `c`.
pub open spec fn class_used(class_of: Seq<usize>, c: int) -> bool {
    exists|x: int| 0 <= x < class_of.len() && #[trigger] class_of[x] == c
}

/// A member before position `x` has class `c`.
pub open spec fn met_class(class_of: Seq<usize>, x: int, c: int) -> bool {
    exists|y: int| 0 <= y < x && #[trigger] class_of[y] == c
}

/// `class_of` numbers the signatures of `members` in the order in which
/// they are first met: two members have the same number exactly if they
/// have the same signature, the numbers in use are those below `count`,
/// and a member has a number only if every smaller number is had by a
/// member before it.
pub open spec fn classified(
    d: DfaView,
    part: Map<u64, u64>,
    members: Seq<u64>,
    class_of: Seq<usize>,
    count: int,
) -> bool {
    &&& class_of.len() == members.len()
    &&& forall|x: int| 0 <= x < members.len() ==> 0 <= #[trigger] class_of[x] < count
    &&& forall|c: int| 0 <= c < count ==> #[trigger] class_used(class_of, c)
    &&& members.len() > 0 ==> class_of[0] == 0
    &&& forall|x: int, c: int|
        0 <= x < members.len() && 0 <= c < class_of[x] ==> #[trigger] met_class(class_of, x, c)
    &&& forall|x: int, y: int|
        0 <= x < members.len() && 0 <= y < members.len() ==> (#[trigger] class_of[x]
            == #[trigger] class_of[y] <==> same_signature(d, part, members[x], members[y]))
}

/// `list` holds, in increasing order, the members that have class `c`.
pub open spec fn holds_class(list: Seq<u64>, members: Seq<u64>, class_of: Seq<usize>, c: int) -> bool {
    &&& strictly_increasing(list)
    &&& forall|y: u64|
        #[trigger] list.contains(y) <==> exists|x: int|
            0 <= x < members.len() && #[trigger] members[x] == y && class_of[x] == c
}

/// The grouping after group `i` has been split by signature: the members
/// of class 0 stay in group `i`, and the members of each further class
/// `c` form the new group `base + c - 1`, where `base` is the number of
/// groups before the split.
pub open spec fn split(
    part: Map<u64, u64>,
    groups: Seq<Seq<u64>>,
    part2: Map<u64, u64>,
    groups2: Seq<Seq<u64>>,
    i: int,
    class_of: Seq<usize>,
    count: int,
) -> bool {
    let members = groups[i];
    let base = groups.len() as int;
    &&& part2.dom() == part.dom()
    &&& forall|p: u64| !members.contains(p) ==> #[trigger] part2[p] == part[p]
    &&& forall|x: int|
        0 <= x < members.len() ==> #[trigger] part2[members[x]] == if class_of[x] == 0 {
            i
        } else {
            base + class_of[x] - 1
        }
    &&& groups2.len() == base + count - 1
    &&& forall|j: int| 0 <= j < base && j != i ==> #[trigger] groups2[j] == groups[j]
    &&& holds_class(groups2[i], members, class_of, 0)
    &&& forall|j: int|
        base <= j < groups2.len() ==> holds_class(
            #[trigger] groups2[j],
            members,
            class_of,
            j - base + 1,
        )
}

/// Splitting a group by signature keeps the grouping in order: the lists
/// still match the group of each node, nodes of one group still accept
/// alike, bisimilar nodes still share a group, and no group that held a
/// node is left empty.
pub proof fn lemma_split(
    d: DfaView,
    part: Map<u64, u64>,
    groups: Seq<Seq<u64>>,
    part2: Map<u64, u64>,
    groups2: Seq<Seq<u64>>,
    i: int,
    class_of: Seq<usize>,
    count: int,
)
    requires
        d.wf(),
        partitions(d, part, groups),
        refines(d, part),
        0 <= i < groups.len(),
        groups.len() < u64::MAX,
        count >= 1,
        classified(d, part, groups[i], class_of, count),
        split(part, groups, part2, groups2, i, class_of, count),
    ensures
        partitions(d, part2, groups2),
        refines(d, part2),
        forall|j: int| groups.len() <= j < groups2.len() ==> (#[trigger] groups2[j]).len() > 0,
        forall|j: int|
            0 <= j < groups.len() && groups[j].len() > 0 ==> (#[trigger] groups2[j]).len() > 0,
{
    let members = groups[i];
    let base = groups.len() as int;
    assert forall|p: u64| d.nodes.contains_key(p) && part[p] == i implies members.contains(p) by {
        assert(groups[part[p] as int].contains(p));
    }
    assert forall|x: int| 0 <= x < members.len() implies d.nodes.contains_key(
        #[trigger] members[x],
    ) && part[members[x]] == i by {
        assert(d.nodes.contains_key(groups[i][x]));
    }
    // the lists match the groups
    assert forall|p: u64| d.nodes.contains_key(p) implies (#[trigger] part2[p]) < groups2.len()
        && groups2[part2[p] as int].contains(p) by {
        if members.contains(p) {
            let x = choose|x: int| 0 <= x < members.len() && members[x] == p;
            assert(part2[members[x]] == if class_of[x] == 0 {
                i
            } else {
                base + class_of[x] - 1
            });
            let c = class_of[x] as int;
            if c == 0 {
                assert(holds_class(groups2[i], members, class_of, 0));
            } else {
                assert(holds_class(groups2[base + c - 1], members, class_of, base + c - 1 - base + 1));
            }
        } else {
            assert(part2[p] == part[p]);
            assert(groups[part[p] as int].contains(p));
            assert(groups2[part[p] as int] == groups[part[p] as int]);
        }
    }
    assert forall|j: int, k: int|
        0 <= j < groups2.len() && 0 <= k < groups2[j].len() implies d.nodes.contains_key(
        #[trigger] groups2[j][k],
    ) && part2[groups2[j][k]] == j by {
        let p = groups2[j][k];
        assert(groups2[j].contains(p));
        if j < base && j != i {
            assert(groups2[j] == groups[j]);
            assert(d.nodes.contains_key(groups[j][k]) && part[groups[j][k]] == j);
            if members.contains(p) {
                let x = choose|x: int| 0 <= x < members.len() && members[x] == p;
                assert(part[members[x]] == i);
            }
        } else if j == i {
            assert(holds_class(groups2[i], members, class_of, 0));
            let x = choose|x: int|
                0 <= x < members.len() && #[trigger] members[x] == p && class_of[x] == 0;
            assert(part2[members[x]] == i);
        } else {
            let c = j - base + 1;
            assert(holds_class(groups2[base + c - 1], members, class_of, base + c - 1 - base + 1));
            let x = choose|x: int|
                0 <= x < members.len() && #[trigger] members[x] == p && class_of[x] == c;
            assert(part2[members[x]] == base + c - 1);
        }
    }
    assert forall|j: int| 0 <= j < groups2.len() implies strictly_increasing(
        #[trigger] groups2[j],
    ) by {
        if j < base && j != i {
            assert(groups2[j] == groups[j]);
        } else if j == i {
            assert(holds_class(groups2[i], members, class_of, 0));
        } else {
            let c = j - base + 1;
            assert(holds_class(groups2[base + c - 1], members, class_of, base + c - 1 - base + 1));
        }
    }
    // the new grouping is at least as fine as the old one
    assert forall|p: u64, q: u64|
        d.nodes.contains_key(p) && d.nodes.contains_key(q) && part2[p] == part2[q] implies part[p]
        == part[q] by {
        lemma_split_member(d, part, groups, part2, groups2, i, class_of, count, p);
        lemma_split_member(d, part, groups, part2, groups2, i, class_of, count, q);
    }
    assert forall|p: u64, q: u64|
        #![trigger part2[p], part2[q]]
        d.nodes.contains_key(p) && d.nodes.contains_key(q) && part2[p]
            == part2[q] implies d.nodes[p].accepting == d.nodes[q].accepting by {
        assert(part[p] == part[q]);
    }
    assert forall|p: u64, q: u64|
        d.nodes.contains_key(p) && d.nodes.contains_key(q) && #[trigger] bisimilar(
            d,
            p,
            q,
        ) implies part2[p] == part2[q] by {
        assert(part[p] == part[q]);
        lemma_split_member(d, part, groups, part2, groups2, i, class_of, count, p);
        lemma_split_member(d, part, groups, part2, groups2, i, class_of, count, q);
        if part[p] == i {
            let x = choose|x: int| 0 <= x < members.len() && members[x] == p;
            let y = choose|y: int| 0 <= y < members.len() && members[y] == q;
            lemma_bisimilar_signature(d, part, p, q);
            assert(class_of[x] == class_of[y]);
            assert(part2[members[x]] == part2[members[y]]);
        }
    }
    // no group becomes empty
    assert forall|j: int| base <= j < groups2.len() implies (#[trigger] groups2[j]).len() > 0 by {
        let c = j - base + 1;
        assert(holds_class(groups2[j], members, class_of, c));
        assert(class_used(class_of, c));
        let x = choose|x: int| 0 <= x < class_of.len() && #[trigger] class_of[x] == c;
        assert(groups2[j].contains(members[x]));
    }
    assert forall|j: int| 0 <= j < base && groups[j].len() > 0 implies (#[trigger] groups2[j]).len()
        > 0 by {
        if j == i {
            assert(holds_class(groups2[i], members, class_of, 0));
            assert(class_of[0] == 0);
            assert(groups2[i].contains(members[0]));
        } else {
            assert(groups2[j] == groups[j]);
        }
    }
}

/// Where a node stands after a split: in its old group, or, if it was a
/// member of the group that was split and has a class other than 0, in
/// the new group of its class.
proof fn lemma_split_member(
    d: DfaView,
    part: Map<u64, u64>,
    groups: Seq<Seq<u64>>,
    part2: Map<u64, u64>,
    groups2: Seq<Seq<u64>>,
    i: int,
    class_of: Seq<usize>,
    count: int,
    p: u64,
)
    requires
        d.wf(),
        partitions(d, part, groups),
        0 <= i < groups.len(),
        groups.len() < u64::MAX,
        classified(d, part, groups[i], class_of, count),
        split(part, groups, part2, groups2, i, class_of, count),
        d.nodes.contains_key(p),
    ensures
        part[p] != i ==> part2[p] == part[p] && !groups[i].contains(p),
        part[p] == i ==> groups[i].contains(p) && (part2[p] == i || part2[p] >= groups.len()),
        part[p] < groups.len(),
{
    let members = groups[i];
    assert(groups[part[p] as int].contains(p));
    if members.contains(p) {
        let x = choose|x: int| 0 <= x < members.len() && members[x] == p;
        assert(part[groups[i][x]] == i);
        assert(part2[members[x]] == if class_of[x] == 0 {
            i
        } else {
            groups.len() + class_of[x] - 1
        });
    }
}

/// A node has the same signature as itself.
pub proof fn lemma_same_signature_reflexive(d: DfaView, part: Map<u64, u64>, p: u64)
    ensures
        same_signature(d, part, p, p),
{
}

/// Having the same signature does not depend on the order of the nodes.
pub proof fn lemma_same_signature_symmetric(d: DfaView, part: Map<u64, u64>, p: u64, q: u64)
    requires
        same_signature(d, part, p, q),
    ensures
        same_signature(d, part, q, p),
{
    assert forall|s: Token| #[trigger]
        group_step(d, part, q, s) == group_step(d, part, p, s) by {
        assert(group_step(d, part, p, s) == group_step(d, part, q, s));
    }
}

/// Two nodes that have the signature of a third have the same signature.
pub proof fn lemma_same_signature_transitive(
    d: DfaView,
    part: Map<u64, u64>,
    p: u64,
    q: u64,
    r: u64,
)
    requires
        same_signature(d, part, p, q),
        same_signature(d, part, q, r),
    ensures
        same_signature(d, part, p, r),
{
    assert forall|s: Token| #[trigger]
        group_step(d, part, p, s) == group_step(d, part, r, s) by {
        assert(group_step(d, part, p, s) == group_step(d, part, q, s));
        assert(group_step(d, part, q, s) == group_step(d, part, r, s));
    }
}

/// A grouping in which only the first two groups may be empty has at
/// most two groups more than the graph has nodes.
pub proof fn lemma_groups_bounded(d: DfaView, part: Map<u64, u64>, groups: Seq<Seq<u64>>)
    requires
        d.nodes.dom().finite(),
        partitions(d, part, groups),
        forall|j: int| 2 <= j < groups.len() ==> (#[trigger] groups[j]).len() > 0,
    ensures
        groups.len() <= d.nodes.dom().len() + 2,
{
    if groups.len() > 2 {
        let firsts = Seq::new((groups.len() - 2) as nat, |j: int| groups[j + 2][0]);
        assert forall|a: int, b: int|
            0 <= a < firsts.len() && 0 <= b < firsts.len() && a != b implies firsts[a]
            != firsts[b] by {
            assert(groups[a + 2].len() > 0);
            assert(groups[b + 2].len() > 0);
            assert(part[groups[a + 2][0]] == a + 2);
            assert(part[groups[b + 2][0]] == b + 2);
        }
        firsts.unique_seq_to_set();
        assert forall|p: u64| firsts.to_set().contains(p) implies d.nodes.dom().contains(p) by {
            let a = choose|a: int| 0 <= a < firsts.len() && firsts[a] == p;
            assert(groups[a + 2].len() > 0);
            assert(d.nodes.contains_key(groups[a + 2][0]));
        }
        vstd::set_lib::lemma_len_subset(firsts.to_set(), d.nodes.dom());
    }
}

/// A grouping in which every group is uniform is stable.
pub proof fn lemma_uniform_stable(d: DfaView, part: Map<u64, u64>, groups: Seq<Seq<u64>>)
    requires
        partitions(d, part, groups),
        forall|j: int| 0 <= j < groups.len() ==> uniform(d, part, #[trigger] groups[j]),
    ensures
        stable(d, part),
{
    assert forall|p: u64, q: u64|
        #![trigger part[p], part[q]]
        d.nodes.contains_key(p) && d.nodes.contains_key(q) && part[p]
            == part[q] implies same_signature(d, part, p, q) by {
        let j = part[p] as int;
        assert(groups[j].contains(p));
        assert(groups[j].contains(q));
        let x = choose|x: int| 0 <= x < groups[j].len() && groups[j][x] == p;
        let y = choose|y: int| 0 <= y < groups[j].len() && groups[j][y] == q;
        assert(uniform(d, part, groups[j]));
        assert(same_signature(d, part, groups[j][x], groups[j][y]));
    }
}

/// The grouping into accepting and other nodes never parts two bisimilar
/// nodes.
pub proof fn lemma_first_grouping(d: DfaView, part: Map<u64, u64>)
    requires
        part.dom() == d.nodes.dom(),
        forall|p: u64|
            d.nodes.contains_key(p) ==> #[trigger] part[p] == if d.nodes[p].accepting {
                0u64
            } else {
                1u64
            },
    ensures
        refines(d, part),
{
    assert forall|p: u64, q: u64|
        d.nodes.contains_key(p) && d.nodes.contains_key(q) && #[trigger] bisimilar(
            d,
            p,
            q,
        ) implies part[p] == part[q] by {
        assert(equiv(d, 0, p, q));
    }
}

/// A grouping of the nodes of a graph: the group of each node, and for
/// each group the list of its nodes.
pub struct Grouping {
    pub part: Map<u64, u64>,
    pub groups: Seq<Seq<u64>>,
}

/// The grouping from which the refinement starts: group 0 holds the
/// accepting nodes and group 1 the others.
pub open spec fn first_grouping(d: DfaView, s: Grouping) -> bool {
    &&& s.groups.len() == 2
    &&& partitions(d, s.part, s.groups)
    &&& forall|p: u64|
        d.nodes.contains_key(p) ==> #[trigger] s.part[p] == if d.nodes[p].accepting {
            0u64
        } else {
            1u64
        }
}

/// `s2` is `s` with group `i` split by the signatures of its members, as
/// `class_of` numbers them; a group whose members have one signature is
/// left as it is.
pub open spec fn split_by(
    d: DfaView,
    s: Grouping,
    i: int,
    s2: Grouping,
    class_of: Seq<usize>,
    count: int,
) -> bool {
    &&& 0 <= i < s.groups.len()
    &&& classified(d, s.part, s.groups[i], class_of, count)
    &&& if count <= 1 {
        s2 == s
    } else {
        split(s.part, s.groups, s2.part, s2.groups, i, class_of, count)
    }
}

/// `s2` is `s` with group `i` split by the signatures of its members.
pub open spec fn split_step(d: DfaView, s: Grouping, i: int, s2: Grouping) -> bool {
    exists|class_of: Seq<usize>, count: int| split_by(d, s, i, s2, class_of, count)
}

/// `steps` are the groupings of one pass from `s` to `s2`: each group
/// that `s` has is split in turn, always in the grouping that the splits
/// before it have left.
pub open spec fn pass_by(d: DfaView, s: Grouping, s2: Grouping, steps: Seq<Grouping>) -> bool {
    &&& steps.len() == s.groups.len() + 1
    &&& steps[0] == s
    &&& steps.last() == s2
    &&& forall|i: int|
        0 <= i < s.groups.len() ==> split_step(d, #[trigger] steps[i], i, steps[i + 1])
}

/// One pass over the groups of `s` leaves `s2`.
pub open spec fn pass(d: DfaView, s: Grouping, s2: Grouping) -> bool {
    exists|steps: Seq<Grouping>| pass_by(d, s, s2, steps)
}

/// `passes` are the groupings of a refinement from `first` to `last`,
/// pass by pass: every pass but the last adds a group, and the last adds
/// none.
pub open spec fn refined_by(
    d: DfaView,
    first: Grouping,
    last: Grouping,
    passes: Seq<Grouping>,
) -> bool {
    &&& passes.len() >= 2
    &&& passes[0] == first
    &&& passes.last() == last
    &&& forall|k: int| 0 <= k < passes.len() - 1 ==> pass(d, #[trigger] passes[k], passes[k + 1])
    &&& forall|k: int|
        0 <= k < passes.len() - 2 ==> (#[trigger] passes[k]).groups.len() < passes[k
            + 1].groups.len()
    &&& passes[passes.len() - 2].groups.len() == last.groups.len()
}

/// Passes from `first`, repeated until one adds no group, leave `last`.
pub open spec fn refined(d: DfaView, first: Grouping, last: Grouping) -> bool {
    exists|passes: Seq<Grouping>| refined_by(d, first, last, passes)
}

/// `m` is made of `d` by refining the grouping `first` to `last` and
/// taking one node for each group of `last` that is not empty.
pub open spec fn simplified_by(d: DfaView, m: DfaView, first: Grouping, last: Grouping) -> bool {
    &&& first_grouping(d, first)
    &&& refined(d, first, last)
    &&& m == quotient(d, last.part, last.groups)
}

/// `m` is what partition refinement makes of `d`: the nodes are grouped
/// into accepting and other nodes, the groups are split by signature,
/// pass by pass, until a pass splits none, and each group that is left
/// and not empty becomes the node whose id is the index of the group.
pub open spec fn simplified(d: DfaView, m: DfaView) -> bool {
    exists|first: Grouping, last: Grouping| simplified_by(d, m, first, last)
}

} // verus!
