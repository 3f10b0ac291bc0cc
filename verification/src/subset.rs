//! What it means for a deterministic automaton to be the subset
//! construction of a nondeterministic one.

use crate::dfa::{DfaNodeView, DfaView};
use crate::nfa::NfaView;
use crate::powerset::{lemma_subsets_len, subsets};
use crate::sorted::{lemma_increasing_unique, strictly_increasing};
use crate::token::Token;
use vstd::arithmetic::power2::pow2;
use vstd::prelude::*;
use vstd::relations::injective_on;
use vstd::set_lib::{lemma_len_subset, lemma_map_size};

verus! {

/// The node `point[i]` of `g` has, at position `j`, an edge labelled `s`.
pub open spec fn labelled_edge(g: NfaView, point: Seq<u64>, s: Token, i: int, j: int) -> bool {
    &&& 0 <= i < point.len()
    &&& g.nodes.contains_key(point[i])
    &&& 0 <= j < g.nodes[point[i]].len()
    &&& g.nodes[point[i]][j].0 == s
}

/// Some node of `point` has an edge labelled `s`.
pub open spec fn has_move(g: NfaView, point: Seq<u64>, s: Token) -> bool {
    exists|i: int, j: int| labelled_edge(g, point, s, i, j)
}

/// The ids reached from the nodes of `point` by one edge labelled `s`
/// followed by any number of `Epsilon` edges.
pub open spec fn moves(g: NfaView, point: Seq<u64>, s: Token) -> Set<u64> {
    Set::new(
        |x: u64|
            exists|i: int, j: int| #[trigger]
                labelled_edge(g, point, s, i, j) && g.closure(g.nodes[point[i]][j].1).contains(x),
    )
}

/// The position `(i2, j2)` comes before `(i, j)` when the edges of a point
/// are walked node by node.
pub open spec fn walked(i: int, j: int, i2: int, j2: int) -> bool {
    i2 < i || (i2 == i && j2 < j)
}

/// `has_move`, restricted to the edges walked before position `(i, j)`.
pub open spec fn has_move_before(g: NfaView, point: Seq<u64>, s: Token, i: int, j: int) -> bool {
    exists|i2: int, j2: int| #[trigger] labelled_edge(g, point, s, i2, j2) && walked(i, j, i2, j2)
}

/// `moves`, restricted to the edges walked before position `(i, j)`.
pub open spec fn moves_before(g: NfaView, point: Seq<u64>, s: Token, i: int, j: int) -> Set<u64> {
    Set::new(
        |x: u64|
            exists|i2: int, j2: int| #[trigger]
                labelled_edge(g, point, s, i2, j2) && walked(i, j, i2, j2) && g.closure(
                    g.nodes[point[i2]][j2].1,
                ).contains(x),
    )
}

/// When the edges of `point` are walked node by node, the symbol `s1` is
/// met before the symbol `s2` is.
pub open spec fn met_before(g: NfaView, point: Seq<u64>, s1: Token, s2: Token) -> bool {
    exists|i: int, j: int| #[trigger]
        labelled_edge(g, point, s1, i, j) && !has_move_before(g, point, s2, i, j)
}


/// Walking one more edge adds that edge, and nothing else, to what has
/// been walked.
pub proof fn lemma_walk_edge(g: NfaView, point: Seq<u64>, s: Token, i: int, j: int)
    requires
        0 <= i < point.len(),
        g.nodes.contains_key(point[i]),
        0 <= j < g.nodes[point[i]].len(),
    ensures
        has_move_before(g, point, s, i, j + 1) <==> has_move_before(g, point, s, i, j)
            || g.nodes[point[i]][j].0 == s,
        g.nodes[point[i]][j].0 == s ==> moves_before(g, point, s, i, j + 1) == moves_before(
            g,
            point,
            s,
            i,
            j,
        ).union(g.closure(g.nodes[point[i]][j].1)),
        g.nodes[point[i]][j].0 != s ==> moves_before(g, point, s, i, j + 1) == moves_before(
            g,
            point,
            s,
            i,
            j,
        ),
{
    let here = g.nodes[point[i]][j].0 == s;
    if has_move_before(g, point, s, i, j) {
        let (i2, j2) = choose|i2: int, j2: int| #[trigger]
            labelled_edge(g, point, s, i2, j2) && walked(i, j, i2, j2);
        assert(labelled_edge(g, point, s, i2, j2) && walked(i, j + 1, i2, j2));
    }
    if here {
        assert(labelled_edge(g, point, s, i, j) && walked(i, j + 1, i, j));
    }
    if has_move_before(g, point, s, i, j + 1) {
        let (i2, j2) = choose|i2: int, j2: int| #[trigger]
            labelled_edge(g, point, s, i2, j2) && walked(i, j + 1, i2, j2);
        if !(i2 == i && j2 == j) {
            assert(labelled_edge(g, point, s, i2, j2) && walked(i, j, i2, j2));
        }
    }
    let before = moves_before(g, point, s, i, j);
    let after = moves_before(g, point, s, i, j + 1);
    let added = g.closure(g.nodes[point[i]][j].1);
    assert forall|x: u64| after.contains(x) <==> before.contains(x) || (here && added.contains(
        x,
    )) by {
        if before.contains(x) {
            let (i2, j2) = choose|i2: int, j2: int| #[trigger]
                labelled_edge(g, point, s, i2, j2) && walked(i, j, i2, j2) && g.closure(
                    g.nodes[point[i2]][j2].1,
                ).contains(x);
            assert(labelled_edge(g, point, s, i2, j2) && walked(i, j + 1, i2, j2) && g.closure(
                g.nodes[point[i2]][j2].1,
            ).contains(x));
        }
        if here && added.contains(x) {
            assert(labelled_edge(g, point, s, i, j) && walked(i, j + 1, i, j) && g.closure(
                g.nodes[point[i]][j].1,
            ).contains(x));
        }
        if after.contains(x) {
            let (i2, j2) = choose|i2: int, j2: int| #[trigger]
                labelled_edge(g, point, s, i2, j2) && walked(i, j + 1, i2, j2) && g.closure(
                    g.nodes[point[i2]][j2].1,
                ).contains(x);
            if !(i2 == i && j2 == j) {
                assert(labelled_edge(g, point, s, i2, j2) && walked(i, j, i2, j2) && g.closure(
                    g.nodes[point[i2]][j2].1,
                ).contains(x));
            }
        }
    }
    if here {
        assert(after =~= before.union(added));
    } else {
        assert(after =~= before);
    }
}

/// Once every edge of a node has been walked, the walk stands at the
/// first edge of the next node.
pub proof fn lemma_walk_node(g: NfaView, point: Seq<u64>, s: Token, i: int)
    requires
        0 <= i < point.len(),
        g.nodes.contains_key(point[i]),
    ensures
        has_move_before(g, point, s, i + 1, 0) <==> has_move_before(
            g,
            point,
            s,
            i,
            g.nodes[point[i]].len() as int,
        ),
        moves_before(g, point, s, i + 1, 0) == moves_before(
            g,
            point,
            s,
            i,
            g.nodes[point[i]].len() as int,
        ),
{
    let n = g.nodes[point[i]].len() as int;
    if has_move_before(g, point, s, i, n) {
        let (i2, j2) = choose|i2: int, j2: int| #[trigger]
            labelled_edge(g, point, s, i2, j2) && walked(i, n, i2, j2);
        assert(labelled_edge(g, point, s, i2, j2) && walked(i + 1, 0, i2, j2));
    }
    if has_move_before(g, point, s, i + 1, 0) {
        let (i2, j2) = choose|i2: int, j2: int| #[trigger]
            labelled_edge(g, point, s, i2, j2) && walked(i + 1, 0, i2, j2);
        assert(labelled_edge(g, point, s, i2, j2) && walked(i, n, i2, j2));
    }
    let a = moves_before(g, point, s, i, n);
    let b = moves_before(g, point, s, i + 1, 0);
    assert forall|x: u64| a.contains(x) <==> b.contains(x) by {
        if a.contains(x) {
            let (i2, j2) = choose|i2: int, j2: int| #[trigger]
                labelled_edge(g, point, s, i2, j2) && walked(i, n, i2, j2) && g.closure(
                    g.nodes[point[i2]][j2].1,
                ).contains(x);
            assert(labelled_edge(g, point, s, i2, j2) && walked(i + 1, 0, i2, j2) && g.closure(
                g.nodes[point[i2]][j2].1,
            ).contains(x));
        }
        if b.contains(x) {
            let (i2, j2) = choose|i2: int, j2: int| #[trigger]
                labelled_edge(g, point, s, i2, j2) && walked(i + 1, 0, i2, j2) && g.closure(
                    g.nodes[point[i2]][j2].1,
                ).contains(x);
            assert(labelled_edge(g, point, s, i2, j2) && walked(i, n, i2, j2) && g.closure(
                g.nodes[point[i2]][j2].1,
            ).contains(x));
        }
    }
    assert(a =~= b);
}

/// Before the first edge nothing has been walked, and after the last node
/// everything has.
pub proof fn lemma_walk_ends(g: NfaView, point: Seq<u64>, s: Token)
    ensures
        !has_move_before(g, point, s, 0, 0),
        moves_before(g, point, s, 0, 0) == Set::<u64>::empty(),
        has_move_before(g, point, s, point.len() as int, 0) <==> has_move(g, point, s),
        moves_before(g, point, s, point.len() as int, 0) == moves(g, point, s),
{
    let n = point.len() as int;
    assert(moves_before(g, point, s, 0, 0) =~= Set::<u64>::empty());
    if has_move(g, point, s) {
        let (i2, j2) = choose|i2: int, j2: int| labelled_edge(g, point, s, i2, j2);
        assert(labelled_edge(g, point, s, i2, j2) && walked(n, 0, i2, j2));
    }
    let a = moves_before(g, point, s, n, 0);
    let b = moves(g, point, s);
    assert forall|x: u64| a.contains(x) <==> b.contains(x) by {
        if b.contains(x) {
            let (i2, j2) = choose|i2: int, j2: int| #[trigger]
                labelled_edge(g, point, s, i2, j2) && g.closure(g.nodes[point[i2]][j2].1).contains(
                    x,
                );
            assert(labelled_edge(g, point, s, i2, j2) && walked(n, 0, i2, j2) && g.closure(
                g.nodes[point[i2]][j2].1,
            ).contains(x));
        }
    }
    assert(a =~= b);
}

/// In a well formed graph every id that a point of its nodes moves to is a
/// node of the graph.
pub proof fn lemma_moves_in_graph(g: NfaView, point: Seq<u64>, s: Token, x: u64)
    requires
        g.wf(),
        moves(g, point, s).contains(x),
    ensures
        g.nodes.contains_key(x),
{
    let (i, j) = choose|i: int, j: int| #[trigger]
        labelled_edge(g, point, s, i, j) && g.closure(g.nodes[point[i]][j].1).contains(x);
    assert(g.nodes.contains_key(g.nodes[point[i]][j].1));
    crate::nfa::lemma_closure_in_graph(g, g.nodes[point[i]][j].1, x);
}


/// The node ids are the numbers below the node count, and every node has
/// a point.
pub open spec fn numbered(d: DfaView) -> bool {
    &&& d.nodes.dom().finite()
    &&& d.points.dom() == d.nodes.dom()
    &&& forall|q: u64| #[trigger] d.nodes.contains_key(q) <==> q < d.nodes.dom().len()
}

/// Each point is a strictly increasing list of nodes of `g`, no two nodes
/// of `d` share a point, the point of node 0 is the closure of the start
/// of `g`, and a node accepts exactly if its point holds the accepting id
/// of `g`.
pub open spec fn points_ok(g: NfaView, d: DfaView) -> bool {
    &&& forall|q: u64| d.nodes.contains_key(q) ==> strictly_increasing(#[trigger] d.points[q])
    &&& forall|q: u64, i: int|
        d.nodes.contains_key(q) && 0 <= i < d.points[q].len() ==> g.nodes.contains_key(
            #[trigger] d.points[q][i],
        )
    &&& forall|p: u64, q: u64|
        #![trigger d.points[p], d.points[q]]
        d.nodes.contains_key(p) && d.nodes.contains_key(q) && d.points[p] == d.points[q] ==> p == q
    &&& d.nodes.contains_key(0)
    &&& d.points[0].to_set() == g.closure(g.start)
    &&& forall|q: u64|
        d.nodes.contains_key(q) ==> ((#[trigger] d.nodes[q]).accepting <==> d.points[q].contains(
            g.terminal,
        ))
}

/// The first `upto` edges of node `q` carry pairwise different symbols,
/// none of them `Epsilon`, in the order in which a walk over the edges of
/// the point of `q` first meets them, and each leads to the node whose
/// point is the set that the point of `q` moves to under the edge's
/// symbol.
pub open spec fn edges_follow(g: NfaView, d: DfaView, q: u64, upto: int) -> bool {
    &&& forall|j: int|
        0 <= j < upto ==> {
            let e = #[trigger] d.nodes[q].edges[j];
            &&& e.0 != Token::Epsilon
            &&& has_move(g, d.points[q], e.0)
            &&& d.nodes.contains_key(e.1)
            &&& d.points[e.1].to_set() == moves(g, d.points[q], e.0)
        }
    &&& forall|i: int, j: int|
        #![trigger d.nodes[q].edges[i], d.nodes[q].edges[j]]
        0 <= i < j < upto ==> d.nodes[q].edges[i].0 != d.nodes[q].edges[j].0 && met_before(
            g,
            d.points[q],
            d.nodes[q].edges[i].0,
            d.nodes[q].edges[j].0,
        )
}

/// Node `q` has one edge, and a right one, for each symbol other than
/// `Epsilon` under which its point moves, and no other edge.
pub open spec fn node_done(g: NfaView, d: DfaView, q: u64) -> bool {
    &&& edges_follow(g, d, q, d.nodes[q].edges.len() as int)
    &&& forall|s: Token|
        s != Token::Epsilon && #[trigger] has_move(g, d.points[q], s) ==> exists|j: int|
            0 <= j < d.nodes[q].edges.len() && (#[trigger] d.nodes[q].edges[j]).0 == s
}

/// Edge `j` of node `p` is the first edge that leads to node `q`, when
/// the edges are walked node by node: it leaves a node with a smaller id,
/// and every edge before it leads to a node with a smaller id than `q`.
pub open spec fn found_at(d: DfaView, q: u64, p: u64, j: int) -> bool {
    &&& p < q
    &&& d.nodes.contains_key(p)
    &&& 0 <= j < d.nodes[p].edges.len()
    &&& d.nodes[p].edges[j].1 == q
    &&& forall|p2: u64, j2: int|
        d.nodes.contains_key(p2) && 0 <= j2 < d.nodes[p2].edges.len() && (p2 < p || (p2 == p && j2
            < j)) ==> (#[trigger] d.nodes[p2].edges[j2]).1 < q
}

/// Node `q` has the next id after the nodes that the edges walked before
/// its first mention lead to.
pub open spec fn discovered(d: DfaView, q: u64) -> bool {
    exists|p: u64, j: int| #[trigger] found_at(d, q, p, j)
}

/// `d` is the subset construction of `g`: node 0 stands for the closure of
/// the start of `g`, every node has exactly the edges that its point
/// calls for, and the other nodes are numbered in the order in which the
/// edges, walked node by node, first lead to them.
pub open spec fn determinized(g: NfaView, d: DfaView) -> bool {
    &&& numbered(d)
    &&& d.start == 0
    &&& points_ok(g, d)
    &&& forall|q: u64| d.nodes.contains_key(q) ==> #[trigger] node_done(g, d, q)
    &&& forall|q: u64| d.nodes.contains_key(q) && q != 0 ==> #[trigger] discovered(d, q)
}

/// The state of the construction while node `k` is worked on: the nodes
/// before it are done, node `k` has its first `a` edges, one for each of
/// the first `a` symbols of `syms`, and the nodes after it have none.
pub open spec fn determinizing(g: NfaView, d: DfaView, k: u64, syms: Seq<Token>, a: int) -> bool {
    &&& numbered(d)
    &&& d.start == 0
    &&& points_ok(g, d)
    &&& d.nodes.contains_key(k)
    &&& forall|q: u64| q < k ==> #[trigger] node_done(g, d, q)
    &&& forall|q: u64| d.nodes.contains_key(q) && q > k ==> (#[trigger] d.nodes[q]).edges.len() == 0
    &&& forall|q: u64| d.nodes.contains_key(q) && q != 0 ==> #[trigger] discovered(d, q)
    &&& 0 <= a <= syms.len()
    &&& d.nodes[k].edges.len() == a
    &&& forall|j: int| 0 <= j < a ==> (#[trigger] d.nodes[k].edges[j]).0 == syms[j]
    &&& edges_follow(g, d, k, a)
}

/// The node `node` with the edge `e` added after its edges.
pub open spec fn with_edge(node: DfaNodeView, e: (Token, u64)) -> DfaNodeView {
    DfaNodeView { accepting: node.accepting, edges: node.edges.push(e) }
}

/// A new node for the point `cand`, without edges.
pub open spec fn fresh_node(g: NfaView, cand: Seq<u64>) -> DfaNodeView {
    DfaNodeView { accepting: cand.contains(g.terminal), edges: Seq::empty() }
}

/// Adding the edge for the next symbol keeps the construction in order,
/// whether the edge leads to a node that `d` has already or to a new one.
pub proof fn lemma_edge_added(
    g: NfaView,
    d: DfaView,
    d2: DfaView,
    k: u64,
    syms: Seq<Token>,
    a: int,
    t: u64,
    cand: Seq<u64>,
)
    requires
        g.wf(),
        determinizing(g, d, k, syms, a),
        a < syms.len(),
        syms.no_duplicates(),
        forall|x: int, y: int|
            0 <= x < y < syms.len() ==> met_before(
                g,
                d.points[k],
                #[trigger] syms[x],
                #[trigger] syms[y],
            ),
        syms[a] != Token::Epsilon,
        has_move(g, d.points[k], syms[a]),
        strictly_increasing(cand),
        cand.to_set() == moves(g, d.points[k], syms[a]),
        d2.start == d.start,
        ({
            ||| {
                &&& d.nodes.contains_key(t)
                &&& d.points[t] == cand
                &&& d2.points == d.points
                &&& d2.nodes == d.nodes.insert(k, with_edge(d.nodes[k], (syms[a], t)))
            }
            ||| {
                &&& t == d.nodes.dom().len()
                &&& forall|q: u64| d.nodes.contains_key(q) ==> #[trigger] d.points[q] != cand
                &&& d2.points == d.points.insert(t, cand)
                &&& d2.nodes == d.nodes.insert(t, fresh_node(g, cand)).insert(
                    k,
                    with_edge(d.nodes[k], (syms[a], t)),
                )
            }
        }),
    ensures
        determinizing(g, d2, k, syms, a + 1),
{
    let n = d.nodes.dom().len();
    let found = d.nodes.contains_key(t);
    assert(d.points.dom().contains(k));
    assert(d2.nodes.dom() =~= if found {
        d.nodes.dom()
    } else {
        d.nodes.dom().insert(t)
    });
    assert(d2.points.dom() =~= d2.nodes.dom());
    assert forall|q: u64| d.nodes.contains_key(q) implies d2.nodes.contains_key(q)
        && #[trigger] d2.points[q] == d.points[q] by {
        assert(d.points.dom().contains(q));
    }
    assert forall|q: u64| d.nodes.contains_key(q) && q != k implies #[trigger] d2.nodes[q]
        == d.nodes[q] by {}
    assert(d2.nodes[k] == with_edge(d.nodes[k], (syms[a], t)));
    assert(d2.nodes.contains_key(t) && d2.points[t] == cand);
    assert forall|x: u64| cand.contains(x) implies g.nodes.contains_key(x) by {
        assert(cand.to_set().contains(x));
        lemma_moves_in_graph(g, d.points[k], syms[a], x);
    }
    // ids stay the numbers below the count
    assert forall|q: u64| #[trigger] d2.nodes.contains_key(q) <==> q < d2.nodes.dom().len() by {
        if d.nodes.contains_key(q) {
        }
    }
    // points
    assert forall|q: u64| d2.nodes.contains_key(q) implies strictly_increasing(
        #[trigger] d2.points[q],
    ) by {
        if d.nodes.contains_key(q) {
            assert(strictly_increasing(d.points[q]));
        }
    }
    assert forall|q: u64, i: int|
        d2.nodes.contains_key(q) && 0 <= i < d2.points[q].len() implies g.nodes.contains_key(
        #[trigger] d2.points[q][i],
    ) by {
        if d.nodes.contains_key(q) {
            assert(g.nodes.contains_key(d.points[q][i]));
        } else {
            assert(cand.contains(cand[i]));
        }
    }
    assert forall|p: u64, q: u64|
        #![trigger d2.points[p], d2.points[q]]
        d2.nodes.contains_key(p) && d2.nodes.contains_key(q) && d2.points[p]
            == d2.points[q] implies p == q by {
        if d.nodes.contains_key(p) && d.nodes.contains_key(q) {
            assert(d.points[p] == d.points[q]);
        }
    }
    assert forall|q: u64| d2.nodes.contains_key(q) implies ((#[trigger] d2.nodes[q]).accepting
        <==> d2.points[q].contains(g.terminal)) by {
        if d.nodes.contains_key(q) {
            assert(d.nodes[q].accepting <==> d.points[q].contains(g.terminal));
        }
    }
    // edges of the nodes that are done
    assert forall|q: u64| q < k implies #[trigger] node_done(g, d2, q) by {
        assert(node_done(g, d, q));
        assert(d.nodes.contains_key(q));
        assert(d2.nodes[q] == d.nodes[q]);
        assert forall|j: int| 0 <= j < d2.nodes[q].edges.len() implies {
            let e = #[trigger] d2.nodes[q].edges[j];
            &&& e.0 != Token::Epsilon
            &&& has_move(g, d2.points[q], e.0)
            &&& d2.nodes.contains_key(e.1)
            &&& d2.points[e.1].to_set() == moves(g, d2.points[q], e.0)
        } by {
            let e = d.nodes[q].edges[j];
            assert(d.nodes.contains_key(e.1));
        }
    }
    assert forall|q: u64| d2.nodes.contains_key(q) && q > k implies (#[trigger] d2.nodes[q]).edges.len()
        == 0 by {
        if d.nodes.contains_key(q) {
            assert(d.nodes[q].edges.len() == 0);
        }
    }
    // the nodes found so far stay found
    assert forall|q: u64| d2.nodes.contains_key(q) && q != 0 implies #[trigger] discovered(
        d2,
        q,
    ) by {
        assert forall|p2: u64, j2: int|
            d.nodes.contains_key(p2) && 0 <= j2 < d.nodes[p2].edges.len() implies d.nodes.contains_key(
            (#[trigger] d.nodes[p2].edges[j2]).1,
        ) by {
            if p2 < k {
                assert(node_done(g, d, p2));
            } else if p2 > k {
                assert(d.nodes[p2].edges.len() == 0);
            }
        }
        if d.nodes.contains_key(q) {
            assert(discovered(d, q));
            let (p, j) = choose|p: u64, j: int| #[trigger] found_at(d, q, p, j);
            assert(d2.nodes[p].edges[j] == d.nodes[p].edges[j]);
            assert forall|p2: u64, j2: int|
                d2.nodes.contains_key(p2) && 0 <= j2 < d2.nodes[p2].edges.len() && (p2 < p || (p2
                    == p && j2 < j)) implies (#[trigger] d2.nodes[p2].edges[j2]).1 < q by {
                assert(d.nodes.contains_key(p2));
                if p2 == k {
                    assert(j2 < d.nodes[k].edges.len()) by {
                        if p == k {
                        } else {
                            assert(d.nodes[p].edges.len() > 0);
                        }
                    }
                }
                assert(d2.nodes[p2].edges[j2] == d.nodes[p2].edges[j2]);
            }
            assert(found_at(d2, q, p, j));
        } else {
            assert(q == t);
            assert(d2.nodes[k].edges[a].1 == t);
            assert forall|p2: u64, j2: int|
                d2.nodes.contains_key(p2) && 0 <= j2 < d2.nodes[p2].edges.len() && (p2 < k || (p2
                    == k && j2 < a)) implies (#[trigger] d2.nodes[p2].edges[j2]).1 < q by {
                assert(d.nodes.contains_key(p2));
                assert(d2.nodes[p2].edges[j2] == d.nodes[p2].edges[j2]);
                assert(d.nodes.contains_key(d.nodes[p2].edges[j2].1));
            }
            assert(found_at(d2, q, k, a));
        }
    }
    // the edges of the node that is worked on
    assert forall|j: int| 0 <= j < a + 1 implies (#[trigger] d2.nodes[k].edges[j]).0
        == syms[j] by {
        if j < a {
            assert(d2.nodes[k].edges[j] == d.nodes[k].edges[j]);
        }
    }
    assert forall|j: int| 0 <= j < a + 1 implies {
        let e = #[trigger] d2.nodes[k].edges[j];
        &&& e.0 != Token::Epsilon
        &&& has_move(g, d2.points[k], e.0)
        &&& d2.nodes.contains_key(e.1)
        &&& d2.points[e.1].to_set() == moves(g, d2.points[k], e.0)
    } by {
        if j < a {
            let e = d.nodes[k].edges[j];
            assert(d2.nodes[k].edges[j] == e);
            assert(d.nodes.contains_key(e.1));
        }
    }
    assert forall|i: int, j: int|
        #![trigger d2.nodes[k].edges[i], d2.nodes[k].edges[j]]
        0 <= i < j < a + 1 implies d2.nodes[k].edges[i].0 != d2.nodes[k].edges[j].0 && met_before(
        g,
        d2.points[k],
        d2.nodes[k].edges[i].0,
        d2.nodes[k].edges[j].0,
    ) by {
        assert(d2.nodes[k].edges[i].0 == syms[i]);
        assert(d2.nodes[k].edges[j].0 == syms[j]);
        assert(met_before(g, d.points[k], syms[i], syms[j]));
    }
}

/// A construction in order has at most as many nodes as the nodes of `g`
/// have subsets.
pub proof fn lemma_states_bounded(g: NfaView, d: DfaView)
    requires
        g.wf(),
        numbered(d),
        points_ok(g, d),
    ensures
        subsets(g.nodes.dom()).finite(),
        d.nodes.dom().len() <= subsets(g.nodes.dom()).len(),
        subsets(g.nodes.dom()).len() == pow2(g.nodes.dom().len()),
{
    lemma_subsets_len(g.nodes.dom());
    let f = |q: u64| d.points[q].to_set();
    let image = d.nodes.dom().map(f);
    assert(injective_on(f, d.nodes.dom())) by {
        assert forall|p: u64, q: u64|
            d.nodes.dom().contains(p) && d.nodes.dom().contains(q) && #[trigger] f(p)
                == #[trigger] f(q) implies p == q by {
            lemma_increasing_unique(d.points[p], d.points[q]);
        }
    }
    lemma_map_size(d.nodes.dom(), image, f);
    assert forall|t: Set<u64>| image.contains(t) implies subsets(g.nodes.dom()).contains(t) by {
        let q = choose|q: u64| d.nodes.dom().contains(q) && t == f(q);
        assert forall|x: u64| t.contains(x) implies g.nodes.dom().contains(x) by {
            let i = choose|i: int| 0 <= i < d.points[q].len() && d.points[q][i] == x;
            assert(g.nodes.contains_key(d.points[q][i]));
        }
    }
    lemma_len_subset(image, subsets(g.nodes.dom()));
}

} // verus!
