//! The subset construction, from a nondeterministic automaton to a
//! deterministic one.

use super::{copy_ids, ids_consistent, view_of, DFANode, DFANodeType, DFA};
use crate::nfa::NFA;
use crate::nfa::NfaView;
use crate::nfa::lemma_closure_in_graph;
use crate::powerset::subsets;
use crate::sorted::{contains_id, insert_sorted, same_ids, sort_ids, strictly_increasing};
use crate::subset::{
    determinized, determinizing, fresh_node, has_move, has_move_before, labelled_edge,
    lemma_edge_added, lemma_states_bounded, lemma_walk_edge, lemma_walk_ends, lemma_walk_node,
    met_before, moves, moves_before, node_done, walked, with_edge,
};
use crate::token::Token;
use std::collections::HashMap;
use std::collections::VecDeque;
use vstd::arithmetic::power2::pow2;
use vstd::prelude::*;

verus! {

broadcast use vstd::std_specs::hash::group_hash_axioms;

/// The id, among the first `count`, whose point is `cand`.
fn find_point(points: &HashMap<u64, Vec<u64>>, count: u64, cand: &Vec<u64>) -> (found: Option<u64>)
    requires
        forall|q: u64| q < count ==> #[trigger] points@.contains_key(q),
    ensures
        match found {
            Some(q) => q < count && points@[q]@ == cand@,
            None => forall|q: u64| q < count ==> (#[trigger] points@[q])@ != cand@,
        },
{
    let mut q: u64 = 0;
    while q < count
        invariant
            q <= count,
            forall|q: u64| q < count ==> #[trigger] points@.contains_key(q),
            forall|p: u64| p < q ==> (#[trigger] points@[p])@ != cand@,
        decreases count - q,
    {
        assert(points@.contains_key(q));
        if same_ids(points.get(&q).unwrap(), cand) {
            return Some(q);
        }
        q += 1;
    }
    None
}

impl DFA {
    /// The subset construction of `nfa`. Node 0 stands for the closure of
    /// the start of `nfa`; the nodes are numbered in the order in which a
    /// worklist finds them, and a node accepts exactly if its point holds
    /// the accepting id of `nfa`.
    #[verifier::rlimit(50)]
    pub fn from_nfa(nfa: &NFA) -> (dfa: Self)
        requires
            nfa.wf(),
        ensures
            dfa.wf(),
            determinized(nfa@, dfa@),
            dfa@.nodes.dom().len() <= pow2(nfa@.nodes.dom().len()),
    {
        let ghost g = nfa@;
        let mut worklist: VecDeque<u64> = VecDeque::new();
        let mut id_to_point: HashMap<u64, Vec<u64>> = HashMap::new();
        let mut nodes: HashMap<u64, DFANode> = HashMap::new();
        let mut num: u64 = 0;
        let terminal = nfa.get_terminal();
        let closure = nfa.get_epsilon_closure_node(nfa.get_start()).unwrap();
        let tmp = sort_ids(&closure);
        let nodetype = if contains_id(&tmp, terminal) {
            DFANodeType::Terminal
        } else {
            DFANodeType::NonTerminal
        };
        proof {
            assert forall|i: int| 0 <= i < tmp@.len() implies g.nodes.contains_key(
                #[trigger] tmp@[i],
            ) by {
                assert(tmp@.to_set().contains(tmp@[i]));
                lemma_closure_in_graph(g, g.start, tmp@[i]);
            }
        }
        id_to_point.insert(num, tmp);
        worklist.push_back(num);
        nodes.insert(num, DFANode::new(num, nodetype));
        proof {
            let d = view_of(0, nodes@, id_to_point@);
            assert(d.nodes.dom() =~= set![0u64]);
            assert(d.points.dom() =~= d.nodes.dom());
            assert(d.nodes.dom().len() == 1);
            assert(determinizing(g, d, 0, Seq::<Token>::empty(), 0));
            assert(worklist@ =~= Seq::new(1, |i: int| (0 + i) as u64));
            lemma_states_bounded(g, d);
        }
        let ghost bound = subsets(g.nodes.dom()).len() as int;
        let ghost mut done: int = 0;
        while worklist.len() > 0
            invariant
                g == nfa@,
                nfa.wf(),
                terminal == g.terminal,
                bound == subsets(g.nodes.dom()).len(),
                bound == pow2(g.nodes.dom().len()),
                0 <= done <= num + 1 <= bound,
                num + 1 == nodes@.dom().len(),
                ids_consistent(nodes@),
                worklist@ == Seq::new((num + 1 - done) as nat, |i: int| (done + i) as u64),
                done <= num ==> determinizing(
                    g,
                    view_of(0, nodes@, id_to_point@),
                    done as u64,
                    Seq::<Token>::empty(),
                    0,
                ),
                done == num + 1 ==> determinized(g, view_of(0, nodes@, id_to_point@)),
            decreases bound - done,
        {
            let q_id = worklist.pop_front().unwrap();
            assert(q_id == done);
            let ghost d0 = view_of(0, nodes@, id_to_point@);
            assert(d0.points.dom().contains(q_id));
            let q = id_to_point.get(&q_id).unwrap();
            assert(q@ == d0.points[q_id]);
            proof {
                assert forall|i: int| 0 <= i < q@.len() implies g.nodes.contains_key(
                    #[trigger] q@[i],
                ) by {
                    assert(g.nodes.contains_key(d0.points[q_id][i]));
                }
            }
            let (syms, sets) = collect_moves(nfa, q);
            let ghost point = q@;
            let mut a: usize = 0;
            proof {
                assert(determinizing(g, d0, q_id, syms@, 0));
                assert(worklist@ =~= Seq::new((num - done) as nat, |i: int| (done + 1 + i) as u64));
            }
            while a < syms.len()
                invariant
                    g == nfa@,
                    nfa.wf(),
                    terminal == g.terminal,
                    bound == subsets(g.nodes.dom()).len(),
                    bound == pow2(g.nodes.dom().len()),
                    0 <= done <= num,
                    num + 1 <= bound,
                    q_id == done,
                    num + 1 == nodes@.dom().len(),
                    ids_consistent(nodes@),
                    worklist@ == Seq::new((num - done) as nat, |i: int| (done + 1 + i) as u64),
                    a <= syms.len(),
                    syms@.len() == sets@.len(),
                    syms@.no_duplicates(),
                    forall|s: Token|
                        #![trigger syms@.contains(s)]
                        #![trigger has_move(g, point, s)]
                        syms@.contains(s) <==> s != Token::Epsilon && has_move(g, point, s),
                    forall|a: int|
                        0 <= a < sets@.len() ==> strictly_increasing(#[trigger] sets@[a]@)
                            && sets@[a]@.to_set() == moves(g, point, syms@[a]),
                    forall|a: int, b: int|
                        0 <= a < b < syms@.len() ==> met_before(
                            g,
                            point,
                            #[trigger] syms@[a],
                            #[trigger] syms@[b],
                        ),
                    point == view_of(0, nodes@, id_to_point@).points[q_id],
                    determinizing(g, view_of(0, nodes@, id_to_point@), q_id, syms@, a as int),
                decreases syms.len() - a,
            {
                let ghost d1 = view_of(0, nodes@, id_to_point@);
                let ghost nodes1 = nodes@;
                let ghost points1 = id_to_point@;
                let item = copy_ids(&sets[a]);
                let sym = syms[a];
                assert(syms@.contains(sym));
                let count = nodes.len();
                proof {
                    assert(d1.nodes.dom() =~= nodes@.dom());
                    assert(count == num + 1);
                    assert forall|q: u64| q < num + 1 implies #[trigger] id_to_point@.contains_key(
                        q,
                    ) by {
                        assert(d1.nodes.contains_key(q));
                        assert(d1.points.dom().contains(q));
                    }
                }
                let target = match find_point(&id_to_point, count as u64, &item) {
                    Some(id) => id,
                    None => {
                        let nodetype = if contains_id(&item, terminal) {
                            DFANodeType::Terminal
                        } else {
                            DFANodeType::NonTerminal
                        };
                        num += 1;
                        id_to_point.insert(num, item);
                        nodes.insert(num, DFANode::new(num, nodetype));
                        worklist.push_back(num);
                        num
                    },
                };
                let ghost nodes2 = nodes@;
                assert(nodes@.contains_key(q_id)) by {
                    assert(d1.nodes.contains_key(q_id));
                }
                let mut q_node = nodes.remove(&q_id).unwrap();
                q_node.push(sym, target);
                nodes.insert(q_id, q_node);
                proof {
                    let d2 = view_of(0, nodes@, id_to_point@);
                    let cand = sets@[a as int]@;
                    assert(d1.nodes.contains_key(q_id));
                    if d1.nodes.contains_key(target) {
                        assert(d2.points =~= d1.points);
                        assert(d2.nodes =~= d1.nodes.insert(
                            q_id,
                            with_edge(d1.nodes[q_id], (sym, target)),
                        ));
                    } else {
                        assert forall|q: u64| d1.nodes.contains_key(q) implies #[trigger] d1.points[q]
                            != cand by {
                            assert(points1[q]@ != cand);
                        }
                        assert(d2.points =~= d1.points.insert(target, cand));
                        assert(d2.nodes =~= d1.nodes.insert(target, fresh_node(g, cand)).insert(
                            q_id,
                            with_edge(d1.nodes[q_id], (sym, target)),
                        ));
                    }
                    lemma_edge_added(g, d1, d2, q_id, syms@, a as int, target, cand);
                    lemma_states_bounded(g, d2);
                    assert(d2.nodes.dom() =~= nodes@.dom());
                    assert(d2.points[q_id] == point);
                    if !d1.nodes.contains_key(target) {
                        assert(worklist@ =~= Seq::new(
                            (num - done) as nat,
                            |i: int| (done + 1 + i) as u64,
                        ));
                    }
                }
                a += 1;
            }
            proof {
                let d = view_of(0, nodes@, id_to_point@);
                assert(d.nodes.dom() =~= nodes@.dom());
                assert(node_done(g, d, q_id)) by {
                    assert forall|s: Token|
                        s != Token::Epsilon && #[trigger] has_move(
                            g,
                            d.points[q_id],
                            s,
                        ) implies exists|j: int|
                        0 <= j < d.nodes[q_id].edges.len() && (#[trigger] d.nodes[q_id].edges[j]).0
                            == s by {
                        assert(syms@.contains(s));
                        let j = choose|j: int| 0 <= j < syms@.len() && syms@[j] == s;
                        assert(d.nodes[q_id].edges[j].0 == s);
                    }
                }
                done = done + 1;
                if done <= num {
                    assert(determinizing(g, d, done as u64, Seq::<Token>::empty(), 0));
                } else {
                    assert(determinized(g, d));
                }
            }
        }
        let dfa = DFA { start: 0, nodes, id_to_point };
        proof {
            assert(worklist@.len() == 0);
            assert(done == num + 1);
            let d = dfa@;
            assert(determinized(g, d));
            assert(d.nodes.dom() =~= dfa.nodes@.dom());
            assert forall|q: u64, j: int|
                d.nodes.contains_key(q) && 0 <= j < d.nodes[q].edges.len() implies {
                let e = #[trigger] d.nodes[q].edges[j];
                e.0 != Token::Epsilon && d.nodes.contains_key(e.1)
            } by {
                assert(node_done(g, d, q));
            }
            assert forall|q: u64, i: int, j: int|
                #![trigger d.nodes[q].edges[i], d.nodes[q].edges[j]]
                d.nodes.contains_key(q) && 0 <= i < j < d.nodes[q].edges.len()
                    implies d.nodes[q].edges[i].0 != d.nodes[q].edges[j].0 by {
                assert(node_done(g, d, q));
            }
        }
        dfa
    }
}

/// The accumulators of one worklist item: for each symbol met on an edge
/// that leaves the point, in the order in which the symbols are first met,
/// the sorted ids that the symbol leads to.
fn collect_moves(nfa: &NFA, point: &Vec<u64>) -> (acc: (Vec<Token>, Vec<Vec<u64>>))
    requires
        nfa.wf(),
        forall|i: int| 0 <= i < point@.len() ==> nfa@.nodes.contains_key(#[trigger] point@[i]),
    ensures
        acc.0@.len() == acc.1@.len(),
        acc.0@.no_duplicates(),
        forall|s: Token|
            #![trigger acc.0@.contains(s)]
            #![trigger has_move(nfa@, point@, s)]
            acc.0@.contains(s) <==> s != Token::Epsilon && has_move(nfa@, point@, s),
        forall|a: int|
            0 <= a < acc.1@.len() ==> strictly_increasing(#[trigger] acc.1@[a]@)
                && acc.1@[a]@.to_set() == moves(nfa@, point@, acc.0@[a]),
        forall|a: int, b: int|
            0 <= a < b < acc.0@.len() ==> met_before(
                nfa@,
                point@,
                #[trigger] acc.0@[a],
                #[trigger] acc.0@[b],
            ),
{
    let ghost g = nfa@;
    let mut syms: Vec<Token> = Vec::new();
    let mut sets: Vec<Vec<u64>> = Vec::new();
    let mut i: usize = 0;
    proof {
        assert forall|s: Token| !has_move_before(g, point@, s, 0, 0) by {
            lemma_walk_ends(g, point@, s);
        }
    }
    while i < point.len()
        invariant
            g == nfa@,
            nfa.wf(),
            forall|i: int| 0 <= i < point@.len() ==> g.nodes.contains_key(#[trigger] point@[i]),
            i <= point.len(),
            accumulated(g, point@, syms@, sets@, i as int, 0),
        decreases point.len() - i,
    {
        let edges = nfa.get_node(point[i]).unwrap().get_edges();
        let mut j: usize = 0;
        while j < edges.len()
            invariant
                g == nfa@,
                nfa.wf(),
                forall|i: int| 0 <= i < point@.len() ==> g.nodes.contains_key(#[trigger] point@[i]),
                i < point.len(),
                edges@ == g.nodes[point@[i as int]],
                j <= edges.len(),
                accumulated(g, point@, syms@, sets@, i as int, j as int),
            decreases edges.len() - j,
        {
            let tuple = edges[j];
            if tuple.0 == Token::Epsilon {
                proof {
                    lemma_edge_skipped(g, point@, syms@, sets@, i as int, j as int);
                }
            } else {
                assert(g.nodes.contains_key(g.nodes[point@[i as int]][j as int].1));
                let ghost syms_before = syms@;
                let ghost sets_before = sets@;
                let slot = symbol_slot(&mut syms, &mut sets, tuple.0);
                let closure = nfa.get_epsilon_closure_node(tuple.1).unwrap();
                let ghost sets_slotted = sets@;
                let mut k: usize = 0;
                while k < closure.len()
                    invariant
                        k <= closure.len(),
                        slot < sets.len(),
                        sets@.len() == sets_slotted.len(),
                        forall|a: int|
                            0 <= a < sets@.len() && a != slot ==> #[trigger] sets@[a]
                                == sets_slotted[a],
                        strictly_increasing(sets_slotted[slot as int]@),
                        strictly_increasing(sets@[slot as int]@),
                        sets@[slot as int]@.to_set() == sets_slotted[slot as int]@.to_set().union(
                            closure@.take(k as int).to_set(),
                        ),
                    decreases closure.len() - k,
                {
                    insert_sorted(&mut sets[slot], closure[k]);
                    proof {
                        let a = closure@.take(k as int);
                        let b = closure@.take(k + 1);
                        assert(b =~= a.push(closure@[k as int]));
                        assert forall|y: u64| #[trigger]
                            b.contains(y) <==> a.contains(y) || y == closure@[k as int] by {
                            if b.contains(y) {
                                let n = choose|n: int| 0 <= n < b.len() && b[n] == y;
                                if n < a.len() {
                                    assert(a[n] == y);
                                }
                            }
                            if a.contains(y) {
                                let n = choose|n: int| 0 <= n < a.len() && a[n] == y;
                                assert(b[n] == y);
                            }
                            if y == closure@[k as int] {
                                assert(b[k as int] == y);
                            }
                        }
                        assert(sets@[slot as int]@.to_set()
                            =~= sets_slotted[slot as int]@.to_set().union(b.to_set()));
                    }
                    k += 1;
                }
                proof {
                    assert(closure@.take(k as int) =~= closure@);
                    lemma_edge_absorbed(
                        g,
                        point@,
                        syms_before,
                        sets_before,
                        syms@,
                        sets_slotted,
                        sets@,
                        i as int,
                        j as int,
                        slot as int,
                    );
                }
            }
            j += 1;
        }
        proof {
            assert forall|s: Token|
                has_move_before(g, point@, s, i + 1, 0) == has_move_before(
                    g,
                    point@,
                    s,
                    i as int,
                    j as int,
                ) && moves_before(g, point@, s, i + 1, 0) == moves_before(
                    g,
                    point@,
                    s,
                    i as int,
                    j as int,
                ) by {
                lemma_walk_node(g, point@, s, i as int);
            }
        }
        i += 1;
    }
    proof {
        assert forall|s: Token|
            has_move_before(g, point@, s, point@.len() as int, 0) == has_move(g, point@, s)
                && moves_before(g, point@, s, point@.len() as int, 0) == moves(g, point@, s) by {
            lemma_walk_ends(g, point@, s);
        }
    }
    (syms, sets)
}

/// What the accumulators hold once the edges before position `(i, j)` of
/// the point have been walked.
spec fn accumulated(
    g: NfaView,
    point: Seq<u64>,
    syms: Seq<Token>,
    sets: Seq<Vec<u64>>,
    i: int,
    j: int,
) -> bool {
    &&& syms.len() == sets.len()
    &&& syms.no_duplicates()
    &&& forall|s: Token|
        #![trigger syms.contains(s)]
        #![trigger has_move_before(g, point, s, i, j)]
        syms.contains(s) <==> s != Token::Epsilon && has_move_before(g, point, s, i, j)
    &&& forall|a: int|
        0 <= a < sets.len() ==> strictly_increasing(#[trigger] sets[a]@) && sets[a]@.to_set()
            == moves_before(g, point, syms[a], i, j)
    &&& forall|a: int, b: int|
        0 <= a < b < syms.len() ==> met_before(g, point, #[trigger] syms[a], #[trigger] syms[b])
}

/// An `Epsilon` edge leaves the accumulators as they are.
proof fn lemma_edge_skipped(
    g: NfaView,
    point: Seq<u64>,
    syms: Seq<Token>,
    sets: Seq<Vec<u64>>,
    i: int,
    j: int,
)
    requires
        0 <= i < point.len(),
        g.nodes.contains_key(point[i]),
        0 <= j < g.nodes[point[i]].len(),
        g.nodes[point[i]][j].0 == Token::Epsilon,
        accumulated(g, point, syms, sets, i, j),
    ensures
        accumulated(g, point, syms, sets, i, j + 1),
{
    assert forall|s: Token|
        #![trigger syms.contains(s)]
        #![trigger has_move_before(g, point, s, i, j + 1)]
        syms.contains(s) <==> s != Token::Epsilon && has_move_before(g, point, s, i, j + 1) by {
        lemma_walk_edge(g, point, s, i, j);
    }
    assert forall|a: int| 0 <= a < sets.len() implies strictly_increasing(#[trigger] sets[a]@)
        && sets[a]@.to_set() == moves_before(g, point, syms[a], i, j + 1) by {
        assert(syms.contains(syms[a]));
        lemma_walk_edge(g, point, syms[a], i, j);
    }
}

/// Once the closure of an edge's target has been added to the slot of the
/// edge's symbol, the accumulators hold what the edges walked so far,
/// that edge included, call for.
proof fn lemma_edge_absorbed(
    g: NfaView,
    point: Seq<u64>,
    syms_before: Seq<Token>,
    sets_before: Seq<Vec<u64>>,
    syms: Seq<Token>,
    sets_slotted: Seq<Vec<u64>>,
    sets: Seq<Vec<u64>>,
    i: int,
    j: int,
    slot: int,
)
    requires
        0 <= i < point.len(),
        g.nodes.contains_key(point[i]),
        0 <= j < g.nodes[point[i]].len(),
        g.nodes[point[i]][j].0 != Token::Epsilon,
        accumulated(g, point, syms_before, sets_before, i, j),
        slotted(syms_before, sets_before, syms, sets_slotted, g.nodes[point[i]][j].0, slot),
        sets.len() == sets_slotted.len(),
        forall|a: int| 0 <= a < sets.len() && a != slot ==> #[trigger] sets[a] == sets_slotted[a],
        strictly_increasing(sets[slot]@),
        sets[slot]@.to_set() == sets_slotted[slot]@.to_set().union(
            g.closure(g.nodes[point[i]][j].1),
        ),
    ensures
        accumulated(g, point, syms, sets, i, j + 1),
{
    let s0 = g.nodes[point[i]][j].0;
    assert forall|s: Token|
        #![trigger syms.contains(s)]
        #![trigger has_move_before(g, point, s, i, j + 1)]
        syms.contains(s) <==> s != Token::Epsilon && has_move_before(g, point, s, i, j + 1) by {
        lemma_walk_edge(g, point, s, i, j);
        if syms_before.contains(s0) {
        } else {
            if syms.contains(s) {
                let n = choose|n: int| 0 <= n < syms.len() && syms[n] == s;
                if n < syms_before.len() {
                    assert(syms_before[n] == s);
                }
            }
            if syms_before.contains(s) {
                let n = choose|n: int| 0 <= n < syms_before.len() && syms_before[n] == s;
                assert(syms[n] == s);
            }
            if s == s0 {
                assert(syms[slot] == s);
            }
        }
    }
    assert forall|a: int| 0 <= a < sets.len() implies strictly_increasing(#[trigger] sets[a]@)
        && sets[a]@.to_set() == moves_before(g, point, syms[a], i, j + 1) by {
        lemma_walk_edge(g, point, syms[a], i, j);
        if a == slot {
            if syms_before.contains(s0) {
            } else {
                lemma_walk_edge(g, point, s0, i, j);
                assert(!has_move_before(g, point, s0, i, j));
                assert(moves_before(g, point, s0, i, j) =~= Set::<u64>::empty());
                assert(sets_slotted[slot]@.to_set() =~= Set::<u64>::empty());
            }
        } else {
            assert(sets[a] == sets_slotted[a]);
            assert(a < syms_before.len());
            assert(syms[a] == syms_before[a]);
            if syms[a] == s0 {
                assert(syms[slot] == s0);
                assert(false);
            }
        }
    }
    assert forall|a: int, b: int| 0 <= a < b < syms.len() implies met_before(
        g,
        point,
        #[trigger] syms[a],
        #[trigger] syms[b],
    ) by {
        if b < syms_before.len() {
            assert(syms[a] == syms_before[a] && syms[b] == syms_before[b]);
        } else {
            assert(syms[a] == syms_before[a]);
            assert(syms_before.contains(syms_before[a]));
            assert(has_move_before(g, point, syms[a], i, j));
            let (i2, j2) = choose|i2: int, j2: int| #[trigger]
                labelled_edge(g, point, syms[a], i2, j2) && walked(
                    i,
                    j,
                    i2,
                    j2,
                );
            assert(!has_move_before(g, point, s0, i, j));
            if has_move_before(g, point, s0, i2, j2) {
                let (i3, j3) = choose|i3: int, j3: int| #[trigger]
                    labelled_edge(g, point, s0, i3, j3) && walked(
                        i2,
                        j2,
                        i3,
                        j3,
                    );
                assert(labelled_edge(g, point, s0, i3, j3)
                    && walked(i, j, i3, j3));
            }
        }
    }
    if !syms_before.contains(s0) {
        assert forall|x: int, y: int|
            0 <= x < syms.len() && 0 <= y < syms.len() && x != y implies syms[x] != syms[y] by {
            if x < syms_before.len() && y < syms_before.len() {
                assert(syms_before[x] != syms_before[y]);
            } else if x < syms_before.len() {
                assert(syms_before.contains(syms_before[x]));
            } else if y < syms_before.len() {
                assert(syms_before.contains(syms_before[y]));
            }
        }
    }
}

/// How `symbol_slot` changes the accumulators: they are untouched if the
/// symbol `s` has a slot already, and get a new, empty slot at the end if
/// not.
spec fn slotted(
    syms_before: Seq<Token>,
    sets_before: Seq<Vec<u64>>,
    syms: Seq<Token>,
    sets: Seq<Vec<u64>>,
    s: Token,
    slot: int,
) -> bool {
    &&& 0 <= slot < syms.len()
    &&& syms[slot] == s
    &&& syms.len() == sets.len()
    &&& if syms_before.contains(s) {
        syms == syms_before && sets == sets_before
    } else {
        &&& slot == syms_before.len()
        &&& syms == syms_before.push(s)
        &&& sets.len() == sets_before.len() + 1
        &&& forall|a: int| 0 <= a < sets_before.len() ==> #[trigger] sets[a] == sets_before[a]
        &&& sets[slot]@ == Seq::<u64>::empty()
    }
}

/// The slot of the accumulator for `s`, which is added, empty, if the
/// symbol has not been met before.
fn symbol_slot(syms: &mut Vec<Token>, sets: &mut Vec<Vec<u64>>, s: Token) -> (slot: usize)
    requires
        old(syms)@.len() == old(sets)@.len(),
    ensures
        slotted(old(syms)@, old(sets)@, final(syms)@, final(sets)@, s, slot as int),
{
    let ghost syms_before = syms@;
    let ghost sets_before = sets@;
    let mut a: usize = 0;
    while a < syms.len()
        invariant
            a <= syms.len(),
            syms@ == syms_before,
            sets@ == sets_before,
            syms_before == old(syms)@,
            sets_before == old(sets)@,
            syms_before.len() == sets_before.len(),
            forall|b: int| 0 <= b < a ==> syms@[b] != s,
        decreases syms.len() - a,
    {
        if syms[a] == s {
            assert(syms_before.contains(s));
            return a;
        }
        a += 1;
    }
    assert(!syms_before.contains(s));
    syms.push(s);
    sets.push(Vec::new());
    a
}

} // verus!
