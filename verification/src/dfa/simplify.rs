//! Minimization of a deterministic automaton by partition refinement.

use super::{copy_ids, node_view, view_of, DFANode, DFANodeType, DfaView, DFA};
use crate::minimize::{
    class_used, classified, holds_class, lemma_first_grouping, lemma_groups_bounded,
    lemma_pair_key_injective, lemma_quotient_accepts, lemma_quotient_minimized,
    lemma_same_signature_reflexive, lemma_same_signature_symmetric,
    lemma_same_signature_transitive, lemma_sorted_signatures, lemma_split, lemma_uniform_stable,
    met_class, minimal, minimized, pair_key, partitions, pass, pass_by, quotient, refined_by,
    refines, same_signature, signature, simplified, simplified_by, sorted_pairs, split, split_by,
    split_step, stable, uniform, first_grouping, Grouping,
};
use crate::sorted::{insert_sorted, strictly_increasing};
use crate::token::Token;
use std::collections::HashMap;
use vstd::prelude::*;
use vstd::std_specs::iter::IteratorSpec;

verus! {

broadcast use vstd::std_specs::hash::group_hash_axioms;

/// The ids of the nodes in increasing order.
fn sorted_keys(nodes: &HashMap<u64, DFANode>) -> (keys: Vec<u64>)
    ensures
        strictly_increasing(keys@),
        keys@.to_set() == nodes@.dom(),
{
    let mut keys: Vec<u64> = Vec::new();
    let ghost all: Seq<u64> = nodes.keys().remaining().unref();
    for key in it: nodes.keys()
        invariant
            it.seq().unref() == all,
            strictly_increasing(keys@),
            forall|y: u64|
                #[trigger] keys@.contains(y) <==> exists|k: int|
                    0 <= k < it.index() && all[k] == y,
        ensures
            strictly_increasing(keys@),
            forall|y: u64| #[trigger] keys@.contains(y) <==> all.contains(y),
    {
        insert_sorted(&mut keys, *key);
        proof {
            let i = it.index() as int;
            assert(all[i] == *key);
        }
    }
    assert(keys@.to_set() =~= all.to_set());
    keys
}

/// Whether the entry `a` comes before the entry `b`: by symbol first,
/// then by group.
fn pair_before(a: (Token, u64), b: (Token, u64)) -> (before: bool)
    ensures
        before == (pair_key(a) < pair_key(b)),
{
    let ka = a.0.order_key();
    let kb = b.0.order_key();
    ka < kb || (ka == kb && a.1 < b.1)
}

/// Puts the entry `x` at its place in a strictly sorted list that does
/// not hold it.
fn insert_pair(v: &mut Vec<(Token, u64)>, x: (Token, u64))
    requires
        sorted_pairs(old(v)@),
        !old(v)@.contains(x),
    ensures
        sorted_pairs(final(v)@),
        final(v)@.to_set() == old(v)@.to_set().insert(x),
        final(v)@.len() == old(v)@.len() + 1,
{
    let ghost before = v@;
    let mut i: usize = 0;
    while i < v.len() && pair_before(v[i], x)
        invariant
            i <= v.len(),
            v@ == before,
            forall|k: int| 0 <= k < i ==> pair_key(v@[k]) < pair_key(x),
        decreases v.len() - i,
    {
        i += 1;
    }
    proof {
        if i < before.len() {
            if pair_key(before[i as int]) == pair_key(x) {
                lemma_pair_key_injective(before[i as int], x);
                assert(before.contains(x));
            }
        }
    }
    v.insert(i, x);
    assert(v@ == before.insert(i as int, x));
    assert forall|a: int, b: int| 0 <= a < b < v@.len() implies pair_key(v@[a]) < pair_key(
        v@[b],
    ) by {
        if b < i {
            assert(v@[a] == before[a] && v@[b] == before[b]);
        } else if b == i {
            assert(v@[a] == before[a]);
        } else if a < i {
            assert(v@[a] == before[a] && v@[b] == before[b - 1]);
            if b - 1 > i {
                assert(pair_key(before[i as int]) < pair_key(before[b - 1]));
            }
        } else if a == i {
            assert(v@[b] == before[b - 1]);
            if b - 1 > i {
                assert(pair_key(before[i as int]) < pair_key(before[b - 1]));
            }
        } else {
            assert(v@[a] == before[a - 1] && v@[b] == before[b - 1]);
        }
    }
    assert forall|y: (Token, u64)| v@.to_set().contains(y) == before.to_set().insert(x).contains(
        y,
    ) by {
        if v@.contains(y) {
            let k = choose|k: int| 0 <= k < v@.len() && v@[k] == y;
            if k < i {
                assert(before[k] == y);
            } else if k > i {
                assert(before[k - 1] == y);
            }
        }
        if before.contains(y) {
            let k = choose|k: int| 0 <= k < before.len() && before[k] == y;
            if k < i {
                assert(v@[k] == y);
            } else {
                assert(v@[k + 1] == y);
            }
        }
        if y == x {
            assert(v@[i as int] == y);
        }
    }
    assert(v@.to_set() =~= before.to_set().insert(x));
}

/// Tells whether two signatures hold the same entries in the same order.
fn same_pairs(a: &Vec<(Token, u64)>, b: &Vec<(Token, u64)>) -> (same: bool)
    ensures
        same == (a@ == b@),
{
    if a.len() != b.len() {
        return false;
    }
    let mut i: usize = 0;
    while i < a.len()
        invariant
            i <= a.len(),
            a.len() == b.len(),
            forall|k: int| 0 <= k < i ==> a@[k] == b@[k],
        decreases a.len() - i,
    {
        let x = a[i];
        let y = b[i];
        if !(x.0 == y.0 && x.1 == y.1) {
            return false;
        }
        i += 1;
    }
    assert(a@ =~= b@);
    true
}

impl DFA {
    /// The signature of the node `id` under the grouping `map`: its edges
    /// with each target replaced by its group, in sorted order.
    fn signature_of(&self, map: &HashMap<u64, u64>, id: u64) -> (sig: Vec<(Token, u64)>)
        requires
            self.wf(),
            self@.nodes.contains_key(id),
            map@.dom() == self@.nodes.dom(),
        ensures
            sorted_pairs(sig@),
            sig@.to_set() == signature(self@, map@, id).to_set(),
    {
        let ghost d = self@;
        let ghost full = signature(d, map@, id);
        let node = self.nodes.get(&id).unwrap();
        let mut sig: Vec<(Token, u64)> = Vec::new();
        let mut j: usize = 0;
        while j < node.edges.len()
            invariant
                d == self@,
                d.wf(),
                d.nodes.contains_key(id),
                map@.dom() == d.nodes.dom(),
                node.edges@ == d.nodes[id].edges,
                full == signature(d, map@, id),
                j <= node.edges.len(),
                sorted_pairs(sig@),
                sig@.to_set() == full.take(j as int).to_set(),
            decreases node.edges.len() - j,
        {
            let edge = node.edges[j];
            assert(d.nodes.contains_key(d.nodes[id].edges[j as int].1));
            assert(map@.dom().contains(edge.1));
            let group = *map.get(&edge.1).unwrap();
            let entry = (edge.0, group);
            proof {
                let a = full.take(j as int);
                let b = full.take(j + 1);
                assert(full[j as int] == entry);
                assert(b =~= a.push(entry));
                if sig@.contains(entry) {
                    assert(a.to_set().contains(entry));
                    let k = choose|k: int| 0 <= k < a.len() && a[k] == entry;
                    assert(full[k] == entry);
                    assert(d.nodes[id].edges[k].0 != d.nodes[id].edges[j as int].0);
                }
                assert forall|y: (Token, u64)| b.to_set().contains(y) == a.to_set().insert(
                    entry,
                ).contains(y) by {
                    if b.contains(y) {
                        let k = choose|k: int| 0 <= k < b.len() && b[k] == y;
                        if k < a.len() {
                            assert(a[k] == y);
                        }
                    }
                    if a.contains(y) {
                        let k = choose|k: int| 0 <= k < a.len() && a[k] == y;
                        assert(b[k] == y);
                    }
                    if y == entry {
                        assert(b[j as int] == y);
                    }
                }
                assert(b.to_set() =~= a.to_set().insert(entry));
            }
            insert_pair(&mut sig, entry);
            j += 1;
        }
        assert(full.take(j as int) =~= full);
        sig
    }
}

/// The lists of a grouping as sequences.
spec fn group_views(groups: Seq<Vec<u64>>) -> Seq<Seq<u64>> {
    Seq::new(groups.len(), |i: int| groups[i]@)
}

/// The grouping that a map of groups and the lists of the groups stand
/// for.
spec fn grouping(map: Map<u64, u64>, groups: Seq<Vec<u64>>) -> Grouping {
    Grouping { part: map, groups: group_views(groups) }
}

/// `y` is one of the first `upto` members and has class `c`.
spec fn picked(members: Seq<u64>, class_of: Seq<usize>, c: int, upto: int, y: u64) -> bool {
    exists|x: int| 0 <= x < upto && #[trigger] members[x] == y && class_of[x] == c
}

/// The members that have class `c`, in the order of `members`.
fn members_of_class(members: &Vec<u64>, class_of: &Vec<usize>, c: usize) -> (list: Vec<u64>)
    requires
        members@.len() == class_of@.len(),
        strictly_increasing(members@),
    ensures
        holds_class(list@, members@, class_of@, c as int),
{
    let mut list: Vec<u64> = Vec::new();
    let mut x: usize = 0;
    while x < members.len()
        invariant
            x <= members.len(),
            members@.len() == class_of@.len(),
            strictly_increasing(members@),
            strictly_increasing(list@),
            forall|k: int|
                0 <= k < list@.len() ==> picked(
                    members@,
                    class_of@,
                    c as int,
                    x as int,
                    #[trigger] list@[k],
                ),
            forall|x2: int|
                0 <= x2 < x && class_of@[x2] == c ==> list@.contains(#[trigger] members@[x2]),
        decreases members.len() - x,
    {
        if class_of[x] == c {
            let ghost before = list@;
            list.push(members[x]);
            proof {
                assert forall|a: int, b: int| 0 <= a < b < list@.len() implies list@[a]
                    < list@[b] by {
                    if b == before.len() {
                        assert(picked(members@, class_of@, c as int, x as int, before[a]));
                        let x2 = choose|x2: int|
                            0 <= x2 < x && #[trigger] members@[x2] == before[a] && class_of@[x2]
                                == c;
                        assert(members@[x2] < members@[x as int]);
                    } else {
                        assert(before[a] < before[b]);
                    }
                }
                assert forall|k: int| 0 <= k < list@.len() implies picked(
                    members@,
                    class_of@,
                    c as int,
                    x + 1,
                    #[trigger] list@[k],
                ) by {
                    if k < before.len() {
                        assert(picked(members@, class_of@, c as int, x as int, before[k]));
                        let x2 = choose|x2: int|
                            0 <= x2 < x && #[trigger] members@[x2] == before[k] && class_of@[x2]
                                == c;
                        assert(members@[x2] == list@[k]);
                    } else {
                        assert(members@[x as int] == list@[k]);
                    }
                }
                assert forall|x2: int| 0 <= x2 < x + 1 && class_of@[x2] == c implies list@.contains(
                    #[trigger] members@[x2],
                ) by {
                    if x2 < x {
                        assert(before.contains(members@[x2]));
                        let k = choose|k: int| 0 <= k < before.len() && before[k] == members@[x2];
                        assert(list@[k] == members@[x2]);
                    } else {
                        assert(list@[before.len() as int] == members@[x2]);
                    }
                }
            }
        } else {
            proof {
                assert forall|k: int| 0 <= k < list@.len() implies picked(
                    members@,
                    class_of@,
                    c as int,
                    x + 1,
                    #[trigger] list@[k],
                ) by {
                    assert(picked(members@, class_of@, c as int, x as int, list@[k]));
                    let x2 = choose|x2: int|
                        0 <= x2 < x && #[trigger] members@[x2] == list@[k] && class_of@[x2] == c;
                    assert(members@[x2] == list@[k]);
                }
            }
        }
        x += 1;
    }
    proof {
        assert forall|y: u64| #[trigger] list@.contains(y) <==> exists|x2: int|
            0 <= x2 < members@.len() && #[trigger] members@[x2] == y && class_of@[x2] == c by {
            if list@.contains(y) {
                let k = choose|k: int| 0 <= k < list@.len() && list@[k] == y;
                assert(picked(members@, class_of@, c as int, x as int, list@[k]));
                let x2 = choose|x2: int|
                    0 <= x2 < x && #[trigger] members@[x2] == list@[k] && class_of@[x2] == c;
                assert(members@[x2] == y);
            }
        }
    }
    list
}

/// Puts every node of `items` into group `group`.
fn assign_group(map: &mut HashMap<u64, u64>, items: &Vec<u64>, group: u64)
    requires
        forall|k: int| 0 <= k < items@.len() ==> old(map)@.contains_key(#[trigger] items@[k]),
    ensures
        final(map)@.dom() == old(map)@.dom(),
        forall|p: u64| !items@.contains(p) ==> #[trigger] final(map)@[p] == old(map)@[p],
        forall|k: int| 0 <= k < items@.len() ==> final(map)@[#[trigger] items@[k]] == group,
{
    let ghost before = map@;
    let mut t: usize = 0;
    while t < items.len()
        invariant
            t <= items.len(),
            map@.dom() == before.dom(),
            forall|k: int| 0 <= k < items@.len() ==> before.contains_key(#[trigger] items@[k]),
            forall|p: u64| !items@.contains(p) ==> #[trigger] map@[p] == before[p],
            forall|k: int| 0 <= k < t ==> map@[#[trigger] items@[k]] == group,
        decreases items.len() - t,
    {
        let ghost mid = map@;
        map.insert(items[t], group);
        proof {
            assert(before.contains_key(items@[t as int]));
            assert(map@.dom() =~= before.dom());
            assert(items@.contains(items@[t as int]));
            assert forall|k: int| 0 <= k < t + 1 implies map@[#[trigger] items@[k]] == group by {
                if k < t {
                    assert(mid[items@[k]] == group);
                }
            }
        }
        t += 1;
    }
}

impl DFA {
    /// Numbers the signatures of `members` under the grouping `map` in
    /// the order in which they are first met, and says how many there are.
    #[verifier::rlimit(50)]
    fn classify(&self, map: &HashMap<u64, u64>, members: &Vec<u64>) -> (classes: (Vec<usize>, usize))
        requires
            self.wf(),
            map@.dom() == self@.nodes.dom(),
            forall|x: int| 0 <= x < members@.len() ==> self@.nodes.contains_key(#[trigger] members@[x]),
        ensures
            classified(self@, map@, members@, classes.0@, classes.1 as int),
            classes.1 == 0 <==> members@.len() == 0,
    {
        let ghost d = self@;
        let ghost part = map@;
        let mut sigs: Vec<Vec<(Token, u64)>> = Vec::new();
        let mut class_of: Vec<usize> = Vec::new();
        let ghost mut reps: Seq<int> = Seq::empty();
        let mut x: usize = 0;
        while x < members.len()
            invariant
                d == self@,
                part == map@,
                self.wf(),
                part.dom() == d.nodes.dom(),
                forall|x: int| 0 <= x < members@.len() ==> d.nodes.contains_key(#[trigger] members@[x]),
                x <= members.len(),
                class_of@.len() == x,
                sigs@.len() == reps.len(),
                sigs@.len() <= x,
                x > 0 ==> sigs@.len() > 0 && class_of@[0] == 0,
                forall|c: int|
                    0 <= c < reps.len() ==> {
                        &&& 0 <= #[trigger] reps[c] < x
                        &&& class_of@[reps[c]] == c
                        &&& sorted_pairs(sigs@[c]@)
                        &&& sigs@[c]@.to_set() == signature(d, part, members@[reps[c]]).to_set()
                    },
                forall|y: int|
                    0 <= y < x ==> 0 <= #[trigger] class_of@[y] < sigs@.len() && same_signature(
                        d,
                        part,
                        members@[y],
                        members@[reps[class_of@[y] as int]],
                    ),
                forall|c1: int, c2: int|
                    0 <= c1 < reps.len() && 0 <= c2 < reps.len() && c1 != c2 ==> !same_signature(
                        d,
                        part,
                        members@[#[trigger] reps[c1]],
                        members@[#[trigger] reps[c2]],
                    ),
                forall|c1: int, c2: int|
                    0 <= c1 < c2 < reps.len() ==> #[trigger] reps[c1] < #[trigger] reps[c2],
                forall|y: int| 0 <= y < x ==> reps[#[trigger] class_of@[y] as int] <= y,
            decreases members.len() - x,
        {
            let sig = self.signature_of(map, members[x]);
            let mut c: usize = 0;
            let mut found = false;
            while c < sigs.len()
                invariant_except_break
                    c <= sigs.len(),
                    !found,
                    forall|c2: int| 0 <= c2 < c ==> (#[trigger] sigs@[c2])@ != sig@,
                ensures
                    c <= sigs.len(),
                    found ==> c < sigs.len() && sigs@[c as int]@ == sig@,
                    !found ==> c == sigs.len() && forall|c2: int|
                        0 <= c2 < c ==> (#[trigger] sigs@[c2])@ != sig@,
                decreases sigs.len() - c,
            {
                if same_pairs(&sigs[c], &sig) {
                    found = true;
                    break ;
                }
                c += 1;
            }
            proof {
                let p = members@[x as int];
                assert forall|c2: int| 0 <= c2 < reps.len() implies (sigs@[c2]@ == sig@
                    <==> same_signature(d, part, members@[#[trigger] reps[c2]], p)) by {
                    lemma_sorted_signatures(d, part, members@[reps[c2]], p, sigs@[c2]@, sig@);
                }
                if found {
                    assert(same_signature(d, part, members@[reps[c as int]], p));
                    lemma_same_signature_symmetric(d, part, members@[reps[c as int]], p);
                }
            }
            let ghost old_class = class_of@;
            let ghost old_reps = reps;
            if !found {
                sigs.push(sig);
                proof {
                    reps = reps.push(x as int);
                }
            }
            class_of.push(c);
            proof {
                let p = members@[x as int];
                lemma_same_signature_reflexive(d, part, p);
                assert forall|c0: int| 0 <= c0 < reps.len() implies {
                    &&& 0 <= #[trigger] reps[c0] < x + 1
                    &&& class_of@[reps[c0]] == c0
                    &&& sorted_pairs(sigs@[c0]@)
                    &&& sigs@[c0]@.to_set() == signature(d, part, members@[reps[c0]]).to_set()
                } by {
                    if c0 < old_reps.len() {
                        assert(reps[c0] == old_reps[c0]);
                        assert(class_of@[reps[c0]] == old_class[old_reps[c0]]);
                    }
                }
                assert forall|y: int| 0 <= y < x + 1 implies 0 <= #[trigger] class_of@[y]
                    < sigs@.len() && same_signature(
                    d,
                    part,
                    members@[y],
                    members@[reps[class_of@[y] as int]],
                ) by {
                    if y < x {
                        assert(class_of@[y] == old_class[y]);
                        assert(reps[old_class[y] as int] == old_reps[old_class[y] as int]);
                    }
                }
                assert forall|c1: int, c2: int|
                    0 <= c1 < reps.len() && 0 <= c2 < reps.len() && c1 != c2 implies !same_signature(
                    d,
                    part,
                    members@[#[trigger] reps[c1]],
                    members@[#[trigger] reps[c2]],
                ) by {
                    if c1 < old_reps.len() && c2 < old_reps.len() {
                        assert(reps[c1] == old_reps[c1] && reps[c2] == old_reps[c2]);
                    } else if c1 < old_reps.len() {
                        assert(reps[c1] == old_reps[c1]);
                        assert(sigs@[c1]@ != sig@);
                    } else {
                        assert(reps[c2] == old_reps[c2]);
                        assert(sigs@[c2]@ != sig@);
                        if same_signature(d, part, p, members@[reps[c2]]) {
                            lemma_same_signature_symmetric(d, part, p, members@[reps[c2]]);
                        }
                    }
                }
            }
            x += 1;
        }
        proof {
            let count = sigs@.len() as int;
            assert forall|c: int| 0 <= c < count implies #[trigger] class_used(class_of@, c) by {
                assert(class_of@[reps[c]] == c);
            }
            assert forall|x1: int, c: int|
                0 <= x1 < members@.len() && 0 <= c < class_of@[x1] implies #[trigger] met_class(
                class_of@,
                x1,
                c,
            ) by {
                assert(reps[c] < reps[class_of@[x1] as int]);
                assert(class_of@[reps[c]] == c);
            }
            assert forall|x1: int, y1: int|
                0 <= x1 < members@.len() && 0 <= y1 < members@.len() implies (#[trigger] class_of@[x1]
                == #[trigger] class_of@[y1] <==> same_signature(
                d,
                part,
                members@[x1],
                members@[y1],
            )) by {
                let cx = class_of@[x1] as int;
                let cy = class_of@[y1] as int;
                let px = members@[x1];
                let py = members@[y1];
                let rx = members@[reps[cx]];
                let ry = members@[reps[cy]];
                assert(same_signature(d, part, px, rx));
                assert(same_signature(d, part, py, ry));
                lemma_same_signature_symmetric(d, part, px, rx);
                lemma_same_signature_symmetric(d, part, py, ry);
                if cx == cy {
                    lemma_same_signature_transitive(d, part, px, rx, py);
                } else if same_signature(d, part, px, py) {
                    lemma_same_signature_transitive(d, part, rx, px, py);
                    lemma_same_signature_transitive(d, part, rx, py, ry);
                }
            }
        }
        (class_of, sigs.len())
    }
}

impl DFA {
    /// Splits group `i` by signature: the members that have the signature
    /// met first stay, and the members of each other signature form a new
    /// group at the end of the list, in the order in which the signatures
    /// are first met.
    #[verifier::rlimit(50)]
    fn split_group(&self, groups: &mut Vec<Vec<u64>>, map: &mut HashMap<u64, u64>, i: usize)
        requires
            self.wf(),
            i < old(groups)@.len(),
            partitions(self@, old(map)@, group_views(old(groups)@)),
            refines(self@, old(map)@),
        ensures
            split_step(
                self@,
                grouping(old(map)@, old(groups)@),
                i as int,
                grouping(final(map)@, final(groups)@),
            ),
            partitions(self@, final(map)@, group_views(final(groups)@)),
            refines(self@, final(map)@),
            final(groups)@.len() >= old(groups)@.len(),
            final(groups)@.len() == old(groups)@.len() ==> final(map)@ == old(map)@ && group_views(
                final(groups)@,
            ) == group_views(old(groups)@) && uniform(self@, old(map)@, old(groups)@[i as int]@),
            forall|j: int|
                old(groups)@.len() <= j < final(groups)@.len()
                    ==> (#[trigger] final(groups)@[j])@.len() > 0,
            forall|j: int|
                0 <= j < old(groups)@.len() && old(groups)@[j]@.len() > 0
                    ==> (#[trigger] final(groups)@[j])@.len() > 0,
    {
        let ghost d = self@;
        let ghost part = map@;
        let ghost gv = group_views(groups@);
        let members = copy_ids(&groups[i]);
        proof {
            assert(members@ == gv[i as int]);
            assert(strictly_increasing(gv[i as int]));
            assert forall|x: int| 0 <= x < members@.len() implies d.nodes.contains_key(
                #[trigger] members@[x],
            ) by {
                assert(d.nodes.contains_key(gv[i as int][x]));
            }
        }
        let (class_of, count) = self.classify(map, &members);
        if count <= 1 {
            proof {
                assert forall|x: int, y: int|
                    0 <= x < members@.len() && 0 <= y < members@.len() implies same_signature(
                    d,
                    part,
                    #[trigger] members@[x],
                    #[trigger] members@[y],
                ) by {
                    assert(class_of@[x] == class_of@[y]);
                }
                assert(split_by(
                    d,
                    grouping(part, groups@),
                    i as int,
                    grouping(map@, groups@),
                    class_of@,
                    count as int,
                ));
            }
            return ;
        }
        let base = groups.len();
        let keep = members_of_class(&members, &class_of, 0);
        groups[i] = keep;
        let mut c: usize = 1;
        while c < count
            invariant
                d == self@,
                self.wf(),
                1 <= c <= count,
                i < base,
                base == gv.len(),
                members@ == gv[i as int],
                members@.len() == class_of@.len(),
                strictly_increasing(members@),
                forall|x: int| 0 <= x < members@.len() ==> 0 <= #[trigger] class_of@[x] < count,
                forall|x: int|
                    0 <= x < members@.len() ==> part.contains_key(#[trigger] members@[x]),
                groups@.len() == base + c - 1,
                forall|j: int| 0 <= j < base && j != i ==> (#[trigger] groups@[j])@ == gv[j],
                holds_class(groups@[i as int]@, members@, class_of@, 0),
                forall|j: int|
                    base <= j < groups@.len() ==> holds_class(
                        (#[trigger] groups@[j])@,
                        members@,
                        class_of@,
                        j - base + 1,
                    ),
                map@.dom() == part.dom(),
                forall|p: u64| !members@.contains(p) ==> #[trigger] map@[p] == part[p],
                forall|x: int|
                    0 <= x < members@.len() ==> #[trigger] map@[members@[x]] == if 1
                        <= class_of@[x] < c {
                        base + class_of@[x] - 1
                    } else {
                        i as int
                    },
            decreases count - c,
        {
            let newg = members_of_class(&members, &class_of, c);
            let idx = groups.len();
            let ghost mid = map@;
            let ghost groups_mid = groups@;
            proof {
                assert forall|k: int| 0 <= k < newg@.len() implies map@.contains_key(
                    #[trigger] newg@[k],
                ) by {
                    assert(newg@.contains(newg@[k]));
                }
            }
            assign_group(map, &newg, idx as u64);
            groups.push(newg);
            proof {
                assert forall|p: u64| !members@.contains(p) implies #[trigger] map@[p]
                    == part[p] by {
                    if newg@.contains(p) {
                    }
                    assert(map@[p] == mid[p]);
                }
                assert forall|x: int| 0 <= x < members@.len() implies #[trigger] map@[members@[x]]
                    == if 1 <= class_of@[x] < c + 1 {
                    base + class_of@[x] - 1
                } else {
                    i as int
                } by {
                    let p = members@[x];
                    if class_of@[x] == c {
                        assert(newg@.contains(p));
                        let k = choose|k: int| 0 <= k < newg@.len() && newg@[k] == p;
                        assert(map@[newg@[k]] == idx);
                    } else {
                        if newg@.contains(p) {
                            let x2 = choose|x2: int|
                                0 <= x2 < members@.len() && #[trigger] members@[x2] == p
                                    && class_of@[x2] == c;
                            if x2 < x {
                                assert(members@[x2] < members@[x]);
                            } else if x < x2 {
                                assert(members@[x] < members@[x2]);
                            }
                        }
                        assert(map@[p] == mid[p]);
                    }
                }
                assert forall|j: int| 0 <= j < base && j != i implies (#[trigger] groups@[j])@
                    == gv[j] by {
                    assert(groups@[j] == groups_mid[j]);
                }
                assert(groups@[i as int] == groups_mid[i as int]);
                assert forall|j: int| base <= j < groups@.len() implies holds_class(
                    (#[trigger] groups@[j])@,
                    members@,
                    class_of@,
                    j - base + 1,
                ) by {
                    if j < groups_mid.len() {
                        assert(groups@[j] == groups_mid[j]);
                    }
                }
            }
            c += 1;
        }
        let total = groups.len();
        proof {
            let gv2 = group_views(groups@);
            assert(split(part, gv, map@, gv2, i as int, class_of@, count as int));
            lemma_split(d, part, gv, map@, gv2, i as int, class_of@, count as int);
            assert(split_by(
                d,
                Grouping { part, groups: gv },
                i as int,
                grouping(map@, groups@),
                class_of@,
                count as int,
            ));
            assert forall|j: int| base <= j < groups@.len() implies (#[trigger] groups@[j])@.len()
                > 0 by {
                assert(gv2[j].len() > 0);
            }
            assert forall|j: int| 0 <= j < base && gv[j].len() > 0 implies (#[trigger] groups@[j])@.len()
                > 0 by {
                assert(gv2[j].len() > 0);
            }
        }
    }

    /// The node that stands for the group `members`, with id `id`: it
    /// accepts if a member accepts, and has the edges of the first member
    /// with each target replaced by its group. The second result says
    /// whether the start node is a member.
    fn build_node(&self, map: &HashMap<u64, u64>, members: &Vec<u64>, id: u64) -> (built: (
        DFANode,
        bool,
    ))
        requires
            self.wf(),
            map@.dom() == self@.nodes.dom(),
            members@.len() > 0,
            forall|x: int| 0 <= x < members@.len() ==> self@.nodes.contains_key(#[trigger] members@[x]),
        ensures
            built.0.nodeid == id,
            built.0.edges@ == signature(self@, map@, members@[0]),
            built.0.nodetype == DFANodeType::Terminal <==> exists|x: int|
                0 <= x < members@.len() && self@.nodes[#[trigger] members@[x]].accepting,
            built.1 == members@.contains(self@.start),
    {
        let ghost d = self@;
        let mut nodetype = DFANodeType::NonTerminal;
        let mut holds_start = false;
        let mut x: usize = 0;
        while x < members.len()
            invariant
                d == self@,
                x <= members.len(),
                forall|x: int| 0 <= x < members@.len() ==> d.nodes.contains_key(#[trigger] members@[x]),
                nodetype == DFANodeType::Terminal <==> exists|x2: int|
                    0 <= x2 < x && d.nodes[#[trigger] members@[x2]].accepting,
                holds_start <==> exists|x2: int| 0 <= x2 < x && #[trigger] members@[x2] == d.start,
            decreases members.len() - x,
        {
            let item = members[x];
            if self.is_accepting(item) {
                nodetype = DFANodeType::Terminal;
            }
            if item == self.start {
                holds_start = true;
            }
            x += 1;
        }
        let mut node = DFANode::new(id, nodetype);
        let first = self.nodes.get(&members[0]).unwrap();
        let ghost full = signature(d, map@, members@[0]);
        let mut j: usize = 0;
        while j < first.edges.len()
            invariant
                d == self@,
                d.wf(),
                map@.dom() == d.nodes.dom(),
                d.nodes.contains_key(members@[0]),
                first.edges@ == d.nodes[members@[0]].edges,
                full == signature(d, map@, members@[0]),
                j <= first.edges.len(),
                node.nodeid == id,
                node.nodetype == nodetype,
                node.edges@ == full.take(j as int),
            decreases first.edges.len() - j,
        {
            let edge = first.edges[j];
            assert(d.nodes.contains_key(d.nodes[members@[0]].edges[j as int].1));
            assert(map@.dom().contains(edge.1));
            let group = *map.get(&edge.1).unwrap();
            node.push(edge.0, group);
            assert(full.take(j + 1) =~= full.take(j as int).push((edge.0, group)));
            j += 1;
        }
        assert(full.take(j as int) =~= full);
        (node, holds_start)
    }

    /// Merges the nodes that no input tells apart. The nodes are first
    /// grouped into accepting and other nodes; then, pass by pass, each
    /// group is split by the signatures of its members until a pass
    /// splits none. Each group that is left becomes one node, with the
    /// group's index as its id and the group as its point.
    #[verifier::rlimit(50)]
    pub fn simplifier(&mut self)
        requires
            old(self).wf(),
        ensures
            final(self).wf(),
            simplified(old(self)@, final(self)@),
            minimized(old(self)@, final(self)@),
            forall|input: Seq<Token>| #[trigger]
                final(self)@.accepts(input) == old(self)@.accepts(input),
            minimal(final(self)@),
            minimal(old(self)@) ==> final(self)@.nodes.dom().len() == old(self)@.nodes.dom().len(),
    {
        let ghost d = self@;
        let keys = sorted_keys(&self.nodes);
        let mut groups: Vec<Vec<u64>> = Vec::new();
        let mut map: HashMap<u64, u64> = HashMap::new();
        groups.push(Vec::new());
        groups.push(Vec::new());
        let mut x: usize = 0;
        proof {
            assert(d.nodes.dom() =~= self.nodes@.dom());
        }
        while x < keys.len()
            invariant
                d == self@,
                x <= keys.len(),
                strictly_increasing(keys@),
                keys@.to_set() == d.nodes.dom(),
                groups@.len() == 2,
                forall|p: u64| map@.contains_key(p) <==> exists|k: int| 0 <= k < x && keys@[k] == p,
                forall|p: u64|
                    map@.contains_key(p) ==> #[trigger] map@[p] == if d.nodes[p].accepting {
                        0u64
                    } else {
                        1u64
                    },
                forall|j: int, k: int|
                    0 <= j < 2 && 0 <= k < groups@[j]@.len() ==> map@.contains_key(
                        #[trigger] groups@[j]@[k],
                    ) && map@[groups@[j]@[k]] == j,
                forall|p: u64| map@.contains_key(p) ==> groups@[map@[p] as int]@.contains(p),
                forall|j: int| 0 <= j < 2 ==> strictly_increasing(#[trigger] groups@[j]@),
            decreases keys.len() - x,
        {
            let key = keys[x];
            let ghost groups_before = groups@;
            let ghost map_before = map@;
            assert(keys@.to_set().contains(key));
            let side: usize = if self.is_accepting(key) {
                0
            } else {
                1
            };
            groups[side].push(key);
            map.insert(key, side as u64);
            proof {
                let other = 1 - side as int;
                assert(groups@[other] == groups_before[other]);
                assert(groups@[side as int]@ == groups_before[side as int]@.push(key));
                assert forall|p: u64| map@.contains_key(p) <==> exists|k: int|
                    0 <= k < x + 1 && keys@[k] == p by {
                    if map_before.contains_key(p) {
                        let k = choose|k: int| 0 <= k < x && keys@[k] == p;
                        assert(0 <= k < x + 1 && keys@[k] == p);
                    }
                    if p == key {
                        assert(keys@[x as int] == p);
                    }
                }
                assert forall|j: int, k: int|
                    0 <= j < 2 && 0 <= k < groups@[j]@.len() implies map@.contains_key(
                    #[trigger] groups@[j]@[k],
                ) && map@[groups@[j]@[k]] == j by {
                    if j == side && k == groups_before[j]@.len() {
                    } else {
                        assert(groups@[j]@[k] == groups_before[j]@[k]);
                        assert(map_before.contains_key(groups_before[j]@[k]));
                        let k2 = choose|k2: int| 0 <= k2 < x && keys@[k2] == groups_before[j]@[k];
                        assert(keys@[k2] < keys@[x as int]);
                    }
                }
                assert forall|p: u64| map@.contains_key(p) implies groups@[map@[p] as int]@.contains(
                    p,
                ) by {
                    if p == key {
                        assert(groups@[side as int]@[groups_before[side as int]@.len() as int]
                            == p);
                    } else {
                        let j = map_before[p] as int;
                        assert(groups_before[j]@.contains(p));
                        let k = choose|k: int|
                            0 <= k < groups_before[j]@.len() && groups_before[j]@[k] == p;
                        assert(groups@[j]@[k] == p);
                    }
                }
                assert forall|j: int| 0 <= j < 2 implies strictly_increasing(
                    #[trigger] groups@[j]@,
                ) by {
                    if j == side {
                        let g = groups@[j]@;
                        let b = groups_before[j]@;
                        assert forall|a1: int, a2: int| 0 <= a1 < a2 < g.len() implies g[a1]
                            < g[a2] by {
                            if a2 == b.len() {
                                assert(map_before.contains_key(groups_before[j]@[a1]));
                                let k2 = choose|k2: int| 0 <= k2 < x && keys@[k2] == b[a1];
                                assert(keys@[k2] < keys@[x as int]);
                            } else {
                                assert(b[a1] < b[a2]);
                            }
                        }
                    }
                }
            }
            x += 1;
        }
        proof {
            assert forall|p: u64| map@.contains_key(p) <==> d.nodes.contains_key(p) by {
                if d.nodes.contains_key(p) {
                    assert(keys@.to_set().contains(p));
                    let k = choose|k: int| 0 <= k < keys@.len() && keys@[k] == p;
                    assert(0 <= k < x && keys@[k] == p);
                }
                if map@.contains_key(p) {
                    let k = choose|k: int| 0 <= k < x && keys@[k] == p;
                    assert(keys@.to_set().contains(keys@[k]));
                }
            }
            assert(map@.dom() =~= d.nodes.dom());
            let gv = group_views(groups@);
            assert forall|j: int, k: int|
                0 <= j < gv.len() && 0 <= k < gv[j].len() implies d.nodes.contains_key(
                #[trigger] gv[j][k],
            ) && map@[gv[j][k]] == j by {
                assert(map@.contains_key(groups@[j]@[k]));
            }
            assert forall|p: u64| d.nodes.contains_key(p) implies (#[trigger] map@[p]) < gv.len()
                && gv[map@[p] as int].contains(p) by {
                assert(map@.contains_key(p));
            }
            assert(partitions(d, map@, gv));
            lemma_first_grouping(d, map@);
            assert forall|p: u64| d.nodes.contains_key(p) implies #[trigger] map@[p]
                == if d.nodes[p].accepting {
                0u64
            } else {
                1u64
            } by {
                assert(map@.contains_key(p));
            }
        }
        let ghost first = grouping(map@, groups@);
        let ghost mut passes: Seq<Grouping> = seq![first];
        let mut pre_size: usize = 0;
        loop
            invariant
                d == self@,
                self.wf(),
                partitions(d, map@, group_views(groups@)),
                refines(d, map@),
                groups@.len() >= 2,
                pre_size <= groups@.len(),
                forall|j: int| 2 <= j < groups@.len() ==> (#[trigger] groups@[j])@.len() > 0,
                pre_size == groups@.len() ==> stable(d, map@),
                first_grouping(d, first),
                passes.len() >= 1,
                passes[0] == first,
                passes.last() == grouping(map@, groups@),
                passes.len() == 1 ==> pre_size == 0,
                passes.len() >= 2 ==> pre_size == passes[passes.len() - 2].groups.len(),
                forall|k: int|
                    0 <= k < passes.len() - 1 ==> pass(d, #[trigger] passes[k], passes[k + 1]),
                forall|k: int|
                    0 <= k < passes.len() - 2 ==> (#[trigger] passes[k]).groups.len() < passes[k
                        + 1].groups.len(),
            ensures
                stable(d, map@),
                refined_by(d, first, grouping(map@, groups@), passes),
            decreases
                2 * (d.nodes.dom().len() + 2 - groups@.len()) + if pre_size == groups@.len() {
                    0int
                } else {
                    1int
                },
        {
            let size = groups.len();
            if size == pre_size {
                break ;
            }
            proof {
                lemma_bounded_views(d, map@, groups@);
            }
            let ghost start = grouping(map@, groups@);
            let ghost mut steps: Seq<Grouping> = seq![start];
            let mut i: usize = 0;
            while i < size
                invariant
                    d == self@,
                    self.wf(),
                    partitions(d, map@, group_views(groups@)),
                    refines(d, map@),
                    2 <= size <= groups@.len(),
                    i <= size,
                    forall|j: int| 2 <= j < groups@.len() ==> (#[trigger] groups@[j])@.len() > 0,
                    groups@.len() == size ==> forall|j: int|
                        0 <= j < i ==> uniform(d, map@, #[trigger] group_views(groups@)[j]),
                    steps.len() == i + 1,
                    steps[0] == start,
                    steps.last() == grouping(map@, groups@),
                    forall|t: int|
                        0 <= t < i ==> split_step(d, #[trigger] steps[t], t, steps[t + 1]),
                decreases size - i,
            {
                let ghost gv_before = group_views(groups@);
                let ghost groups_before = groups@;
                let ghost steps_before = steps;
                self.split_group(&mut groups, &mut map, i);
                proof {
                    steps = steps.push(grouping(map@, groups@));
                    assert forall|t: int| 0 <= t < i + 1 implies split_step(
                        d,
                        #[trigger] steps[t],
                        t,
                        steps[t + 1],
                    ) by {
                        if t < i {
                            assert(steps[t] == steps_before[t]);
                            assert(steps[t + 1] == steps_before[t + 1]);
                        }
                    }
                }
                proof {
                    if groups@.len() == size {
                        assert forall|j: int| 0 <= j < i + 1 implies uniform(
                            d,
                            map@,
                            #[trigger] group_views(groups@)[j],
                        ) by {
                            if j == i {
                                assert(gv_before[i as int] == groups_before[i as int]@);
                            } else {
                                assert(uniform(d, map@, gv_before[j]));
                            }
                        }
                    }
                }
                i += 1;
            }
            proof {
                lemma_bounded_views(d, map@, groups@);
                if groups@.len() == size {
                    lemma_uniform_stable(d, map@, group_views(groups@));
                }
                assert(start.groups.len() == size);
                assert(pass_by(d, start, grouping(map@, groups@), steps));
                let before = passes;
                passes = passes.push(grouping(map@, groups@));
                assert forall|k: int| 0 <= k < passes.len() - 1 implies pass(
                    d,
                    #[trigger] passes[k],
                    passes[k + 1],
                ) by {
                    if k < before.len() - 1 {
                        assert(passes[k] == before[k]);
                        assert(passes[k + 1] == before[k + 1]);
                    } else {
                        assert(passes[k] == start);
                    }
                }
                assert forall|k: int| 0 <= k < passes.len() - 2 implies (#[trigger] passes[k]).groups.len()
                    < passes[k + 1].groups.len() by {
                    assert(passes[k] == before[k]);
                    assert(passes[k + 1] == before[k + 1]);
                    if k == before.len() - 2 {
                        assert(before[k].groups.len() == pre_size);
                    }
                }
                assert(passes[passes.len() - 2] == start);
            }
            pre_size = size;
        }
        let ghost part = map@;
        let ghost gv = group_views(groups@);
        let mut nodes: HashMap<u64, DFANode> = HashMap::new();
        let mut id_to_point: HashMap<u64, Vec<u64>> = HashMap::new();
        let mut start: u64 = 0;
        let mut i: usize = 0;
        while i < groups.len()
            invariant
                d == self@,
                self.wf(),
                part == map@,
                gv == group_views(groups@),
                partitions(d, part, gv),
                refines(d, part),
                i <= groups.len(),
                forall|k: u64|
                    #![trigger nodes@.contains_key(k)]
                    #![trigger id_to_point@.contains_key(k)]
                    (nodes@.contains_key(k) <==> k < i && gv[k as int].len() > 0) && (
                    id_to_point@.contains_key(k) <==> k < i && gv[k as int].len() > 0),
                forall|k: u64|
                    nodes@.contains_key(k) ==> (#[trigger] nodes@[k]).nodeid == k && node_view(
                        nodes@[k],
                    ) == quotient(d, part, gv).nodes[k] && id_to_point@[k]@ == gv[k as int],
                part[d.start] < i ==> start == part[d.start],
            decreases groups.len() - i,
        {
            if groups[i].len() > 0 {
                proof {
                    assert(gv[i as int] == groups@[i as int]@);
                    assert forall|x: int| 0 <= x < groups@[i as int]@.len() implies d.nodes.contains_key(
                        #[trigger] groups@[i as int]@[x],
                    ) by {
                        assert(d.nodes.contains_key(gv[i as int][x]));
                    }
                }
                let (node, holds_start) = self.build_node(&map, &groups[i], i as u64);
                if holds_start {
                    start = i as u64;
                }
                proof {
                    let members = gv[i as int];
                    let first = members[0];
                    assert(d.nodes.contains_key(first) && part[first] == i);
                    if node.nodetype == DFANodeType::Terminal {
                        let x = choose|x: int|
                            0 <= x < members.len() && d.nodes[#[trigger] members[x]].accepting;
                        assert(d.nodes.contains_key(members[x]) && part[members[x]] == i);
                    }
                    if d.nodes[first].accepting {
                        assert(d.nodes[members[0]].accepting);
                    }
                    assert(node_view(node) == quotient(d, part, gv).nodes[i as u64]);
                    assert(d.nodes.contains_key(d.start));
                    if part[d.start] == i {
                        assert(gv[part[d.start] as int].contains(d.start));
                    }
                    if holds_start {
                        let x = choose|x: int| 0 <= x < members.len() && members[x] == d.start;
                        assert(part[members[x]] == i);
                    }
                }
                id_to_point.insert(i as u64, copy_ids(&groups[i]));
                nodes.insert(i as u64, node);
            } else {
                proof {
                    assert(d.nodes.contains_key(d.start));
                    if part[d.start] == i {
                        assert(gv[part[d.start] as int].contains(d.start));
                    }
                }
            }
            i += 1;
        }
        proof {
            let m = view_of(start, nodes@, id_to_point@);
            let q = quotient(d, part, gv);
            assert(d.nodes.contains_key(d.start));
            assert(m.nodes =~= q.nodes);
            assert forall|k: u64| m.points.contains_key(k) implies m.points[k] == q.points[k] by {
                assert(nodes@.contains_key(k));
                assert(nodes@[k].nodeid == k);
            }
            assert(m.points =~= q.points);
            assert(m == q);
            assert(simplified_by(d, m, first, grouping(map@, groups@)));
            lemma_quotient_minimized(d, part, gv);
            assert forall|input: Seq<Token>| #[trigger] q.accepts(input) == d.accepts(input) by {
                lemma_quotient_accepts(d, part, gv, input);
            }
        }
        *self = DFA { start, nodes, id_to_point };
    }
}

/// `lemma_groups_bounded` for the lists of a grouping.
proof fn lemma_bounded_views(d: DfaView, part: Map<u64, u64>, groups: Seq<Vec<u64>>)
    requires
        d.nodes.dom().finite(),
        partitions(d, part, group_views(groups)),
        forall|j: int| 2 <= j < groups.len() ==> (#[trigger] groups[j])@.len() > 0,
    ensures
        groups.len() <= d.nodes.dom().len() + 2,
{
    let gv = group_views(groups);
    assert forall|j: int| 2 <= j < gv.len() implies (#[trigger] gv[j]).len() > 0 by {
        assert(groups[j]@.len() > 0);
    }
    lemma_groups_bounded(d, part, gv);
}

} // verus!
