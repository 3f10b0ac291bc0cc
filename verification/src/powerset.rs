//! The number of subsets of a finite set.

use vstd::arithmetic::power2::{lemma2_to64, lemma_pow2_unfold, pow2};
use vstd::prelude::*;
use vstd::relations::injective_on;
use vstd::set_lib::{lemma_map_size, lemma_set_disjoint_lens};

verus! {

/// The sets of ids that lie inside `s`.
pub open spec fn subsets(s: Set<u64>) -> Set<Set<u64>> {
    Set::new(|t: Set<u64>| t.subset_of(s))
}

/// A finite set of `n` ids has exactly two to the `n` subsets.
pub proof fn lemma_subsets_len(s: Set<u64>)
    requires
        s.finite(),
    ensures
        subsets(s).finite(),
        subsets(s).len() == pow2(s.len()),
    decreases s.len(),
{
    broadcast use vstd::set::group_set_axioms;

    if s.len() == 0 {
        assert(s =~= Set::<u64>::empty());
        let only = Set::<Set<u64>>::empty().insert(Set::<u64>::empty());
        assert forall|t: Set<u64>| subsets(s).contains(t) <==> only.contains(t) by {
            if subsets(s).contains(t) {
                assert(t =~= Set::<u64>::empty());
            }
        }
        assert(subsets(s) =~= only);
        lemma2_to64();
    } else {
        let x = s.choose();
        let rest = s.remove(x);
        lemma_subsets_len(rest);
        let without = subsets(rest);
        let with_x = |t: Set<u64>| t.insert(x);
        let with = without.map(with_x);
        assert(injective_on(with_x, without)) by {
            assert forall|a: Set<u64>, b: Set<u64>|
                without.contains(a) && without.contains(b) && #[trigger] with_x(a) == #[trigger] with_x(
                    b,
                ) implies a == b by {
                assert(a.insert(x).remove(x) =~= a);
                assert(b.insert(x).remove(x) =~= b);
            }
        }
        lemma_map_size(without, with, with_x);
        assert(without.disjoint(with)) by {
            assert forall|t: Set<u64>| !(without.contains(t) && with.contains(t)) by {
                if with.contains(t) {
                    let u = choose|u: Set<u64>| without.contains(u) && t == with_x(u);
                    assert(t.contains(x));
                }
            }
        }
        assert forall|t: Set<u64>| subsets(s).contains(t) <==> without.union(with).contains(t) by {
            if subsets(s).contains(t) {
                if t.contains(x) {
                    let u = t.remove(x);
                    assert(u.subset_of(rest));
                    assert(without.contains(u));
                    assert(with_x(u) =~= t);
                    assert(with.contains(t));
                } else {
                    assert(t.subset_of(rest));
                }
            }
            if with.contains(t) {
                let u = choose|u: Set<u64>| without.contains(u) && t == with_x(u);
                assert(t.subset_of(s));
            }
        }
        assert(subsets(s) =~= without.union(with));
        lemma_set_disjoint_lens(without, with);
        lemma_pow2_unfold(s.len());
    }
}

} // verus!
