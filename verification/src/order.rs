//! Shared vocabulary for the order-based routines: sortedness and an
//! in-place swap that provably permutes.

use vstd::prelude::*;

verus! {

/// The elements of `s` stand in ascending order.
pub open spec fn sorted(s: Seq<i64>) -> bool {
    forall|i: int, j: int| 0 <= i <= j < s.len() ==> s[i] <= s[j]
}

/// Swaps the elements at `i` and `j` in place.
pub fn swap_at(v: &mut Vec<i64>, i: usize, j: usize)
    requires
        i < old(v)@.len(),
        j < old(v)@.len(),
    ensures
        final(v)@ == old(v)@.update(i as int, old(v)@[j as int]).update(
            j as int,
            old(v)@[i as int],
        ),
        final(v)@.to_multiset() == old(v)@.to_multiset(),
        final(v)@.len() == old(v)@.len(),
{
    broadcast use vstd::seq_lib::group_to_multiset_ensures;
    broadcast use vstd::multiset::group_multiset_axioms;
    broadcast use vstd::multiset::group_multiset_properties;

    let a = v[i];
    let b = v[j];
    v[i] = b;
    v[j] = a;
    proof {
        assert(v@.to_multiset() =~= old(v)@.to_multiset());
    }
}

} // verus!

verus! {

/// A swap of two positions inside a window permutes the window.
pub proof fn lemma_swap_subrange_multiset(s: Seq<i64>, lo: int, hi: int, i: int, j: int)
    requires
        0 <= lo <= i < hi <= s.len(),
        lo <= j < hi,
    ensures
        s.update(i, s[j]).update(j, s[i]).subrange(lo, hi).to_multiset() == s.subrange(
            lo,
            hi,
        ).to_multiset(),
{
    broadcast use vstd::seq_lib::group_to_multiset_ensures;
    broadcast use vstd::multiset::group_multiset_axioms;
    broadcast use vstd::multiset::group_multiset_properties;

    let sub = s.subrange(lo, hi);
    assert(s.update(i, s[j]).update(j, s[i]).subrange(lo, hi) =~= sub.update(i - lo, sub[j - lo]).update(
        j - lo,
        sub[i - lo],
    ));
    assert(sub.update(i - lo, sub[j - lo]).update(j - lo, sub[i - lo]).to_multiset()
        =~= sub.to_multiset());
}

} // verus!
