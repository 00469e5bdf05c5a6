//! In-place quicksort over an inclusive index range.

use vstd::prelude::*;

use crate::order::lemma_swap_subrange_multiset;
use crate::order::sorted;
use crate::order::swap_at;

verus! {

/// Partitions `array[low..=high]` around the pivot `array[high]`: afterwards
/// everything left of the returned index is at most the pivot, everything
/// right of it is greater, and the window is a permutation of what it was.
fn partition(array: &mut Vec<i64>, low: usize, high: usize) -> (p: usize)
    requires
        low <= high < old(array)@.len(),
    ensures
        low <= p <= high,
        final(array)@.len() == old(array)@.len(),
        forall|i: int|
            0 <= i < old(array)@.len() && !(low <= i <= high) ==> final(array)@[i] == old(
                array,
            )@[i],
        final(array)@.subrange(low as int, high + 1).to_multiset() == old(array)@.subrange(
            low as int,
            high + 1,
        ).to_multiset(),
        forall|i: int| low <= i < p ==> final(array)@[i] <= final(array)@[p as int],
        forall|i: int| p < i <= high ==> final(array)@[i] > final(array)@[p as int],
{
    let ghost pre = array@;
    let pivot = array[high];
    let mut cur = low;
    let mut idx = low;
    while idx < high
        invariant
            low <= cur <= idx <= high < array@.len(),
            array@.len() == pre.len(),
            pivot == array@[high as int],
            forall|i: int|
                0 <= i < pre.len() && !(low <= i <= high) ==> array@[i] == pre[i],
            array@.subrange(low as int, high + 1).to_multiset() == pre.subrange(
                low as int,
                high + 1,
            ).to_multiset(),
            forall|i: int| low <= i < cur ==> array@[i] <= pivot,
            forall|i: int| cur <= i < idx ==> array@[i] > pivot,
        decreases high - idx,
    {
        if array[idx] <= pivot {
            let ghost snap = array@;
            swap_at(array, idx, cur);
            proof {
                lemma_swap_subrange_multiset(snap, low as int, high + 1, idx as int, cur as int);
            }
            cur = cur + 1;
        }
        idx = idx + 1;
    }
    let ghost snap = array@;
    swap_at(array, cur, high);
    proof {
        lemma_swap_subrange_multiset(snap, low as int, high + 1, cur as int, high as int);
    }
    cur
}

/// Sorts `array[low..=high]` ascending in place; positions outside the
/// window keep their values, and the window ends up a permutation of what
/// it was.
pub fn quick_sort(array: &mut Vec<i64>, low: usize, high: usize)
    requires
        high < old(array)@.len(),
    ensures
        final(array)@.len() == old(array)@.len(),
        forall|i: int|
            0 <= i < old(array)@.len() && !(low <= i <= high) ==> final(array)@[i] == old(
                array,
            )@[i],
        low <= high + 1 ==> final(array)@.subrange(low as int, high + 1).to_multiset() == old(
            array,
        )@.subrange(low as int, high + 1).to_multiset(),
        low <= high + 1 ==> sorted(final(array)@.subrange(low as int, high + 1)),
    decreases high + 1 - low,
{
    broadcast use vstd::seq_lib::group_to_multiset_ensures;

    let n = array.len();
    if low < high {
        let ghost pre = array@;
        let p = partition(array, low, high);
        let ghost mid1 = array@;
        let ghost pv = mid1[p as int];
        if p > low {
            quick_sort(array, low, p - 1);
        }
        let ghost mid2 = array@;
        proof {
            if p > low {
                assert(mid2.subrange(low as int, p as int).to_multiset() == mid1.subrange(
                    low as int,
                    p as int,
                ).to_multiset());
            } else {
                assert(mid2 =~= mid1);
            }
            assert(mid2[p as int] == pv);
            // elements left of p are still bounded by the pivot
            assert forall|i: int| low <= i < p implies mid2[i] <= pv by {
                let lsub = mid2.subrange(low as int, p as int);
                assert(lsub[i - low] == mid2[i]);
                assert(lsub.to_multiset().count(mid2[i]) > 0);
                assert(mid1.subrange(low as int, p as int).to_multiset().count(mid2[i]) > 0);
                assert(mid1.subrange(low as int, p as int).contains(mid2[i]));
                let w = choose|w: int|
                    0 <= w < p - low && #[trigger] mid1.subrange(low as int, p as int)[w] == mid2[i];
                assert(mid1[low + w] == mid2[i]);
            }
        }
        quick_sort(array, p + 1, high);
        proof {
            let fin = array@;
            assert(fin[p as int] == pv);
            assert forall|i: int| low <= i < p implies fin[i] == mid2[i] by {}
            assert forall|i: int| p < i <= high implies fin[i] > pv by {
                let rsub = fin.subrange(p + 1, high + 1);
                assert(rsub[i - p - 1] == fin[i]);
                assert(rsub.to_multiset().count(fin[i]) > 0);
                assert(mid2.subrange(p + 1, high + 1).to_multiset().count(fin[i]) > 0);
                assert(mid2.subrange(p + 1, high + 1).contains(fin[i]));
                let w = choose|w: int|
                    0 <= w < high - p && #[trigger] mid2.subrange(p + 1, high + 1)[w] == fin[i];
                assert(mid2[p + 1 + w] == fin[i]);
                assert(mid2[p + 1 + w] == mid1[p + 1 + w]);
            }
            // the three pieces line up into a sorted window
            let sub = fin.subrange(low as int, high + 1);
            assert forall|x: int, y: int| 0 <= x <= y < sub.len() implies sub[x] <= sub[y] by {
                let gx = low + x;
                let gy = low + y;
                assert(sub[x] == fin[gx] && sub[y] == fin[gy]);
                if gy < p {
                    assert(fin[gx] == mid2[gx] && fin[gy] == mid2[gy]);
                    let lsub = mid2.subrange(low as int, p as int);
                    assert(lsub == mid2.subrange(low as int, p - 1 + 1));
                    assert(sorted(lsub));
                    assert(lsub[gx - low] == mid2[gx] && lsub[gy - low] == mid2[gy]);
                } else if gx > p {
                    let rsub = fin.subrange(p + 1, high + 1);
                    assert(rsub[gx - p - 1] == fin[gx] && rsub[gy - p - 1] == fin[gy]);
                } else if gx < p && gy == p {
                    assert(fin[gx] <= pv);
                } else if gx == p && gy > p {
                    assert(fin[gy] > pv);
                } else if gx < p && gy > p {
                    assert(fin[gx] <= pv && fin[gy] > pv);
                }
            }
            // window multiset: left + pivot + right compose
            lemma_three_way(pre, mid1, mid2, fin, low as int, p as int, high as int);
        }
    } else {
        proof {
            if low <= high {
                let sub = array@.subrange(low as int, high + 1);
                assert(sub.len() == 1);
            } else if low == high + 1 {
                let sub = array@.subrange(low as int, high + 1);
                assert(sub.len() == 0);
            }
        }
    }
}

/// Chains the window permutations of the partition step and the two
/// recursive sorts into one window permutation.
proof fn lemma_three_way(pre: Seq<i64>, mid1: Seq<i64>, mid2: Seq<i64>, fin: Seq<i64>, low: int, p: int, high: int)
    requires
        0 <= low <= p <= high < pre.len(),
        mid1.len() == pre.len(),
        mid2.len() == pre.len(),
        fin.len() == pre.len(),
        mid1.subrange(low, high + 1).to_multiset() == pre.subrange(low, high + 1).to_multiset(),
        p > low ==> mid2.subrange(low, p).to_multiset() == mid1.subrange(low, p).to_multiset(),
        p == low ==> mid2 == mid1,
        forall|i: int| 0 <= i < pre.len() && !(low <= i <= p - 1) ==> mid2[i] == mid1[i],
        fin.subrange(p + 1, high + 1).to_multiset() == mid2.subrange(p + 1, high + 1).to_multiset(),
        forall|i: int| 0 <= i < pre.len() && !(p + 1 <= i <= high) ==> fin[i] == mid2[i],
    ensures
        fin.subrange(low, high + 1).to_multiset() == pre.subrange(low, high + 1).to_multiset(),
{
    broadcast use vstd::seq_lib::group_to_multiset_ensures;
    broadcast use vstd::seq_lib::lemma_multiset_commutative;
    broadcast use vstd::multiset::group_multiset_axioms;

    // a window splits at p into left, pivot, right
    assert forall|s: Seq<i64>|
        s.len() == pre.len() implies #[trigger] s.subrange(low, high + 1).to_multiset()
        == s.subrange(low, p).to_multiset().add(
        seq![s[p]].to_multiset().add(s.subrange(p + 1, high + 1).to_multiset()),
    ) by {
        assert(s.subrange(low, high + 1) =~= s.subrange(low, p) + (seq![s[p]] + s.subrange(
            p + 1,
            high + 1,
        )));
    }
    if p > low {
        assert(fin.subrange(low, p) =~= mid2.subrange(low, p));
    } else {
        assert(fin.subrange(low, p).to_multiset() =~= mid2.subrange(low, p).to_multiset());
    }
    if p == low {
        assert(mid2.subrange(low, p).to_multiset() =~= mid1.subrange(low, p).to_multiset());
    }
    assert(fin[p] == mid2[p] && mid2[p] == mid1[p]);
    assert(mid2.subrange(p + 1, high + 1) =~= mid1.subrange(p + 1, high + 1));
}

} // verus!
