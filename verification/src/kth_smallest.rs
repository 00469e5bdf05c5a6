//! Quickselect: the k-th smallest element of a vector, found in place on a
//! scratch copy.

use vstd::prelude::*;
use vstd::multiset::Multiset;

use crate::order::lemma_swap_subrange_multiset;
use crate::order::swap_at;

verus! {

/// A filtered multiset is no larger than the whole, and when every position
/// satisfying `f` lies below `k`, it holds at most `k` elements.
proof fn lemma_filter_le(s: Seq<i64>, f: spec_fn(i64) -> bool, k: int)
    requires
        k >= 0,
        forall|i: int| 0 <= i < s.len() && f(#[trigger] s[i]) ==> i < k,
    ensures
        s.to_multiset().filter(f).len() <= s.len(),
        s.to_multiset().filter(f).len() <= k,
    decreases s.len(),
{
    broadcast use vstd::seq_lib::group_to_multiset_ensures;
    broadcast use vstd::multiset::group_multiset_axioms;
    broadcast use vstd::multiset::group_multiset_properties;

    if s.len() == 0 {
        assert(s.to_multiset().filter(f) =~= Multiset::<i64>::empty());
    } else {
        let s2 = s.drop_last();
        let a = s.last();
        assert(s =~= s2.push(a));
        assert(s.to_multiset() == s2.to_multiset().insert(a));
        if f(a) {
            assert(s.to_multiset().filter(f) =~= s2.to_multiset().filter(f).insert(a));
            lemma_filter_le(s2, f, k);
            assert(s.len() - 1 < k);
        } else {
            assert(s.to_multiset().filter(f) =~= s2.to_multiset().filter(f));
            lemma_filter_le(s2, f, k);
        }
    }
}

/// When every position below `m` satisfies `f`, the filtered multiset holds
/// at least `m` elements.
proof fn lemma_filter_ge(s: Seq<i64>, f: spec_fn(i64) -> bool, m: int)
    requires
        0 <= m <= s.len(),
        forall|i: int| 0 <= i < m ==> f(#[trigger] s[i]),
    ensures
        s.to_multiset().filter(f).len() >= m,
    decreases s.len(),
{
    broadcast use vstd::seq_lib::group_to_multiset_ensures;
    broadcast use vstd::multiset::group_multiset_axioms;
    broadcast use vstd::multiset::group_multiset_properties;

    if s.len() == 0 {
    } else {
        let s2 = s.drop_last();
        let a = s.last();
        assert(s =~= s2.push(a));
        assert(s.to_multiset() == s2.to_multiset().insert(a));
        if f(a) {
            assert(s.to_multiset().filter(f) =~= s2.to_multiset().filter(f).insert(a));
        } else {
            assert(s.to_multiset().filter(f) =~= s2.to_multiset().filter(f));
        }
        if m == s.len() {
            assert(f(a));
            lemma_filter_ge(s2, f, m - 1);
        } else {
            lemma_filter_ge(s2, f, m);
        }
    }
}

/// Moves the middle element of the window to `high` and returns it as the
/// pivot.
fn get_pivot(array: &mut Vec<i64>, low: usize, high: usize) -> (pivot: i64)
    requires
        low <= high < old(array)@.len(),
    ensures
        final(array)@.len() == old(array)@.len(),
        forall|i: int|
            0 <= i < old(array)@.len() && !(low <= i <= high) ==> final(array)@[i] == old(
                array,
            )@[i],
        final(array)@.subrange(low as int, high + 1).to_multiset() == old(array)@.subrange(
            low as int,
            high + 1,
        ).to_multiset(),
        pivot == final(array)@[high as int],
{
    let ghost pre = array@;
    let middle = low + (high - low) / 2;
    swap_at(array, middle, high);
    proof {
        lemma_swap_subrange_multiset(pre, low as int, high + 1, middle as int, high as int);
    }
    array[high]
}

/// Partitions the window around a middle-of-window pivot; afterwards the
/// returned position holds the pivot, with smaller-or-equal elements left of
/// it and strictly greater ones right of it.
fn partition(array: &mut Vec<i64>, low: usize, high: usize) -> (p: usize)
    requires
        low <= high < old(array)@.len(),
    ensures
        low <= p <= high,
        final(array)@.len() == old(array)@.len(),
        forall|i: int|
            0 <= i < old(array)@.len() && !(low <= i <= high) ==> final(array)@[i] == old(
                array,
            )@[i],
        final(array)@.subrange(low as int, high + 1).to_multiset() == old(array)@.subrange(
            low as int,
            high + 1,
        ).to_multiset(),
        forall|i: int| low <= i < p ==> final(array)@[i] <= final(array)@[p as int],
        forall|i: int| p < i <= high ==> final(array)@[i] > final(array)@[p as int],
{
    let ghost pre = array@;
    let pivot = get_pivot(array, low, high);
    let ghost mid0 = array@;
    let mut i = low;
    let mut j = low;
    while j < high
        invariant
            low <= i <= j <= high < array@.len(),
            array@.len() == pre.len(),
            pivot == array@[high as int],
            forall|x: int| 0 <= x < pre.len() && !(low <= x <= high) ==> array@[x] == pre[x],
            array@.subrange(low as int, high + 1).to_multiset() == pre.subrange(
                low as int,
                high + 1,
            ).to_multiset(),
            forall|x: int| low <= x < i ==> array@[x] <= pivot,
            forall|x: int| i <= x < j ==> array@[x] > pivot,
        decreases high - j,
    {
        if array[j] <= pivot {
            let ghost snap = array@;
            swap_at(array, i, j);
            proof {
                lemma_swap_subrange_multiset(snap, low as int, high + 1, i as int, j as int);
            }
            i = i + 1;
        }
        j = j + 1;
    }
    let ghost snap = array@;
    swap_at(array, i, high);
    proof {
        lemma_swap_subrange_multiset(snap, low as int, high + 1, i as int, high as int);
    }
    i
}

/// Rearranges the window so that position `order` holds the element that a
/// full sort would put there, and returns that element.
fn select(array: &mut Vec<i64>, low: usize, high: usize, order: usize) -> (r: i64)
    requires
        low <= order <= high < old(array)@.len(),
    ensures
        final(array)@.len() == old(array)@.len(),
        forall|i: int|
            0 <= i < old(array)@.len() && !(low <= i <= high) ==> final(array)@[i] == old(
                array,
            )@[i],
        final(array)@.subrange(low as int, high + 1).to_multiset() == old(array)@.subrange(
            low as int,
            high + 1,
        ).to_multiset(),
        r == final(array)@[order as int],
        forall|i: int| low <= i < order ==> final(array)@[i] <= r,
        forall|i: int| order < i <= high ==> final(array)@[i] >= r,
    decreases high - low,
{
    broadcast use vstd::seq_lib::group_to_multiset_ensures;

    if low < high {
        let ghost pre = array@;
        let p = partition(array, low, high);
        let ghost mid1 = array@;
        let ghost pv = mid1[p as int];
        if p == order {
            array[p]
        } else if p < order {
            let r = select(array, p + 1, high, order);
            proof {
                let fin = array@;
                assert(fin[p as int] == pv);
                assert forall|i: int| low <= i < order implies fin[i] <= r by {
                    if i <= p {
                        assert(fin[i] == mid1[i]);
                        assert(mid1[i] <= pv || i == p);
                        assert(pv < r) by {
                            assert(fin[order as int] == r);
                            let rsub = fin.subrange(p + 1, high + 1);
                            assert(rsub[order - p - 1] == r);
                            assert(rsub.to_multiset().count(r) > 0);
                            assert(mid1.subrange(p + 1, high + 1).to_multiset().count(r) > 0);
                            assert(mid1.subrange(p + 1, high + 1).contains(r));
                            let w = choose|w: int|
                                0 <= w < high - p && #[trigger] mid1.subrange(p + 1, high + 1)[w]
                                    == r;
                            assert(mid1[p + 1 + w] == r);
                        }
                    }
                }
                lemma_chain_window(
                    pre,
                    mid1,
                    fin,
                    low as int,
                    p as int,
                    high as int,
                    p as int + 1,
                    high as int,
                );
            }
            r
        } else {
            let r = select(array, low, p - 1, order);
            proof {
                let fin = array@;
                assert(fin[p as int] == pv);
                assert forall|i: int| order < i <= high implies fin[i] >= r by {
                    if i >= p {
                        assert(fin[i] == mid1[i]);
                        assert(mid1[i] > pv || i == p);
                        assert(pv >= r) by {
                            assert(fin[order as int] == r);
                            let lsub = fin.subrange(low as int, p as int);
                            assert(lsub[order - low] == r);
                            assert(lsub.to_multiset().count(r) > 0);
                            assert(mid1.subrange(low as int, p as int).to_multiset().count(r) > 0);
                            assert(mid1.subrange(low as int, p as int).contains(r));
                            let w = choose|w: int|
                                0 <= w < p - low && #[trigger] mid1.subrange(low as int, p as int)[w]
                                    == r;
                            assert(mid1[low + w] == r);
                        }
                    }
                }
                lemma_chain_window(
                    pre,
                    mid1,
                    fin,
                    low as int,
                    p as int,
                    high as int,
                    low as int,
                    p as int - 1,
                );
            }
            r
        }
    } else {
        array[low]
    }
}

/// Chains the window permutation of the partition step with that of one
/// recursive call confined to the slots `a..=b` on one side of the pivot.
proof fn lemma_chain_window(pre: Seq<i64>, mid1: Seq<i64>, fin: Seq<i64>, low: int, p: int, high: int, a: int, b: int)
    requires
        0 <= low <= p <= high < pre.len(),
        mid1.len() == pre.len(),
        fin.len() == pre.len(),
        mid1.subrange(low, high + 1).to_multiset() == pre.subrange(low, high + 1).to_multiset(),
        low <= a,
        a <= b + 1,
        b <= high,
        fin.subrange(a, b + 1).to_multiset() == mid1.subrange(a, b + 1).to_multiset(),
        forall|i: int| 0 <= i < pre.len() && !(a <= i <= b) ==> fin[i] == mid1[i],
    ensures
        fin.subrange(low, high + 1).to_multiset() == pre.subrange(low, high + 1).to_multiset(),
{
    broadcast use vstd::seq_lib::group_to_multiset_ensures;
    broadcast use vstd::seq_lib::lemma_multiset_commutative;
    broadcast use vstd::multiset::group_multiset_axioms;

    assert forall|s: Seq<i64>|
        s.len() == pre.len() implies #[trigger] s.subrange(low, high + 1).to_multiset()
        == s.subrange(low, a).to_multiset().add(
        s.subrange(a, b + 1).to_multiset().add(s.subrange(b + 1, high + 1).to_multiset()),
    ) by {
        assert(s.subrange(low, high + 1) =~= s.subrange(low, a) + (s.subrange(a, b + 1)
            + s.subrange(b + 1, high + 1)));
    }
    assert(fin.subrange(low, a) =~= mid1.subrange(low, a));
    assert(fin.subrange(b + 1, high + 1) =~= mid1.subrange(b + 1, high + 1));
}

/// The `k`-th smallest element of `array` (counting from zero): strictly
/// smaller elements number at most `k`, elements not above it number more
/// than `k`, and it occurs in `array`.
pub fn kth_smallest(array: &Vec<i64>, k: usize) -> (r: i64)
    requires
        k < array@.len(),
    ensures
        array@.to_multiset().count(r) > 0,
        array@.to_multiset().filter(|y: i64| y < r).len() <= k,
        array@.to_multiset().filter(|y: i64| y <= r).len() > k,
{
    broadcast use vstd::seq_lib::group_to_multiset_ensures;

    let n = array.len();
    let mut arr: Vec<i64> = Vec::new();
    let mut i: usize = 0;
    while i < n
        invariant
            n == array@.len(),
            i <= n,
            arr@ == array@.take(i as int),
        decreases n - i,
    {
        arr.push(array[i]);
        i = i + 1;
        proof {
            assert(arr@ =~= array@.take(i as int));
        }
    }
    proof {
        assert(array@.take(n as int) =~= array@);
    }
    let r = select(&mut arr, 0, n - 1, k);
    proof {
        assert(arr@.subrange(0, n as int) =~= arr@);
        assert(array@.subrange(0, n as int) =~= array@);
        assert(arr@.to_multiset() == array@.to_multiset());
        assert(arr@.to_multiset().count(r) > 0) by {
            assert(arr@[k as int] == r);
            assert(arr@.contains(r));
        }
        assert forall|i2: int|
            0 <= i2 < arr@.len() && (|y: i64| y < r)(#[trigger] arr@[i2]) implies i2 < k as int by {
            if i2 > k {
                assert(arr@[i2] >= r);
            } else if i2 == k {
                assert(arr@[i2] == r);
            }
        }
        lemma_filter_le(arr@, |y: i64| y < r, k as int);
        assert forall|i2: int| 0 <= i2 < k + 1 implies (|y: i64| y <= r)(#[trigger] arr@[i2]) by {
            if i2 < k {
                assert(arr@[i2] <= r);
            } else {
                assert(arr@[i2] == r);
            }
        }
        lemma_filter_ge(arr@, |y: i64| y <= r, k + 1);
    }
    r
}

} // verus!
