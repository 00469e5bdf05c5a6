//! Counting how often a key occurs in a sorted vector, by a pair of
//! boundary binary searches.

use vstd::prelude::*;

use crate::order::sorted;

verus! {

/// How many entries of `s` equal `key`.
pub open spec fn count_eq(s: Seq<i64>, key: i64) -> int
    decreases s.len(),
{
    if s.len() == 0 {
        0
    } else {
        count_eq(s.drop_last(), key) + if s.last() == key {
            1int
        } else {
            0int
        }
    }
}

/// When the positions holding `key` are exactly the window `[lo, hi)`, the
/// count is the window's width.
proof fn lemma_count_window(s: Seq<i64>, key: i64, lo: int, hi: int)
    requires
        0 <= lo <= hi <= s.len(),
        forall|i: int| 0 <= i < s.len() ==> (s[i] == key <==> lo <= i < hi),
    ensures
        count_eq(s, key) == hi - lo,
    decreases s.len(),
{
    if s.len() == 0 {
    } else {
        let n = s.len() as int;
        let s2 = s.drop_last();
        assert(forall|i: int| 0 <= i < s2.len() ==> s2[i] == s[i]);
        if lo == hi {
            assert(s.last() != key);
            lemma_count_window(s2, key, 0, 0);
        } else if hi == n {
            assert(s.last() == key);
            lemma_count_window(s2, key, lo, hi - 1);
        } else {
            assert(s.last() != key) by {
                if s.last() == key {
                    assert(lo <= n - 1 < hi);
                }
            }
            assert(hi <= n - 1) by {
                assert(s[hi - 1] == key);
            }
            lemma_count_window(s2, key, lo, hi);
        }
    }
}

/// First index whose element is not below `key`.
fn lower_idx(a: &Vec<i64>, key: i64) -> (r: usize)
    requires
        sorted(a@),
    ensures
        r <= a@.len(),
        forall|i: int| 0 <= i < r ==> a@[i] < key,
        forall|i: int| r <= i < a@.len() ==> a@[i] >= key,
{
    let mut low: usize = 0;
    let mut high: usize = a.len();
    while low < high
        invariant
            sorted(a@),
            low <= high <= a@.len(),
            forall|i: int| 0 <= i < low ==> a@[i] < key,
            forall|i: int| high <= i < a@.len() ==> a@[i] >= key,
        decreases high - low,
    {
        let middle = low + (high - low) / 2;
        if a[middle] < key {
            low = middle + 1;
        } else {
            high = middle;
        }
    }
    low
}

/// First index whose element is above `key`.
fn upper_idx(a: &Vec<i64>, key: i64) -> (r: usize)
    requires
        sorted(a@),
    ensures
        r <= a@.len(),
        forall|i: int| 0 <= i < r ==> a@[i] <= key,
        forall|i: int| r <= i < a@.len() ==> a@[i] > key,
{
    let mut low: usize = 0;
    let mut high: usize = a.len();
    while low < high
        invariant
            sorted(a@),
            low <= high <= a@.len(),
            forall|i: int| 0 <= i < low ==> a@[i] <= key,
            forall|i: int| high <= i < a@.len() ==> a@[i] > key,
        decreases high - low,
    {
        let middle = low + (high - low) / 2;
        if a[middle] > key {
            high = middle;
        } else {
            low = middle + 1;
        }
    }
    low
}

/// How many entries of the sorted vector `array` equal `key`.
pub fn cnt_occurrences(array: &Vec<i64>, key: i64) -> (r: usize)
    requires
        sorted(array@),
    ensures
        r == count_eq(array@, key),
{
    let lo = lower_idx(array, key);
    let hi = upper_idx(array, key);
    proof {
        assert(lo <= hi) by {
            if lo > hi {
                assert(array@[hi as int] > key);
                assert(array@[hi as int] < key);
            }
        }
        assert forall|i: int| 0 <= i < array@.len() implies (array@[i] == key <==> lo <= i
            < hi) by {
            if i < lo {
                assert(array@[i] < key);
            } else if i < hi {
                assert(array@[i] >= key && array@[i] <= key);
            } else {
                assert(array@[i] > key);
            }
        }
        lemma_count_window(array@, key, lo as int, hi as int);
    }
    hi - lo
}

} // verus!
