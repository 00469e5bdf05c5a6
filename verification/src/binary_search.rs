//! Binary search over a sorted vector, in a recursive and an iterative form.

use vstd::prelude::*;

use crate::order::sorted;

verus! {

/// Searches `a[left..right)` for `key`; returns an index holding `key`, or
/// `None` exactly when the window holds no `key`.
pub fn binary_search(a: &Vec<i64>, key: i64, left: usize, right: usize) -> (r: Option<usize>)
    requires
        sorted(a@),
        right <= a@.len(),
    ensures
        match r {
            Some(i) => left <= i < right && a@[i as int] == key,
            None => forall|i: int| left <= i < right ==> a@[i] != key,
        },
    decreases right - left,
{
    if left >= right {
        return None;
    }
    let middle_idx = left + (right - left) / 2;
    if a[middle_idx] > key {
        binary_search(a, key, left, middle_idx)
    } else if a[middle_idx] < key {
        binary_search(a, key, middle_idx + 1, right)
    } else {
        Some(middle_idx)
    }
}

/// Searches the whole of `a` for `key`; returns an index holding `key`, or
/// `None` exactly when `a` holds no `key`.
pub fn binary_search2(a: &Vec<i64>, key: i64) -> (r: Option<usize>)
    requires
        sorted(a@),
    ensures
        match r {
            Some(i) => i < a@.len() && a@[i as int] == key,
            None => forall|i: int| 0 <= i < a@.len() ==> a@[i] != key,
        },
{
    let mut left: usize = 0;
    let mut right: usize = a.len();
    while left < right
        invariant
            sorted(a@),
            left <= right <= a@.len(),
            forall|i: int| 0 <= i < left ==> a@[i] != key,
            forall|i: int| right <= i < a@.len() ==> a@[i] != key,
        decreases right - left,
    {
        let middle_idx = left + (right - left) / 2;
        if a[middle_idx] == key {
            return Some(middle_idx);
        } else if a[middle_idx] < key {
            left = middle_idx + 1;
        } else {
            right = middle_idx;
        }
    }
    None
}

} // verus!
