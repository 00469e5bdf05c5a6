//! In-place insertion sort.

use vstd::prelude::*;

use crate::order::sorted;
use crate::order::swap_at;

verus! {

/// Sorts `array` ascending in place; the result is a permutation of the
/// input.
pub fn insertion_sort(array: &mut Vec<i64>)
    ensures
        sorted(final(array)@),
        final(array)@.to_multiset() == old(array)@.to_multiset(),
        final(array)@.len() == old(array)@.len(),
{
    let n = array.len();
    if n == 0 {
        return ;
    }
    let mut idx: usize = 1;
    while idx < n
        invariant
            n == array@.len(),
            1 <= idx <= n,
            sorted(array@.take(idx as int)),
            array@.to_multiset() == old(array)@.to_multiset(),
        decreases n - idx,
    {
        let mut y = idx;
        proof {
            assert forall|i: int, j: int| 0 <= i <= j <= idx && j != idx implies array@[i]
                <= array@[j] by {
                assert(array@.take(idx as int)[i] == array@[i]);
                assert(array@.take(idx as int)[j] == array@[j]);
            }
        }
        while y > 0 && array[y] < array[y - 1]
            invariant
                n == array@.len(),
                idx < n,
                0 <= y <= idx,
                array@.to_multiset() == old(array)@.to_multiset(),
                forall|i: int, j: int|
                    0 <= i <= j <= idx && j != y ==> array@[i] <= array@[j],
            decreases y,
        {
            swap_at(array, y, y - 1);
            y = y - 1;
        }
        idx = idx + 1;
        proof {
            assert forall|i: int, j: int| 0 <= i <= j < idx implies array@.take(idx as int)[i]
                <= array@.take(idx as int)[j] by {
                assert(array@.take(idx as int)[i] == array@[i]);
                assert(array@.take(idx as int)[j] == array@[j]);
            }
        }
    }
    proof {
        assert(array@.take(n as int) =~= array@);
    }
}

} // verus!
