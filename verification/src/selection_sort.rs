//! Selection sort into a fresh vector, leaving the input untouched.

use vstd::prelude::*;

use crate::order::sorted;
use crate::order::swap_at;

verus! {

/// Returns the elements of `array` in ascending order.
pub fn selection_sort(array: &Vec<i64>) -> (r: Vec<i64>)
    ensures
        sorted(r@),
        r@.to_multiset() == array@.to_multiset(),
        r@.len() == array@.len(),
{
    let n = array.len();
    let mut a: Vec<i64> = Vec::new();
    let mut i: usize = 0;
    while i < n
        invariant
            n == array@.len(),
            i <= n,
            a@ == array@.take(i as int),
        decreases n - i,
    {
        a.push(array[i]);
        i = i + 1;
        proof {
            assert(a@ =~= array@.take(i as int));
        }
    }
    proof {
        assert(array@.take(n as int) =~= array@);
    }
    let mut idx: usize = 0;
    while idx < n
        invariant
            n == a@.len(),
            idx <= n,
            a@.to_multiset() == array@.to_multiset(),
            sorted(a@.take(idx as int)),
            forall|x: int, y: int| #![trigger a@[x], a@[y]] 0 <= x < idx <= y < n ==> a@[x] <= a@[y],
        decreases n - idx,
    {
        let mut lowest = idx;
        let mut y = idx + 1;
        while y < n
            invariant
                n == a@.len(),
                idx <= lowest < n,
                idx < y <= n,
                forall|k: int| idx <= k < y ==> a@[lowest as int] <= a@[k],
            decreases n - y,
        {
            if a[y] < a[lowest] {
                lowest = y;
            }
            y = y + 1;
        }
        let ghost olds = a@;
        if lowest != idx {
            swap_at(&mut a, lowest, idx);
        }
        proof {
            assert(a@ == olds.update(lowest as int, olds[idx as int]).update(
                idx as int,
                olds[lowest as int],
            )) by {
                if lowest == idx {
                    assert(a@ =~= olds.update(lowest as int, olds[idx as int]).update(
                        idx as int,
                        olds[lowest as int],
                    ));
                }
            }
            assert forall|x: int, y: int| #![trigger a@[x], a@[y]] 0 <= x < idx + 1 <= y < n implies a@[x]
                <= a@[y] by {
                if x < idx {
                    assert(olds[x] <= olds[idx as int]);
                    assert(olds[x] <= olds[lowest as int]);
                    assert(olds[x] <= olds[y]);
                } else {
                    assert(a@[x] == olds[lowest as int]);
                    assert(olds[lowest as int] <= olds[y]);
                    assert(olds[lowest as int] <= olds[idx as int]);
                }
            }
            assert forall|i: int, j: int|
                #![trigger a@.take(idx as int + 1)[i], a@.take(idx as int + 1)[j]]
                0 <= i <= j < idx + 1 implies a@.take(idx as int + 1)[i]
                <= a@.take(idx as int + 1)[j] by {
                assert(a@.take(idx as int + 1)[i] == a@[i]);
                assert(a@.take(idx as int + 1)[j] == a@[j]);
                if j < idx {
                    assert(a@[i] == olds[i] && a@[j] == olds[j]);
                    assert(olds.take(idx as int)[i] == olds[i]);
                    assert(olds.take(idx as int)[j] == olds[j]);
                }
            }
        }
        idx = idx + 1;
    }
    proof {
        assert(a@.take(n as int) =~= a@);
    }
    a
}

} // verus!
