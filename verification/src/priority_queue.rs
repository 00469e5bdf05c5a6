//! A max-priority queue on top of the binary heap.

use vstd::multiset::Multiset;
use vstd::prelude::*;

use crate::heap::Heap;
use crate::heap::le;
use crate::heap::total_preorder;

verus! {

/// A priority queue; `dequeue` hands out a greatest pending element.
pub struct PriorityQueue<T: PartialOrd> {
    heap: Heap<T>,
}

impl<T: PartialOrd> PriorityQueue<T> {
    /// The pending elements, as a multiset.
    pub closed spec fn view(&self) -> Multiset<T> {
        self.heap@.to_multiset()
    }

    /// The underlying heap is in order.
    pub closed spec fn wf(self) -> bool {
        self.heap.wf()
    }

    /// True exactly when nothing is pending.
    pub fn is_empty(&self) -> (r: bool)
        ensures
            r <==> self@.len() == 0,
    {
        broadcast use vstd::seq_lib::group_to_multiset_ensures;

        self.heap.is_empty()
    }

    /// The number of pending elements.
    pub fn count(&self) -> (r: usize)
        ensures
            r == self@.len(),
    {
        broadcast use vstd::seq_lib::group_to_multiset_ensures;

        self.heap.count()
    }

    /// Creates an empty queue.
    pub fn new() -> (r: PriorityQueue<T>)
        ensures
            r.wf(),
            r@ == Multiset::<T>::empty(),
    {
        broadcast use vstd::seq_lib::group_to_multiset_ensures;

        let q = PriorityQueue { heap: Heap::new() };
        proof {
            assert(q@ =~= Multiset::<T>::empty());
        }
        q
    }
}

impl<T: PartialOrd + Copy> PriorityQueue<T> {
    /// Adds `value` to the pending elements.
    pub fn enqueue(&mut self, value: T)
        requires
            total_preorder::<T>(),
            old(self).wf(),
        ensures
            final(self).wf(),
            final(self)@ == old(self)@.insert(value),
    {
        self.heap.insert(value)
    }

    /// Removes and returns a greatest pending element, or `None` when
    /// nothing is pending.
    pub fn dequeue(&mut self) -> (r: Option<T>)
        requires
            total_preorder::<T>(),
            old(self).wf(),
        ensures
            final(self).wf(),
            old(self)@.len() == 0 ==> r is None && final(self)@ == old(self)@,
            old(self)@.len() > 0 ==> {
                &&& r matches Some(m) && old(self)@.count(m) > 0
                &&& final(self)@ == old(self)@.remove(r->Some_0)
                &&& forall|x: T| old(self)@.count(x) > 0 ==> le(x, r->Some_0)
            },
    {
        broadcast use vstd::seq_lib::group_to_multiset_ensures;
        broadcast use vstd::multiset::group_multiset_axioms;

        let ghost pre = self.heap@;
        let r = self.heap.remove();
        proof {
            if pre.len() > 0 {
                assert(pre.to_multiset().count(pre[0]) > 0) by {
                    assert(pre.contains(pre[0]));
                }
                assert forall|x: T| pre.to_multiset().count(x) > 0 implies le(x, pre[0]) by {
                    assert(pre.contains(x));
                    let w = choose|w: int| 0 <= w < pre.len() && pre[w] == x;
                    assert(le(pre[w], pre[0]));
                }
            }
        }
        r
    }

    /// A greatest pending element without removing it, or `None` when
    /// nothing is pending.
    pub fn peek(&self) -> (r: Option<T>)
        requires
            total_preorder::<T>(),
            self.wf(),
        ensures
            self@.len() == 0 ==> r is None,
            self@.len() > 0 ==> {
                &&& r matches Some(m) && self@.count(m) > 0
                &&& forall|x: T| self@.count(x) > 0 ==> le(x, r->Some_0)
            },
    {
        broadcast use vstd::seq_lib::group_to_multiset_ensures;
        broadcast use vstd::multiset::group_multiset_axioms;

        let ghost pre = self.heap@;
        let r = self.heap.peek();
        proof {
            if pre.len() > 0 {
                assert(pre.to_multiset().count(pre[0]) > 0) by {
                    assert(pre.contains(pre[0]));
                }
                assert forall|x: T| pre.to_multiset().count(x) > 0 implies le(x, pre[0]) by {
                    assert(pre.contains(x));
                    let w = choose|w: int| 0 <= w < pre.len() && pre[w] == x;
                    assert(le(pre[w], pre[0]));
                }
            }
        }
        r
    }
}

} // verus!
