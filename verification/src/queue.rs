//! A first-in-first-out queue over a vector with a moving head index.
//!
//! Dequeued slots are emptied in place; once more than a quarter of a
//! longer-than-fifty-slot vector is dead space, the live tail is compacted
//! to the front.

use vstd::prelude::*;

verus! {

/// The payloads behind a sequence of occupied slots.
pub open spec fn occupants<T>(s: Seq<Option<T>>) -> Seq<T> {
    s.map_values(|o: Option<T>| o->Some_0)
}

/// Pointwise reading of `occupants`.
pub broadcast proof fn lemma_occupants<T>(s: Seq<Option<T>>)
    ensures
        (#[trigger] occupants(s)).len() == s.len(),
        forall|i: int| 0 <= i < s.len() ==> occupants(s)[i] == s[i]->Some_0,
{
}

/// A FIFO queue; the front of the queue is the first element of the view.
pub struct Queue<T> {
    inner: Vec<Option<T>>,
    head: usize,
}

impl<T> Queue<T> {
    /// The pending elements, front first.
    pub closed spec fn view(&self) -> Seq<T> {
        occupants(self.inner@.skip(self.head as int))
    }

    /// Every slot from the head on is occupied.
    pub closed spec fn wf(self) -> bool {
        &&& self.head <= self.inner@.len()
        &&& forall|i: int|
            self.head <= i < self.inner@.len() ==> (#[trigger] self.inner@[i]) is Some
    }

    /// Creates an empty queue.
    pub fn new() -> (r: Queue<T>)
        ensures
            r.wf(),
            r@ == Seq::<T>::empty(),
    {
        broadcast use lemma_occupants;

        let q = Queue { inner: Vec::new(), head: 0 };
        proof {
            assert(q@ =~= Seq::<T>::empty());
        }
        q
    }

    /// The number of pending elements.
    pub fn count(&self) -> (r: usize)
        requires
            self.wf(),
        ensures
            r == self@.len(),
    {
        broadcast use lemma_occupants;

        self.inner.len() - self.head
    }

    /// True exactly when nothing is pending.
    pub fn is_empty(&self) -> (r: bool)
        requires
            self.wf(),
        ensures
            r <==> self@.len() == 0,
    {
        self.count() == 0
    }

    /// Adds `value` at the back of the queue.
    pub fn enqueue(&mut self, value: T)
        requires
            old(self).wf(),
        ensures
            final(self).wf(),
            final(self)@ == old(self)@.push(value),
    {
        broadcast use lemma_occupants;

        self.inner.push(Some(value));
        proof {
            assert(self@ =~= old(self)@.push(value));
        }
    }

    /// Removes and returns the front element, or `None` on an empty queue.
    pub fn dequeue(&mut self) -> (r: Option<T>)
        requires
            old(self).wf(),
        ensures
            final(self).wf(),
            old(self)@.len() == 0 ==> r is None && final(self)@ == old(self)@,
            old(self)@.len() > 0 ==> r == Some(old(self)@[0]) && final(self)@ == old(self)@.skip(
                1,
            ),
    {
        broadcast use lemma_occupants;

        if self.is_empty() {
            None
        } else {
            let ghost pre = self@;
            let len = self.inner.len();
            proof {
                assert(self.head < len);
            }
            let ret = self.inner[self.head].take();
            self.head = self.head + 1;
            proof {
                assert(self@ =~= pre.skip(1));
            }
            if self.inner.len() > 50 && self.head > self.inner.len() / 4 {
                let ghost live = self@;
                let mut compact: Vec<Option<T>> = Vec::new();
                let mut i = self.head;
                while i < self.inner.len()
                    invariant
                        self.head <= i <= self.inner@.len(),
                        forall|k: int|
                            i <= k < self.inner@.len() ==> (#[trigger] self.inner@[k]) is Some,
                        compact@.len() == i - self.head,
                        forall|k: int| 0 <= k < compact@.len() ==> (#[trigger] compact@[k]) is Some,
                        occupants(compact@) == live.take(i - self.head as int),
                        live.len() == self.inner@.len() - self.head,
                        forall|k: int|
                            i <= k < self.inner@.len() ==> #[trigger] self.inner@[k]->Some_0
                                == live[k - self.head],
                    decreases self.inner@.len() - i,
                {
                    let slot = self.inner[i].take();
                    compact.push(slot);
                    i = i + 1;
                    proof {
                        assert(occupants(compact@) =~= live.take(i - self.head as int));
                    }
                }
                self.inner = compact;
                self.head = 0;
                proof {
                    assert(live.take(live.len() as int) =~= live);
                    assert(self.inner@.skip(0) =~= self.inner@);
                    assert(self@ =~= live);
                }
            }
            ret
        }
    }

    /// The front element without removing it, or `None` on an empty queue.
    pub fn front(&self) -> (r: Option<T>) where T: Copy
        requires
            self.wf(),
        ensures
            self@.len() == 0 ==> r is None,
            self@.len() > 0 ==> r == Some(self@[0]),
    {
        broadcast use lemma_occupants;

        if self.is_empty() {
            None
        } else {
            let v = self.inner[self.head];
            v
        }
    }
}

} // verus!
