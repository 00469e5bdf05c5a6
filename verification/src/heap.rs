//! A binary max-heap in a flat array: children of slot `i` sit at `2i+1`
//! and `2i+2`, and every child is at most its parent.

use core::cmp::Ordering;
use vstd::prelude::*;
use vstd::std_specs::cmp::PartialOrdSpec;

verus! {

/// `a` is at most `b` under the type's comparison.
pub open spec fn le<T: PartialOrd>(a: T, b: T) -> bool {
    a.partial_cmp_spec(&b) matches Some(Ordering::Less | Ordering::Equal)
}

/// The type's comparison is total, antisymmetrically consistent, and
/// transitive, and the executable operators agree with it. Integer types
/// satisfy all of it.
pub open spec fn total_preorder<T: PartialOrd>() -> bool {
    &&& T::obeys_partial_cmp_spec()
    &&& (forall|a: T, b: T| (#[trigger] a.partial_cmp_spec(&b)) is Some)
    &&& (forall|a: T, b: T|
        #![trigger a.partial_cmp_spec(&b)]
        a.partial_cmp_spec(&b) == Some(Ordering::Less) <==> b.partial_cmp_spec(&a) == Some(
            Ordering::Greater,
        ))
    &&& (forall|a: T, b: T, c: T|
        #![trigger le(a, b), le(b, c)]
        le(a, b) && le(b, c) ==> le(a, c))
}

/// Slot index of the parent of a non-root slot.
pub fn parent_index(idx: usize) -> (r: usize)
    requires
        idx > 0,
    ensures
        r == (idx - 1) / 2,
{
    (idx - 1) / 2
}

/// Slot index of the left child.
pub fn lchild_index(idx: usize) -> (r: usize)
    requires
        idx < usize::MAX / 2,
    ensures
        r == 2 * idx + 1,
{
    2 * idx + 1
}

/// Slot index of the right child.
pub fn rchild_index(idx: usize) -> (r: usize)
    requires
        idx < usize::MAX / 2,
    ensures
        r == 2 * idx + 2,
{
    2 * idx + 2
}

/// Within the first `sz` slots, every pair whose parent slot is at least
/// `lo` respects the heap order.
pub open spec fn heap_from<T: PartialOrd>(s: Seq<T>, sz: int, lo: int) -> bool {
    forall|i: int| 1 <= i < sz && (i - 1) / 2 >= lo ==> le(#[trigger] s[i], s[(i - 1) / 2])
}

/// A max-heap everywhere.
pub open spec fn heap_prefix<T: PartialOrd>(s: Seq<T>, sz: int) -> bool {
    heap_from(s, sz, 0)
}

/// Comparisons are reflexive under a total preorder.
proof fn lemma_le_refl<T: PartialOrd>(a: T)
    requires
        total_preorder::<T>(),
    ensures
        le(a, a),
{
    if a.partial_cmp_spec(&a) == Some(Ordering::Less) {
        assert(a.partial_cmp_spec(&a) == Some(Ordering::Greater));
    }
}

/// In a heap the root dominates every slot.
proof fn lemma_root_max<T: PartialOrd>(s: Seq<T>, sz: int, i: int)
    requires
        total_preorder::<T>(),
        heap_prefix(s, sz),
        sz <= s.len(),
        0 <= i < sz,
    ensures
        le(s[i], s[0]),
    decreases i,
{
    if i > 0 {
        assert(le(s[i], s[(i - 1) / 2]));
        lemma_root_max(s, sz, (i - 1) / 2);
    } else {
        lemma_le_refl(s[0]);
    }
}

/// Swaps two slots of a vector of copyable elements.
fn hswap<T: Copy>(v: &mut Vec<T>, i: usize, j: usize)
    requires
        i < old(v)@.len(),
        j < old(v)@.len(),
    ensures
        final(v)@ == old(v)@.update(i as int, old(v)@[j as int]).update(
            j as int,
            old(v)@[i as int],
        ),
        final(v)@.to_multiset() == old(v)@.to_multiset(),
        final(v)@.len() == old(v)@.len(),
{
    broadcast use vstd::seq_lib::group_to_multiset_ensures;
    broadcast use vstd::multiset::group_multiset_axioms;
    broadcast use vstd::multiset::group_multiset_properties;

    let a = v[i];
    let b = v[j];
    v[i] = b;
    v[j] = a;
    proof {
        assert(v@.to_multiset() =~= old(v)@.to_multiset());
    }
}

/// A max-heap over any totally preordered, copyable payload.
pub struct Heap<T: PartialOrd> {
    inner: Vec<T>,
}

impl<T: PartialOrd> Heap<T> {
    /// The slots in array order; slot 0 is the maximum when well formed.
    pub closed spec fn view(&self) -> Seq<T> {
        self.inner@
    }

    /// The heap order holds everywhere.
    pub open spec fn wf(self) -> bool {
        heap_prefix(self@, self@.len() as int)
    }

    /// The number of stored elements.
    pub fn count(&self) -> (r: usize)
        ensures
            r == self@.len(),
    {
        self.inner.len()
    }

    /// True exactly when nothing is stored.
    pub fn is_empty(&self) -> (r: bool)
        ensures
            r <==> self@.len() == 0,
    {
        self.inner.len() == 0
    }

    /// Creates an empty heap.
    pub fn new() -> (r: Heap<T>)
        ensures
            r@ == Seq::<T>::empty(),
            r.wf(),
    {
        Heap { inner: Vec::new() }
    }
}

impl<T: PartialOrd + Copy> Heap<T> {
    /// Restores the heap order below `idx` within the first `heapsz` slots,
    /// sinking the element at `idx` to its place.
    fn shift_down(&mut self, idx: usize, heapsz: usize)
        requires
            total_preorder::<T>(),
            heapsz <= old(self)@.len(),
            idx < heapsz || idx == 0,
            heap_from(old(self)@, heapsz as int, idx + 1),
        ensures
            final(self)@.len() == old(self)@.len(),
            final(self)@.to_multiset() == old(self)@.to_multiset(),
            heap_from(final(self)@, heapsz as int, idx as int),
    {
        let mut parent_idx = idx;
        let ghost lo = idx as int;
        loop
            invariant
                total_preorder::<T>(),
                heapsz <= self@.len(),
                self@.len() == old(self)@.len(),
                self@.to_multiset() == old(self)@.to_multiset(),
                lo == idx,
                idx <= parent_idx,
                parent_idx < heapsz || parent_idx == 0,
                // every pair except those under parent_idx is in order
                forall|i: int|
                    1 <= i < heapsz && (i - 1) / 2 >= lo && (i - 1) / 2 != parent_idx ==> le(
                        #[trigger] self@[i],
                        self@[(i - 1) / 2],
                    ),
                // the children of parent_idx still fit under its parent
                parent_idx > idx ==> forall|c: int|
                    1 <= c < heapsz && (c - 1) / 2 == parent_idx ==> le(
                        #[trigger] self@[c],
                        self@[(parent_idx - 1) / 2],
                    ),
            ensures
                self@.len() == old(self)@.len(),
                self@.to_multiset() == old(self)@.to_multiset(),
                heap_from(self@, heapsz as int, lo),
            decreases heapsz - parent_idx,
        {
            let ghost snap = self@;
            let ghost p = parent_idx as int;
            let ghost li = 2 * p + 1;
            let ghost ri = li + 2 - 1;
            let mut first = parent_idx;
            if parent_idx < heapsz / 2 {
                let lchild_idx = 2 * parent_idx + 1;
                if self.inner[lchild_idx] > self.inner[first] {
                    first = lchild_idx;
                }
                let rchild_idx = lchild_idx + 1;
                if rchild_idx < heapsz {
                    if self.inner[rchild_idx] > self.inner[first] {
                        first = rchild_idx;
                    }
                }
            }
            let ghost f = first as int;
            proof {
                // relate the chosen slot to the pivot and to the other child
                if parent_idx < heapsz / 2 {
                    assert(li < heapsz);
                    if snap[li].partial_cmp_spec(&snap[p]) == Some(Ordering::Greater) {
                        assert(snap[p].partial_cmp_spec(&snap[li]) == Some(Ordering::Less));
                        assert(le(snap[p], snap[li]));
                        if ri < heapsz && snap[ri].partial_cmp_spec(&snap[li]) == Some(
                            Ordering::Greater,
                        ) {
                            assert(f == ri);
                            assert(snap[li].partial_cmp_spec(&snap[ri]) == Some(Ordering::Less));
                            assert(le(snap[li], snap[ri]));
                            assert(le(snap[p], snap[ri]));
                        } else {
                            assert(f == li);
                            if ri < heapsz {
                                assert(le(snap[ri], snap[li]));
                            }
                        }
                    } else {
                        assert(le(snap[li], snap[p]));
                        if ri < heapsz && snap[ri].partial_cmp_spec(&snap[p]) == Some(
                            Ordering::Greater,
                        ) {
                            assert(f == ri);
                            assert(snap[p].partial_cmp_spec(&snap[ri]) == Some(Ordering::Less));
                            assert(le(snap[p], snap[ri]));
                            assert(le(snap[li], snap[ri]));
                        } else {
                            assert(f == p);
                            if ri < heapsz {
                                assert(le(snap[ri], snap[p]));
                            }
                        }
                    }
                } else {
                    assert(f == p);
                }
            }
            if first == parent_idx {
                proof {
                    assert forall|i: int|
                        1 <= i < heapsz && (i - 1) / 2 >= lo implies le(
                        #[trigger] self@[i],
                        self@[(i - 1) / 2],
                    ) by {
                        if (i - 1) / 2 == p {
                            if parent_idx >= heapsz / 2 {
                                assert((i - 1) / 2 >= heapsz / 2);
                                assert(i >= 2 * (heapsz / 2) + 1);
                                assert(false);
                            } else {
                                assert(i == li || i == ri);
                            }
                        }
                    }
                }
                break ;
            }
            proof {
                assert(f == li || f == ri);
                assert(le(snap[p], snap[f]));
            }
            hswap(&mut self.inner, first, parent_idx);
            proof {
                let s = self@;
                assert(s[p] == snap[f] && s[f] == snap[p]);
                assert forall|i: int|
                    1 <= i < heapsz && (i - 1) / 2 >= lo && (i - 1) / 2 != f implies le(
                    #[trigger] s[i],
                    s[(i - 1) / 2],
                ) by {
                    let q = (i - 1) / 2;
                    if i == f {
                        assert(q == p);
                        assert(le(snap[p], snap[f]));
                    } else if q == p {
                        // the sibling of the swapped slot keeps its bound
                        assert(i == li || i == ri);
                        assert(s[i] == snap[i]);
                        assert(le(snap[i], snap[f]));
                    } else if i == p {
                        // the promoted element against parent_idx's parent
                        assert(p > idx ==> le(snap[f], snap[(p - 1) / 2]));
                        assert(q >= lo ==> p > lo);
                    } else {
                        assert(s[i] == snap[i] && s[q] == snap[q]);
                    }
                }
                assert forall|c: int|
                    1 <= c < heapsz && (c - 1) / 2 == f implies le(#[trigger] self@[c], self@[(f - 1) / 2]) by {
                    assert(self@[c] == snap[c]);
                    assert(c == 2 * f + 1 || c == 2 * f + 2);
                    assert(le(snap[c], snap[f]));
                }
            }
            parent_idx = first;
        }
    }

    /// Restores the heap order after the element at `idx` may have grown,
    /// floating it up to its place.
    fn shift_up(&mut self, idx: usize)
        requires
            total_preorder::<T>(),
            idx < old(self)@.len(),
            forall|i: int|
                1 <= i < old(self)@.len() && i != idx ==> le(
                    #[trigger] old(self)@[i],
                    old(self)@[(i - 1) / 2],
                ),
            idx > 0 ==> forall|c: int|
                1 <= c < old(self)@.len() && (c - 1) / 2 == idx ==> le(
                    #[trigger] old(self)@[c],
                    old(self)@[(idx - 1) / 2],
                ),
        ensures
            final(self)@.len() == old(self)@.len(),
            final(self)@.to_multiset() == old(self)@.to_multiset(),
            final(self).wf(),
    {
        let n = self.inner.len();
        let mut child_idx = idx;
        loop
            invariant
                total_preorder::<T>(),
                n == self@.len(),
                self@.len() == old(self)@.len(),
                self@.to_multiset() == old(self)@.to_multiset(),
                child_idx < n,
                forall|i: int|
                    1 <= i < n && i != child_idx ==> le(#[trigger] self@[i], self@[(i - 1) / 2]),
                child_idx > 0 ==> forall|c: int|
                    1 <= c < n && (c - 1) / 2 == child_idx ==> le(
                        #[trigger] self@[c],
                        self@[(child_idx - 1) / 2],
                    ),
            ensures
                self@.len() == old(self)@.len(),
                self@.to_multiset() == old(self)@.to_multiset(),
                self.wf(),
            decreases child_idx,
        {
            if child_idx == 0 {
                proof {
                    assert forall|i: int|
                        1 <= i < n implies le(#[trigger] self@[i], self@[(i - 1) / 2]) by {}
                }
                break ;
            }
            let parent_idx = (child_idx - 1) / 2;
            if self.inner[child_idx] > self.inner[parent_idx] {
                let ghost snap = self@;
                let ghost c0 = child_idx as int;
                let ghost p0 = parent_idx as int;
                proof {
                    assert(snap[p0].partial_cmp_spec(&snap[c0]) == Some(Ordering::Less));
                    assert(le(snap[p0], snap[c0]));
                }
                hswap(&mut self.inner, child_idx, parent_idx);
                proof {
                    let s = self@;
                    assert forall|i: int|
                        1 <= i < n && i != p0 implies le(#[trigger] s[i], s[(i - 1) / 2]) by {
                        let q = (i - 1) / 2;
                        if i == c0 {
                            assert(s[i] == snap[p0] && s[q] == snap[c0]);
                        } else if q == c0 {
                            assert(s[i] == snap[i] && s[q] == snap[p0]);
                        } else if q == p0 {
                            // sibling of the climbing slot
                            assert(s[i] == snap[i] && s[q] == snap[c0]);
                            assert(le(snap[i], snap[p0]));
                            assert(le(snap[p0], snap[c0]));
                        } else {
                            assert(s[i] == snap[i] && s[q] == snap[q]);
                        }
                    }
                    assert forall|c: int|
                        1 <= c < n && (c - 1) / 2 == p0 && p0 > 0 implies le(
                        #[trigger] self@[c],
                        self@[(p0 - 1) / 2],
                    ) by {
                        if c == c0 {
                            assert(self@[c] == snap[p0]);
                            assert(le(snap[p0], snap[(p0 - 1) / 2]));
                        } else {
                            assert(self@[c] == snap[c]);
                            assert(le(snap[c], snap[p0]));
                            assert(le(snap[p0], snap[(p0 - 1) / 2]));
                        }
                    }
                }
                child_idx = parent_idx;
            } else {
                proof {
                    let c0 = child_idx as int;
                    assert(le(self@[c0], self@[(c0 - 1) / 2])) by {
                        if self@[c0].partial_cmp_spec(&self@[(c0 - 1) / 2]) == Some(
                            Ordering::Greater,
                        ) {
                            assert(self@[(c0 - 1) / 2].partial_cmp_spec(&self@[c0]) == Some(
                                Ordering::Less,
                            ));
                        }
                    }
                    assert forall|i: int|
                        1 <= i < n implies le(#[trigger] self@[i], self@[(i - 1) / 2]) by {}
                }
                break ;
            }
        }
    }

    /// Adds `value`; the stored multiset gains exactly that element.
    pub fn insert(&mut self, value: T)
        requires
            total_preorder::<T>(),
            old(self).wf(),
        ensures
            final(self).wf(),
            final(self)@.len() == old(self)@.len() + 1,
            final(self)@.to_multiset() == old(self)@.to_multiset().insert(value),
    {
        broadcast use vstd::seq_lib::group_to_multiset_ensures;

        self.inner.push(value);
        let len = self.inner.len();
        proof {
            assert(self@ == old(self)@.push(value));
        }
        self.shift_up(len - 1);
    }

    /// Removes and returns the maximum, or `None` on an empty heap; every
    /// stored element was at most the returned one.
    pub fn remove(&mut self) -> (r: Option<T>)
        requires
            total_preorder::<T>(),
            old(self).wf(),
        ensures
            final(self).wf(),
            old(self)@.len() == 0 ==> r is None && final(self)@ == old(self)@,
            old(self)@.len() > 0 ==> {
                &&& r == Some(old(self)@[0])
                &&& final(self)@.len() == old(self)@.len() - 1
                &&& final(self)@.to_multiset() == old(self)@.to_multiset().remove(old(self)@[0])
                &&& forall|i: int| 0 <= i < old(self)@.len() ==> le(#[trigger] old(self)@[i], old(self)@[0])
            },
    {
        broadcast use vstd::seq_lib::group_to_multiset_ensures;
        broadcast use vstd::multiset::group_multiset_axioms;
        broadcast use vstd::multiset::group_multiset_properties;

        if self.inner.len() == 0 {
            None
        } else {
            let ghost pre = self@;
            let len = self.inner.len();
            hswap(&mut self.inner, 0, len - 1);
            let ghost mid = self@;
            let ret = self.inner.pop();
            proof {
                assert(self@ =~= mid.drop_last());
                assert(mid =~= self@.push(mid[len - 1]));
                assert(mid.to_multiset() == self@.to_multiset().insert(pre[0]));
                assert(self@.to_multiset() =~= pre.to_multiset().remove(pre[0]));
                assert forall|i: int|
                    1 <= i < len - 1 && (i - 1) / 2 >= 1 implies le(
                    #[trigger] self@[i],
                    self@[(i - 1) / 2],
                ) by {
                    assert(self@[i] == pre[i] && self@[(i - 1) / 2] == pre[(i - 1) / 2]);
                }
                assert forall|i: int| 0 <= i < len implies le(#[trigger] pre[i], pre[0]) by {
                    lemma_root_max(pre, len as int, i);
                }
            }
            self.shift_down(0, len - 1);
            ret
        }
    }

    /// The maximum without removing it, or `None` on an empty heap.
    pub fn peek(&self) -> (r: Option<T>)
        requires
            total_preorder::<T>(),
            self.wf(),
        ensures
            self@.len() == 0 ==> r is None,
            self@.len() > 0 ==> r == Some(self@[0]) && forall|i: int|
                0 <= i < self@.len() ==> le(#[trigger] self@[i], self@[0]),
    {
        if self.inner.len() == 0 {
            None
        } else {
            proof {
                assert forall|i: int| 0 <= i < self@.len() implies le(
                    #[trigger] self@[i],
                    self@[0],
                ) by {
                    lemma_root_max(self@, self@.len() as int, i);
                }
            }
            Some(self.inner[0])
        }
    }

    /// Heapifies every inner node, bottom up.
    fn build_heap(&mut self)
        requires
            total_preorder::<T>(),
        ensures
            final(self)@.len() == old(self)@.len(),
            final(self)@.to_multiset() == old(self)@.to_multiset(),
            final(self).wf(),
    {
        let len = self.inner.len();
        let half = len / 2;
        let mut i: usize = 0;
        proof {
            assert forall|j: int|
                1 <= j < len && (j - 1) / 2 >= half implies le(#[trigger] self@[j], self@[(j - 1) / 2]) by {
                assert(j >= 2 * (len / 2) + 1);
            }
        }
        while i < half
            invariant
                total_preorder::<T>(),
                half == self@.len() / 2,
                len == self@.len(),
                self@.len() == old(self)@.len(),
                self@.to_multiset() == old(self)@.to_multiset(),
                i <= half,
                heap_from(self@, len as int, half - i),
            decreases half - i,
        {
            let idx = half - 1 - i;
            self.shift_down(idx, len);
            i = i + 1;
        }
        proof {
            if len == 0 {
            }
            assert(heap_from(self@, len as int, 0));
            assert(heap_prefix(self@, self@.len() as int));
        }
    }

    /// Builds a heap holding exactly the elements of `array`.
    pub fn with_array(array: &Vec<T>) -> (r: Heap<T>)
        requires
            total_preorder::<T>(),
        ensures
            r.wf(),
            r@.len() == array@.len(),
            r@.to_multiset() == array@.to_multiset(),
    {
        let n = array.len();
        let mut inner: Vec<T> = Vec::new();
        let mut i: usize = 0;
        while i < n
            invariant
                n == array@.len(),
                i <= n,
                inner@ == array@.take(i as int),
            decreases n - i,
        {
            inner.push(array[i]);
            i = i + 1;
            proof {
                assert(inner@ =~= array@.take(i as int));
            }
        }
        proof {
            assert(array@.take(n as int) =~= array@);
        }
        let mut heap = Heap { inner };
        heap.build_heap();
        heap
    }
}

} // verus!
