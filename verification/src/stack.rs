//! A last-in-first-out stack backed by a growable vector.

use vstd::prelude::*;

verus! {

/// A LIFO stack; the top of the stack is the last element of the view.
pub struct Stack<T> {
    inner: Vec<T>,
}

impl<T> Stack<T> {
    /// The abstract contents, bottom first.
    pub closed spec fn view(&self) -> Seq<T> {
        self.inner@
    }

    /// Creates an empty stack.
    pub fn new() -> (r: Stack<T>)
        ensures
            r@ == Seq::<T>::empty(),
    {
        Stack { inner: Vec::new() }
    }

    /// True exactly when the stack holds no elements.
    pub fn is_empty(&self) -> (r: bool)
        ensures
            r <==> self@.len() == 0,
    {
        self.inner.len() == 0
    }

    /// The number of elements held.
    pub fn len(&self) -> (r: usize)
        ensures
            r == self@.len(),
    {
        self.inner.len()
    }

    /// Pushes `value` on top of the stack.
    pub fn push(&mut self, value: T)
        ensures
            final(self)@ == old(self)@.push(value),
    {
        self.inner.push(value)
    }

    /// Removes and returns the top element, or `None` on an empty stack.
    pub fn pop(&mut self) -> (r: Option<T>)
        ensures
            old(self)@.len() == 0 ==> r is None && final(self)@ == old(self)@,
            old(self)@.len() > 0 ==> r == Some(old(self)@.last())
                && final(self)@ == old(self)@.drop_last(),
    {
        self.inner.pop()
    }

    /// Borrows the top element, or `None` on an empty stack.
    pub fn top(&self) -> (r: Option<&T>)
        ensures
            self@.len() == 0 ==> r is None,
            self@.len() > 0 ==> r == Some(&self@.last()),
    {
        if self.inner.len() == 0 {
            None
        } else {
            Some(&self.inner[self.inner.len() - 1])
        }
    }
}

} // verus!
