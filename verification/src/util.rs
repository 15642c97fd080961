//! A small growable container with array semantics, used as a scratch
//! list by callers of the block model.

use vstd::prelude::*;

verus! {

/// An ordered growable collection over a plain vector.
#[derive(Debug, PartialEq, Eq)]
pub struct VecSet<T> {
    pub data: Vec<T>,
}

impl<T> View for VecSet<T> {
    type V = Seq<T>;

    open spec fn view(&self) -> Seq<T> {
        self.data@
    }
}

impl<T> VecSet<T> {
    /// An empty collection.
    pub fn new() -> (r: VecSet<T>)
        ensures
            r@ == Seq::<T>::empty(),
    {
        VecSet { data: Vec::new() }
    }

    /// The empty collection a fresh value holds.
    pub fn default() -> (r: VecSet<T>)
        ensures
            r@ == Seq::<T>::empty(),
    {
        VecSet { data: Vec::new() }
    }

    /// The number of items held.
    pub fn len(&self) -> (r: usize)
        ensures
            r == self@.len(),
    {
        self.data.len()
    }

    /// Whether the collection holds nothing.
    pub fn is_empty(&self) -> (r: bool)
        ensures
            r == (self@.len() == 0),
    {
        self.data.len() == 0
    }

    /// Append one item at the end.
    pub fn push(&mut self, v: T)
        ensures
            final(self)@ == old(self)@.push(v),
    {
        self.data.push(v);
    }

    /// Remove and return the last item, if any.
    pub fn pop(&mut self) -> (r: Option<T>)
        ensures
            old(self)@.len() == 0 ==> r is None && final(self)@ == old(self)@,
            old(self)@.len() > 0 ==> r == Some(old(self)@.last()) && final(self)@ == old(
                self,
            )@.drop_last(),
    {
        self.data.pop()
    }

    /// Remove and return the item at a position, shifting the tail left;
    /// a position past the end yields nothing.
    pub fn pop_at(&mut self, i: usize) -> (r: Option<T>)
        ensures
            i >= old(self)@.len() ==> r is None && final(self)@ == old(self)@,
            i < old(self)@.len() ==> r == Some(old(self)@[i as int]) && final(self)@ == old(
                self,
            )@.remove(i as int),
    {
        if i >= self.data.len() {
            None
        } else {
            Some(self.data.remove(i))
        }
    }

    /// As `pop_at`: remove and return the item at a position.
    pub fn remove_at(&mut self, i: usize) -> (r: Option<T>)
        ensures
            i >= old(self)@.len() ==> r is None && final(self)@ == old(self)@,
            i < old(self)@.len() ==> r == Some(old(self)@[i as int]) && final(self)@ == old(
                self,
            )@.remove(i as int),
    {
        self.pop_at(i)
    }

    /// Drop every item.
    pub fn clear(&mut self)
        ensures
            final(self)@ == Seq::<T>::empty(),
    {
        self.data.clear();
    }

    /// A borrow of the item at a position, if there is one.
    pub fn index(&self, i: usize) -> (r: Option<&T>)
        ensures
            i < self@.len() ==> r == Some(&self@[i as int]),
            i >= self@.len() ==> r is None,
    {
        if i < self.data.len() {
            Some(&self.data[i])
        } else {
            None
        }
    }

    /// All items as a slice.
    pub fn as_slice(&self) -> (r: &[T])
        ensures
            r@ == self@,
    {
        self.data.as_slice()
    }

    /// Shorten the collection to at most `len` items.
    pub fn truncate(&mut self, len: usize)
        ensures
            len < old(self)@.len() ==> final(self)@ == old(self)@.take(len as int),
            len >= old(self)@.len() ==> final(self)@ == old(self)@,
    {
        self.data.truncate(len);
    }

    /// Take ownership of a vector's items.
    pub fn from_vec(vec: Vec<T>) -> (r: VecSet<T>)
        ensures
            r@ == vec@,
    {
        VecSet { data: vec }
    }
}

impl<T: Clone> VecSet<T> {
    /// Clones of all items, in order.
    pub fn to_vec(&self) -> (r: Vec<T>)
        ensures
            r@.len() == self@.len(),
            forall|i: int|
                0 <= i < self@.len() ==> cloned::<T>(
                    self@[i],
                    #[trigger] r@[i],
                ),
    {
        let mut out: Vec<T> = Vec::new();
        let mut i: usize = 0;
        while i < self.data.len()
            invariant
                i <= self@.len(),
                out@.len() == i,
                forall|k: int|
                    0 <= k < i ==> cloned::<T>(
                        self@[k],
                        #[trigger] out@[k],
                    ),
            decreases self@.len() - i,
        {
            out.push(self.data[i].clone());
            i = i + 1;
        }
        out
    }

    /// A fresh collection holding clones of all items.
    pub fn copy(&self) -> (r: VecSet<T>)
        ensures
            r@.len() == self@.len(),
            forall|i: int|
                0 <= i < self@.len() ==> cloned::<T>(
                    self@[i],
                    #[trigger] r@[i],
                ),
    {
        VecSet { data: self.to_vec() }
    }

    /// Append clones of a slice's items.
    pub fn extend_as_slice(&mut self, items: &[T])
        ensures
            final(self)@.len() == old(self)@.len() + items@.len(),
            forall|i: int|
                0 <= i < old(self)@.len() ==> #[trigger] final(self)@[i] == old(self)@[i],
            forall|i: int|
                0 <= i < items@.len() ==> cloned::<T>(
                    items@[i],
                    #[trigger] final(self)@[old(self)@.len() + i],
                ),
    {
        let mut i: usize = 0;
        while i < items.len()
            invariant
                i <= items@.len(),
                self@.len() == old(self)@.len() + i,
                forall|k: int|
                    0 <= k < old(self)@.len() ==> #[trigger] self@[k] == old(self)@[k],
                forall|k: int|
                    0 <= k < i ==> cloned::<T>(
                        items@[k],
                        #[trigger] self@[old(self)@.len() + k],
                    ),
            decreases items@.len() - i,
        {
            let c = vstd::slice::slice_index_get(items, i).clone();
            self.data.push(c);
            i = i + 1;
        }
    }
}

} // verus!
