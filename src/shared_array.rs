use crate::key::SlotKey;
use vstd::prelude::*;

verus! {

/// A growable list of items in insertion order.
pub struct SharedArray<T> {
    items: Vec<T>,
}

impl<T> View for SharedArray<T> {
    type V = Seq<T>;

    closed spec fn view(&self) -> Seq<T> {
        self.items@
    }
}

impl<T> SharedArray<T> {
    pub fn new() -> (r: Self)
        ensures
            r@ == Seq::<T>::empty(),
    {
        SharedArray { items: Vec::new() }
    }

    /// The item at `index`, or `None` past the end.
    pub fn get(&self, index: usize) -> (r: Option<T>) where T: Clone
        ensures
            index < self@.len() ==> r is Some && cloned(self@[index as int], r->0),
            index >= self@.len() ==> r is None,
    {
        if index < self.items.len() {
            Some(self.items[index].clone())
        } else {
            None
        }
    }

    pub fn _set(&mut self, index: usize, value: T)
        requires
            index < old(self)@.len(),
        ensures
            final(self)@ == old(self)@.update(index as int, value),
    {
        self.items.set(index, value);
    }

    pub fn _remove(&mut self, index: usize)
        requires
            index < old(self)@.len(),
        ensures
            final(self)@ == old(self)@.remove(index as int),
    {
        self.items.remove(index);
    }

    pub fn _includes(&self, value: &T) -> (r: bool) where T: SlotKey
        ensures
            r == exists|i: int| 0 <= i < self@.len() && (#[trigger] self@[i])@ == value@,
    {
        self._index_of(value).is_some()
    }

    /// The first position of an item whose view equals that of `value`.
    pub fn _index_of(&self, value: &T) -> (r: Option<usize>) where T: SlotKey
        ensures
            match r {
                Some(i) => i < self@.len() && self@[i as int]@ == value@ && forall|j: int|
                    0 <= j < i ==> (#[trigger] self@[j])@ != value@,
                None => forall|j: int| 0 <= j < self@.len() ==> (#[trigger] self@[j])@ != value@,
            },
    {
        let mut i: usize = 0;
        while i < self.items.len()
            invariant
                i <= self@.len(),
                self@ == self.items@,
                forall|j: int| 0 <= j < i ==> (#[trigger] self@[j])@ != value@,
            decreases self@.len() - i,
        {
            if value.same_as(&self.items[i]) {
                return Some(i);
            }
            i += 1;
        }
        None
    }

    pub fn _length(&self) -> (r: usize)
        ensures
            r == self@.len(),
    {
        self.items.len()
    }

    pub fn push(&mut self, value: T)
        ensures
            final(self)@ == old(self)@.push(value),
    {
        self.items.push(value);
    }

    /// The items, in order.
    pub fn iter(&self) -> (r: Vec<T>) where T: Clone
        ensures
            r@.len() == self@.len(),
            forall|i: int| 0 <= i < r@.len() ==> cloned(self@[i], #[trigger] r@[i]),
    {
        let mut out: Vec<T> = Vec::new();
        let mut i: usize = 0;
        while i < self.items.len()
            invariant
                i <= self@.len(),
                self@ == self.items@,
                out@.len() == i,
                forall|j: int| 0 <= j < i ==> cloned(self@[j], #[trigger] out@[j]),
            decreases self@.len() - i,
        {
            out.push(self.items[i].clone());
            i += 1;
        }
        out
    }

    /// A second array with the same items.
    pub fn _clone_content(&self) -> (r: Self) where T: Clone
        ensures
            r@.len() == self@.len(),
            forall|i: int| 0 <= i < r@.len() ==> cloned(self@[i], #[trigger] r@[i]),
    {
        SharedArray { items: self.iter() }
    }
}

} // verus!
