//! Access to the items of a bencode list.
use vstd::prelude::*;

verus! {

/// Read and write access to the items of a list.
pub trait BListAccess<V> {
    /// The items, in order.
    spec fn items(&self) -> Seq<V>;

    /// The item at `index`, if there is one.
    fn get(&self, index: usize) -> (r: Option<&V>)
        ensures
            index < self.items().len() ==> r == Some(&self.items()[index as int]),
            index >= self.items().len() ==> r is None;

    /// Mutable access to the item at `index`, if there is one.
    fn get_mut(&mut self, index: usize) -> (r: Option<&mut V>)
        ensures
            index < old(self).items().len() ==> (r matches Some(v) && *v == old(self).items()[index as int]
                && final(self).items() == old(self).items().update(index as int, *final(v))),
            index >= old(self).items().len() ==> r is None && final(self).items() == old(self).items();

    /// Takes out the item at `index`, if there is one.
    fn remove(&mut self, index: usize) -> (r: Option<V>)
        ensures
            index < old(self).items().len() ==> r == Some(old(self).items()[index as int]) && final(self).items()
                == old(self).items().remove(index as int),
            index >= old(self).items().len() ==> r is None && final(self).items() == old(self).items();

    /// Puts `item` at `index`, moving the items from there on one place up.
    fn insert(&mut self, index: usize, item: V)
        requires
            index <= old(self).items().len(),
        ensures
            final(self).items() == old(self).items().insert(index as int, item);

    /// Puts `item` at the end.
    fn push(&mut self, item: V)
        ensures
            final(self).items() == old(self).items().push(item);

    /// The number of items.
    fn len(&self) -> (r: usize)
        ensures
            r == self.items().len();
}

impl<V> BListAccess<V> for Vec<V> {
    open spec fn items(&self) -> Seq<V> {
        self@
    }

    fn get(&self, index: usize) -> (r: Option<&V>) {
        if index < self.len() {
            Some(&self[index])
        } else {
            None
        }
    }

    fn get_mut(&mut self, index: usize) -> (r: Option<&mut V>) {
        if index < self.len() {
            Some(&mut self[index])
        } else {
            None
        }
    }

    fn remove(&mut self, index: usize) -> (r: Option<V>) {
        if index < self.len() {
            Some(Vec::remove(self, index))
        } else {
            None
        }
    }

    fn insert(&mut self, index: usize, item: V) {
        Vec::insert(self, index, item)
    }

    fn push(&mut self, item: V) {
        Vec::push(self, item)
    }

    fn len(&self) -> (r: usize) {
        Vec::len(self)
    }
}

/// Walks the items of a list one at a time.
pub struct BListIter<'a, V> {
    index: usize,
    access: &'a [V],
}

impl<'a, V> BListIter<'a, V> {
    /// The items walked.
    pub closed spec fn items(self) -> Seq<V> {
        self.access@
    }

    /// Index of the next item.
    pub closed spec fn index(self) -> int {
        self.index as int
    }

    /// Walks `items` from the first.
    pub fn new(items: &'a [V]) -> (it: BListIter<'a, V>)
        ensures
            it.items() == items@,
            it.index() == 0,
    {
        BListIter { index: 0, access: items }
    }

    /// The next item, if any.
    pub fn next(&mut self) -> (r: Option<&'a V>)
        ensures
            final(self).items() == old(self).items(),
            old(self).index() < old(self).items().len() ==> r == Some(&old(self).items()[old(self).index()])
                && final(self).index() == old(self).index() + 1,
            old(self).index() >= old(self).items().len() ==> r is None && final(self).index() == old(self).index(),
    {
        if self.index < self.access.len() {
            let item = &self.access[self.index];
            self.index = self.index + 1;
            Some(item)
        } else {
            None
        }
    }
}

} // verus!
