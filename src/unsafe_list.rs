//! A list that is changed at both ends, under the names of a stack at its
//! front (`push`, `pop`) and of a queue at its back (`push_back`, `pop_tail`).
use vstd::prelude::*;

verus! {

pub use crate::list::{Iter, Node};
use crate::list::List;

/// A list changed at both ends.
pub struct LinkedList<T> {
    nodes: List<T>,
}

impl<T> LinkedList<T> {
    /// The invariant of the list.
    pub closed spec fn well_formed(self) -> bool {
        self.nodes.well_formed()
    }

    /// The elements from head to tail.
    pub closed spec fn view(self) -> Seq<T> {
        self.nodes@
    }

    /// An empty list.
    pub fn new() -> (l: Self)
        ensures
            l.well_formed(),
            l@ == Seq::<T>::empty(),
    {
        LinkedList { nodes: List::new() }
    }

    /// Inserts `data` before the first element.
    pub fn push(&mut self, data: T)
        requires
            old(self).well_formed(),
            old(self)@.len() < usize::MAX,
        ensures
            final(self).well_formed(),
            final(self)@ == seq![data] + old(self)@,
    {
        self.nodes.push_front(data);
    }

    /// Inserts `data` after the last element, in constant time.
    pub fn push_back(&mut self, data: T)
        requires
            old(self).well_formed(),
            old(self)@.len() < usize::MAX,
        ensures
            final(self).well_formed(),
            final(self)@ == old(self)@.push(data),
    {
        self.nodes.push_back(data);
    }

    /// Removes and returns the first element, or returns `None` on an empty
    /// list.
    pub fn pop(&mut self) -> (r: Option<T>)
        requires
            old(self).well_formed(),
        ensures
            final(self).well_formed(),
            old(self)@.len() == 0 ==> r == None::<T> && final(self)@ == old(self)@,
            old(self)@.len() > 0 ==> r == Some(old(self)@[0]) && final(self)@ == old(self)@.drop_first(),
    {
        self.nodes.pop_front()
    }

    /// Removes and returns the last element, or returns `None` on an empty
    /// list. This walks the list from its head.
    pub fn pop_tail(&mut self) -> (r: Option<T>)
        requires
            old(self).well_formed(),
        ensures
            final(self).well_formed(),
            old(self)@.len() == 0 ==> r == None::<T> && final(self)@ == old(self)@,
            old(self)@.len() > 0 ==> r == Some(old(self)@.last()) && final(self)@ == old(self)@.drop_last(),
    {
        self.nodes.pop_back()
    }

    /// Reverses the order of the elements in place.
    pub fn rev(&mut self)
        requires
            old(self).well_formed(),
        ensures
            final(self).well_formed(),
            final(self)@ == old(self)@.reverse(),
    {
        self.nodes.rev();
    }

    /// The number of elements.
    pub fn len(&self) -> (n: usize)
        requires
            self.well_formed(),
        ensures
            n == self@.len(),
    {
        self.nodes.len()
    }

    /// A cursor over the elements, from head to tail; on an empty list it is
    /// exhausted from the start.
    pub fn iter(&self) -> (it: Iter<'_, T>)
        requires
            self.well_formed(),
        ensures
            it.well_formed(),
            it@ == self@,
    {
        self.nodes.iter()
    }
}

} // verus!
