//! A list that grows at its front only and is read from head to tail.
use vstd::prelude::*;

verus! {

pub use crate::list::Iter;
use crate::list::List;

/// A list that takes new elements at its front.
pub struct LinkedList<T> {
    nodes: List<T>,
}

impl<T> LinkedList<T> {
    /// The invariant of the list.
    pub closed spec fn well_formed(self) -> bool {
        self.nodes.well_formed()
    }

    /// The elements from head to tail.
    pub closed spec fn view(self) -> Seq<T> {
        self.nodes@
    }

    /// An empty list.
    pub fn new() -> (l: Self)
        ensures
            l.well_formed(),
            l@ == Seq::<T>::empty(),
    {
        LinkedList { nodes: List::new() }
    }

    /// Inserts `data` before the first element.
    pub fn push(&mut self, data: T)
        requires
            old(self).well_formed(),
            old(self)@.len() < usize::MAX,
        ensures
            final(self).well_formed(),
            final(self)@ == seq![data] + old(self)@,
    {
        self.nodes.push_front(data);
    }

    /// The number of elements.
    pub fn len(&self) -> (n: usize)
        requires
            self.well_formed(),
        ensures
            n == self@.len(),
    {
        self.nodes.len()
    }

    /// A cursor over the elements, from head to tail; on an empty list it is
    /// exhausted from the start.
    pub fn iter(&self) -> (it: Iter<'_, T>)
        requires
            self.well_formed(),
        ensures
            it.well_formed(),
            it@ == self@,
    {
        self.nodes.iter()
    }
}

} // verus!
