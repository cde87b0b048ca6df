//! A drop-in-replacement-style trait offering the familiar `Vec` aliases
//! `push`, `pop`, `first` and `last` for sequence-like containers.

use vstd::prelude::*;

use crate::Igush;

verus! {

/// Implements applicable methods from `Vec<T>` and `[T]` under their usual
/// names, for containers whose view is a sequence.
pub trait VecCompat<T>: View<V = Seq<T>> + Sized {
    /// The implementor's structural invariant.
    spec fn wf(&self) -> bool;

    /// Appends an element to the back of the collection.
    fn push(&mut self, element: T)
        requires
            old(self).wf(),
        ensures
            final(self).wf(),
            final(self)@ == old(self)@.push(element),
    ;

    /// Removes the last element and returns it, or `None` if the collection
    /// is empty.
    fn pop(&mut self) -> (r: Option<T>)
        requires
            old(self).wf(),
        ensures
            final(self).wf(),
            old(self)@.len() > 0 ==> r == Some(old(self)@.last()) && final(self)@ == old(
                self,
            )@.drop_last(),
            old(self)@.len() == 0 ==> r.is_none() && final(self)@ == old(self)@,
    ;

    /// Returns the first element of the collection, or `None` if it is
    /// empty.
    fn first(&self) -> (r: Option<&T>)
        requires
            self.wf(),
        ensures
            self@.len() == 0 ==> r.is_none(),
            self@.len() > 0 ==> r == Some(&self@[0]),
    ;

    /// Returns a mutable reference to the first element of the collection,
    /// or `None` if it is empty.
    fn first_mut(&mut self) -> (r: Option<&mut T>)
        requires
            old(self).wf(),
        ensures
            final(self).wf(),
            old(self)@.len() == 0 ==> r.is_none() && final(self)@ == old(self)@,
            old(self)@.len() > 0 ==> r.is_some() && *r.unwrap() == old(self)@[0]
                && final(self)@ == old(self)@.update(0, *final(r.unwrap())),
    ;

    /// Returns the last element of the collection, or `None` if it is
    /// empty.
    fn last(&self) -> (r: Option<&T>)
        requires
            self.wf(),
        ensures
            self@.len() == 0 ==> r.is_none(),
            self@.len() > 0 ==> r == Some(&self@.last()),
    ;

    /// Returns a mutable reference to the last element of the collection,
    /// or `None` if it is empty.
    fn last_mut(&mut self) -> (r: Option<&mut T>)
        requires
            old(self).wf(),
        ensures
            final(self).wf(),
            old(self)@.len() == 0 ==> r.is_none() && final(self)@ == old(self)@,
            old(self)@.len() > 0 ==> r.is_some() && *r.unwrap() == old(self)@.last()
                && final(self)@ == old(self)@.update(old(self)@.len() - 1, *final(r.unwrap())),
    ;
}

impl<T> VecCompat<T> for Igush<T> {
    open spec fn wf(&self) -> bool {
        self.inv()
    }

    fn push(&mut self, element: T) {
        self.push_back(element);
    }

    fn pop(&mut self) -> (r: Option<T>) {
        self.pop_back()
    }

    fn first(&self) -> (r: Option<&T>) {
        self.front()
    }

    fn first_mut(&mut self) -> (r: Option<&mut T>) {
        self.front_mut()
    }

    fn last(&self) -> (r: Option<&T>) {
        self.back()
    }

    fn last_mut(&mut self) -> (r: Option<&mut T>) {
        self.back_mut()
    }
}

} // verus!
