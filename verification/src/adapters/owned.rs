//! Iterators that give away copies of the elements of a cursor.
//!
//! These are the way out of the streaming world: each step advances the
//! wrapped cursor and hands out a value made of the element it reached.

use vstd::prelude::*;
use std::borrow::ToOwned;
use crate::model::{step_back, step_front, taken};
use crate::traits::{DoubleEndedStreamingIterator, StreamingIterator};

verus! {

/// Makes an owned value of `x`.
///
/// This is `ToOwned::to_owned` of the standard library. Nothing is taken
/// for granted of the value it returns.
#[verifier::external_body]
fn owned_of<T: ?Sized + ToOwned>(x: &T) -> (r: T::Owned) {
    x.to_owned()
}

/// An iterator over clones of the elements of a cursor.
#[derive(Clone, Debug)]
pub struct Cloned<I>(I);

impl<I> Cloned<I> {
    /// The wrapped cursor.
    pub closed spec fn inner(&self) -> I {
        self.0
    }

    pub(crate) fn new(it: I) -> (r: Self)
        ensures
            r.inner() == it,
    {
        Cloned(it)
    }
}

impl<I> Cloned<I> where I: StreamingIterator, I::Item: Clone {
    /// What must hold of the iterator for it to be driven.
    pub open spec fn inv(&self) -> bool {
        self.inner().inv()
    }

    /// Advances the cursor and returns a clone of the element it reached.
    pub fn next(&mut self) -> (r: Option<I::Item>)
        requires
            (*old(self)).inv(),
        ensures
            (*final(self)).inv(),
            (*old(self)).inner().exact() ==> (*final(self)).inner().exact() && step_front(
                (*old(self)).inner().pending(),
                (*final(self)).inner().current(),
                (*final(self)).inner().pending(),
            ),
            match r {
                Some(y) => (*final(self)).inner().current() matches Some(x) && cloned(*x, y),
                None => (*final(self)).inner().current() is None,
            },
    {
        match self.0.next() {
            Some(x) => Some(x.clone()),
            None => None,
        }
    }

    /// Returns the wrapped cursor's bounds on the number of elements still
    /// to come.
    pub fn size_hint(&self) -> (r: (usize, Option<usize>))
        requires
            self.inv(),
        ensures
            call_ensures(I::size_hint, (&self.inner(),), r),
    {
        self.0.size_hint()
    }
}

impl<I> Cloned<I> where I: DoubleEndedStreamingIterator, I::Item: Clone {
    /// Moves the cursor one step from the back and returns a clone of the
    /// element it reached.
    pub fn next_back(&mut self) -> (r: Option<I::Item>)
        requires
            (*old(self)).inv(),
        ensures
            (*final(self)).inv(),
            (*old(self)).inner().exact() ==> (*final(self)).inner().exact() && step_back(
                (*old(self)).inner().pending(),
                (*final(self)).inner().current(),
                (*final(self)).inner().pending(),
            ),
            match r {
                Some(y) => (*final(self)).inner().current() matches Some(x) && cloned(*x, y),
                None => (*final(self)).inner().current() is None,
            },
    {
        match self.0.next_back() {
            Some(x) => Some(x.clone()),
            None => None,
        }
    }
}

/// An iterator over copies of the elements of a cursor.
#[derive(Clone, Debug)]
pub struct Copied<I>(I);

impl<I> Copied<I> {
    /// The wrapped cursor.
    pub closed spec fn inner(&self) -> I {
        self.0
    }

    pub(crate) fn new(it: I) -> (r: Self)
        ensures
            r.inner() == it,
    {
        Copied(it)
    }
}

impl<I> Copied<I> where I: StreamingIterator, I::Item: Copy {
    /// What must hold of the iterator for it to be driven.
    pub open spec fn inv(&self) -> bool {
        self.inner().inv()
    }

    /// Advances the cursor and returns a copy of the element it reached.
    pub fn next(&mut self) -> (r: Option<I::Item>)
        requires
            (*old(self)).inv(),
        ensures
            (*final(self)).inv(),
            (*old(self)).inner().exact() ==> (*final(self)).inner().exact() && step_front(
                (*old(self)).inner().pending(),
                (*final(self)).inner().current(),
                (*final(self)).inner().pending(),
            ),
            match r {
                Some(y) => (*final(self)).inner().current() == Some(&y),
                None => (*final(self)).inner().current() is None,
            },
    {
        match self.0.next() {
            Some(x) => Some(*x),
            None => None,
        }
    }

    /// Returns the wrapped cursor's bounds on the number of elements still
    /// to come.
    pub fn size_hint(&self) -> (r: (usize, Option<usize>))
        requires
            self.inv(),
        ensures
            call_ensures(I::size_hint, (&self.inner(),), r),
    {
        self.0.size_hint()
    }
}

impl<I> Copied<I> where I: DoubleEndedStreamingIterator, I::Item: Copy {
    /// Moves the cursor one step from the back and returns a copy of the
    /// element it reached.
    pub fn next_back(&mut self) -> (r: Option<I::Item>)
        requires
            (*old(self)).inv(),
        ensures
            (*final(self)).inv(),
            (*old(self)).inner().exact() ==> (*final(self)).inner().exact() && step_back(
                (*old(self)).inner().pending(),
                (*final(self)).inner().current(),
                (*final(self)).inner().pending(),
            ),
            match r {
                Some(y) => (*final(self)).inner().current() == Some(&y),
                None => (*final(self)).inner().current() is None,
            },
    {
        match self.0.next_back() {
            Some(x) => Some(*x),
            None => None,
        }
    }
}

/// An iterator over owned versions of the elements of a cursor.
#[derive(Clone, Debug)]
pub struct Owned<I>(I);

impl<I> Owned<I> {
    /// The wrapped cursor.
    pub closed spec fn inner(&self) -> I {
        self.0
    }

    pub(crate) fn new(it: I) -> (r: Self)
        ensures
            r.inner() == it,
    {
        Owned(it)
    }
}

impl<I> Owned<I> where I: StreamingIterator, I::Item: ToOwned {
    /// What must hold of the iterator for it to be driven.
    pub open spec fn inv(&self) -> bool {
        self.inner().inv()
    }

    /// Advances the cursor and returns an owned version of the element it
    /// reached.
    pub fn next(&mut self) -> (r: Option<<I::Item as ToOwned>::Owned>)
        requires
            (*old(self)).inv(),
        ensures
            (*final(self)).inv(),
            (*old(self)).inner().exact() ==> (*final(self)).inner().exact() && step_front(
                (*old(self)).inner().pending(),
                (*final(self)).inner().current(),
                (*final(self)).inner().pending(),
            ),
            r is Some == (*final(self)).inner().current() is Some,
    {
        match self.0.next() {
            Some(x) => Some(owned_of(x)),
            None => None,
        }
    }

    /// Returns the wrapped cursor's bounds on the number of elements still
    /// to come.
    pub fn size_hint(&self) -> (r: (usize, Option<usize>))
        requires
            self.inv(),
        ensures
            call_ensures(I::size_hint, (&self.inner(),), r),
    {
        self.0.size_hint()
    }
}

impl<I> Owned<I> where I: DoubleEndedStreamingIterator, I::Item: Sized + ToOwned {
    /// Moves the cursor one step from the back and returns an owned version
    /// of the element it reached.
    pub fn next_back(&mut self) -> (r: Option<<I::Item as ToOwned>::Owned>)
        requires
            (*old(self)).inv(),
        ensures
            (*final(self)).inv(),
            (*old(self)).inner().exact() ==> (*final(self)).inner().exact() && step_back(
                (*old(self)).inner().pending(),
                (*final(self)).inner().current(),
                (*final(self)).inner().pending(),
            ),
            r is Some == (*final(self)).inner().current() is Some,
    {
        match self.0.next_back() {
            Some(x) => Some(owned_of(x)),
            None => None,
        }
    }
}

} // verus!
