//! A cursor over parts of another cursor's elements.

use vstd::prelude::*;
use std::marker::PhantomData;
use crate::model::{
    after_first, callable_along_ref, functional_ref, image_ref, lemma_image_ref, mapped_ref,
    step_front,
};
use crate::traits::StreamingIterator;

verus! {

/// A cursor that follows another cursor and lends out, of each element, the
/// part that a closure picks.
///
/// The closure is called when an element is looked at, not when it is
/// reached.
#[derive(Debug)]
pub struct MapRef<I, B: ?Sized, F> {
    it: I,
    f: F,
    part: PhantomData<B>,
}

impl<I, B: ?Sized, F> MapRef<I, B, F> {
    /// The wrapped cursor.
    pub closed spec fn inner(&self) -> I {
        self.it
    }

    /// The closure that picks the parts.
    pub closed spec fn picker(&self) -> F {
        self.f
    }

    pub(crate) fn new(it: I, f: F) -> (r: Self)
        ensures
            r.inner() == it,
            r.picker() == f,
    {
        MapRef { it, f, part: PhantomData }
    }
}

impl<I, B: ?Sized, F> MapRef<I, B, F> where
    I: StreamingIterator,
    F: Fn(&I::Item) -> &B,
 {
    /// What the cursor's specification functions say, in terms of what it
    /// wraps.
    pub proof fn lemma_unfold(&self)
        ensures
            self.inv() == ({
                &&& self.inner().inv()
                &&& callable_along_ref(
                    self.picker(),
                    self.inner().exact(),
                    self.inner().current(),
                    self.inner().pending(),
                )
                &&& functional_ref(self.picker())
            }),
            self.exact() == (self.inner().exact()),
            self.current() == ({
                match self.inner().current() {
                    Some(x) => Some(image_ref(self.picker(), x)),
                    None => None,
                }
            }),
            self.pending() == (mapped_ref(self.picker(), self.inner().pending())),
            self.detached() == (self.inner().detached()),
    {
    }
}

impl<I, B: ?Sized, F> StreamingIterator for MapRef<I, B, F> where
    I: StreamingIterator,
    F: Fn(&I::Item) -> &B,
 {
    type Item = B;

    open spec fn inv(&self) -> bool {
        &&& self.inner().inv()
        &&& callable_along_ref(
            self.picker(),
            self.inner().exact(),
            self.inner().current(),
            self.inner().pending(),
        )
        &&& functional_ref(self.picker())
    }

    open spec fn exact(&self) -> bool {
        self.inner().exact()
    }

    open spec fn current(&self) -> Option<&B> {
        match self.inner().current() {
            Some(x) => Some(image_ref(self.picker(), x)),
            None => None,
        }
    }

    open spec fn pending(&self) -> Seq<&B> {
        mapped_ref(self.picker(), self.inner().pending())
    }

    open spec fn detached(&self) -> bool {
        self.inner().detached()
    }

    fn advance(&mut self)
        ensures
            (*final(self)).picker() == (*old(self)).picker(),
            (*final(self)).inner().inv(),
            (*old(self)).inner().exact() ==> (*final(self)).inner().exact() && step_front(
                (*old(self)).inner().pending(),
                (*final(self)).inner().current(),
                (*final(self)).inner().pending(),
            ),
    {
        proof {
            assert((*self).detached() == self.it.detached());
        }
        self.it.advance();
        proof {
            if (*old(self)).exact() {
                assert((*self).pending() =~= after_first((*old(self)).pending()));
            }
        }
    }

    fn is_done(&self) -> (r: bool) {
        self.it.is_done()
    }

    fn get(&self) -> (r: Option<&B>)
        ensures
            match r {
                Some(y) => self.inner().current() is Some && call_ensures(
                    self.picker(),
                    (self.inner().current()->0,),
                    y,
                ),
                None => self.inner().current() is None,
            },
    {
        match self.it.get() {
            Some(x) => {
                let y = (self.f)(x);
                proof {
                    lemma_image_ref(self.f, x, y);
                }
                Some(y)
            },
            None => None,
        }
    }

    fn size_hint(&self) -> (r: (usize, Option<usize>))
        ensures
            call_ensures(I::size_hint, (&self.inner(),), r),
    {
        self.it.size_hint()
    }

    fn next(&mut self) -> (r: Option<&B>)
        ensures
            (*final(self)).picker() == (*old(self)).picker(),
            (*final(self)).inner().inv(),
            (*old(self)).inner().exact() ==> (*final(self)).inner().exact() && step_front(
                (*old(self)).inner().pending(),
                (*final(self)).inner().current(),
                (*final(self)).inner().pending(),
            ),
    {
        self.advance();
        (*self).get()
    }
}

} // verus!
