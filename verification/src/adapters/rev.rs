//! A cursor driven from the other end.

use vstd::prelude::*;
use crate::model::lemma_reverse_step;
use crate::traits::{
    DoubleEndedStreamingIterator, DoubleEndedStreamingIteratorMut, StreamingIterator,
    StreamingIteratorMut,
};

verus! {

/// A cursor that runs over the elements of another cursor in the opposite
/// order: its steps forward are the other's steps backward.
pub struct Rev<I>(I);

impl<I> Rev<I> {
    /// The wrapped cursor.
    pub closed spec fn inner(&self) -> I {
        self.0
    }

    pub(crate) fn new(it: I) -> (r: Self)
        ensures
            r.inner() == it,
    {
        Rev(it)
    }
}

impl<I> Rev<I> where I: DoubleEndedStreamingIterator {
    /// What the cursor's specification functions say, in terms of what it
    /// wraps.
    pub proof fn lemma_unfold(&self)
        ensures
            self.inv() == (self.inner().inv()),
            self.exact() == (self.inner().exact()),
            self.current() == (self.inner().current()),
            self.pending() == (self.inner().pending().reverse()),
            self.detached() == (self.inner().detached()),
    {
    }
}

impl<I> StreamingIterator for Rev<I> where I: DoubleEndedStreamingIterator {
    type Item = I::Item;

    open spec fn inv(&self) -> bool {
        self.inner().inv()
    }

    open spec fn exact(&self) -> bool {
        self.inner().exact()
    }

    open spec fn current(&self) -> Option<&Self::Item> {
        self.inner().current()
    }

    open spec fn pending(&self) -> Seq<&Self::Item> {
        self.inner().pending().reverse()
    }

    open spec fn detached(&self) -> bool {
        self.inner().detached()
    }

    open spec fn lends(&self) -> spec_fn(&Self::Item) -> bool {
        self.inner().lends()
    }

    fn advance(&mut self) {
        proof {
            lemma_reverse_step(self.0.pending());
            assert((*self).detached() == self.0.detached());
            assert((*self).lends() == self.0.lends());
        }
        self.0.advance_back();
    }

    fn is_done(&self) -> (r: bool) {
        self.0.is_done()
    }

    fn get(&self) -> (r: Option<&Self::Item>) {
        self.0.get()
    }

    fn next(&mut self) -> (r: Option<&Self::Item>) {
        proof {
            lemma_reverse_step(self.0.pending());
            assert((*self).detached() == self.0.detached());
            assert((*self).lends() == self.0.lends());
        }
        self.0.next_back()
    }

    fn size_hint(&self) -> (r: (usize, Option<usize>))
        ensures
            call_ensures(I::size_hint, (&self.inner(),), r),
    {
        self.0.size_hint()
    }

    fn fold<Acc, Fold>(self, init: Acc, f: Fold) -> (r: Acc) where
        Self: Sized,
        Fold: FnMut(Acc, &Self::Item) -> Acc,
     {
        self.0.rfold(init, f)
    }
}

impl<I> DoubleEndedStreamingIterator for Rev<I> where I: DoubleEndedStreamingIterator {
    fn advance_back(&mut self) {
        proof {
            lemma_reverse_step(self.0.pending());
            assert((*self).detached() == self.0.detached());
            assert((*self).lends() == self.0.lends());
        }
        self.0.advance();
    }

    fn next_back(&mut self) -> (r: Option<&Self::Item>) {
        proof {
            lemma_reverse_step(self.0.pending());
            assert((*self).detached() == self.0.detached());
            assert((*self).lends() == self.0.lends());
        }
        self.0.next()
    }

    fn rfold<Acc, Fold>(self, init: Acc, f: Fold) -> (r: Acc) where
        Self: Sized,
        Fold: FnMut(Acc, &Self::Item) -> Acc,
     {
        proof {
            lemma_reverse_step(self.0.pending());
        }
        self.0.fold(init, f)
    }
}

impl<I> StreamingIteratorMut for Rev<I> where I: DoubleEndedStreamingIteratorMut {
    fn get_mut(&mut self) -> (r: Option<&mut Self::Item>) {
        self.0.get_mut()
    }

    fn fold_mut<Acc, Fold>(self, init: Acc, f: Fold) -> (r: Acc) where
        Self: Sized,
        Fold: FnMut(Acc, &mut Self::Item) -> Acc,
     {
        self.0.rfold_mut(init, f)
    }
}

impl<I> DoubleEndedStreamingIteratorMut for Rev<I> where I: DoubleEndedStreamingIteratorMut {
    fn rfold_mut<Acc, Fold>(self, init: Acc, f: Fold) -> (r: Acc) where
        Self: Sized,
        Fold: FnMut(Acc, &mut Self::Item) -> Acc,
     {
        proof {
            lemma_reverse_step(self.0.pending());
        }
        self.0.fold_mut(init, f)
    }
}

} // verus!
