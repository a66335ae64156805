//! A cursor that is well behaved before its first step and after its last.

use vstd::prelude::*;
use crate::model::folds_mut_to;
use crate::traits::{StreamingIterator, StreamingIteratorMut};

verus! {

#[derive(Copy, Clone, Debug)]
enum FuseState {
    Start,
    Middle,
    End,
}

/// A cursor that stands on nothing before its first step, and that stays on
/// nothing once a step has led there, whatever the wrapped cursor would do.
#[derive(Clone, Debug)]
pub struct Fuse<I> {
    it: I,
    state: FuseState,
}

impl<I> Fuse<I> {
    /// The wrapped cursor.
    pub closed spec fn inner(&self) -> I {
        self.it
    }

    /// Whether the cursor has yet to be advanced.
    pub closed spec fn fresh(&self) -> bool {
        self.state is Start
    }

    /// Whether a step has led the cursor to the end.
    pub closed spec fn spent(&self) -> bool {
        self.state is End
    }

    pub(crate) fn new(it: I) -> (r: Self)
        ensures
            r.inner() == it,
            r.fresh(),
            !r.spent(),
    {
        Fuse { it, state: FuseState::Start }
    }
}

impl<I: StreamingIterator> Fuse<I> {
    /// What the cursor's specification functions say, in terms of what it
    /// wraps.
    pub proof fn lemma_unfold(&self)
        ensures
            self.inv() == ({
                &&& self.inner().inv()
                &&& !(self.fresh() && self.spent())
                &&& !self.fresh() && !self.spent() ==> self.inner().current() is Some
            }),
            self.exact() == ({
                &&& self.inner().exact()
                &&& self.spent() ==> self.inner().pending().len() == 0
            }),
            self.current() == ({
                if self.fresh() || self.spent() {
                    None
                } else {
                    self.inner().current()
                }
            }),
            self.pending() == (self.inner().pending()),
            self.detached() == (self.inner().detached()),
            self.lends() == self.inner().lends(),
    {
    }
}

impl<I: StreamingIterator> StreamingIterator for Fuse<I> {
    type Item = I::Item;

    open spec fn inv(&self) -> bool {
        &&& self.inner().inv()
        &&& !(self.fresh() && self.spent())
        &&& !self.fresh() && !self.spent() ==> self.inner().current() is Some
    }

    open spec fn exact(&self) -> bool {
        &&& self.inner().exact()
        &&& self.spent() ==> self.inner().pending().len() == 0
    }

    open spec fn current(&self) -> Option<&Self::Item> {
        if self.fresh() || self.spent() {
            None
        } else {
            self.inner().current()
        }
    }

    open spec fn pending(&self) -> Seq<&Self::Item> {
        self.inner().pending()
    }

    open spec fn detached(&self) -> bool {
        self.inner().detached()
    }

    open spec fn lends(&self) -> spec_fn(&Self::Item) -> bool {
        self.inner().lends()
    }

    fn advance(&mut self)
        ensures
            !(*final(self)).fresh(),
            (*old(self)).spent() ==> (*final(self)).spent() && (*final(self)).inner() == (*old(self)).inner(),
            (*final(self)).spent() == ((*final(self)).current() is None),
    {
        proof {
            assert((*self).detached() == self.it.detached());
            assert((*self).lends() == self.it.lends());
        }
        match self.state {
            FuseState::Start => {
                self.it.advance();
                self.state = if self.it.is_done() {
                    FuseState::End
                } else {
                    FuseState::Middle
                };
            },
            FuseState::Middle => {
                self.it.advance();
                if self.it.is_done() {
                    self.state = FuseState::End;
                }
            },
            FuseState::End => {},
        }
    }

    fn is_done(&self) -> (r: bool) {
        match self.state {
            FuseState::Start | FuseState::End => true,
            FuseState::Middle => false,
        }
    }

    fn get(&self) -> (r: Option<&Self::Item>) {
        match self.state {
            FuseState::Start | FuseState::End => None,
            FuseState::Middle => self.it.get(),
        }
    }

    fn size_hint(&self) -> (r: (usize, Option<usize>))
        ensures
            call_ensures(I::size_hint, (&self.inner(),), r),
    {
        self.it.size_hint()
    }

    fn next(&mut self) -> (r: Option<&Self::Item>)
        ensures
            !(*final(self)).fresh(),
            (*old(self)).spent() ==> (*final(self)).spent() && (*final(self)).inner() == (*old(self)).inner(),
            (*final(self)).spent() == (r is None),
    {
        proof {
            assert((*self).detached() == self.it.detached());
            assert((*self).lends() == self.it.lends());
        }
        match self.state {
            FuseState::Start => match self.it.next() {
                Some(i) => {
                    self.state = FuseState::Middle;
                    Some(i)
                },
                None => {
                    self.state = FuseState::End;
                    None
                },
            },
            FuseState::Middle => match self.it.next() {
                Some(i) => Some(i),
                None => {
                    self.state = FuseState::End;
                    None
                },
            },
            FuseState::End => None,
        }
    }

    fn count(self) -> (r: usize) {
        match self.state {
            FuseState::Start | FuseState::Middle => self.it.count(),
            FuseState::End => 0,
        }
    }

    fn fold<Acc, Fold>(self, init: Acc, f: Fold) -> (r: Acc) where
        Self: Sized,
        Fold: FnMut(Acc, &Self::Item) -> Acc,
     {
        match self.state {
            FuseState::Start | FuseState::Middle => self.it.fold(init, f),
            FuseState::End => init,
        }
    }
}

impl<I: StreamingIteratorMut> StreamingIteratorMut for Fuse<I> {
    fn get_mut(&mut self) -> (r: Option<&mut Self::Item>)
        ensures
            (*final(self)).fresh() == (*old(self)).fresh(),
            (*final(self)).spent() == (*old(self)).spent(),
    {
        match self.state {
            FuseState::Start | FuseState::End => None,
            FuseState::Middle => self.it.get_mut(),
        }
    }

    fn fold_mut<Acc, Fold>(self, init: Acc, f: Fold) -> (r: Acc) where
        Self: Sized,
        Fold: FnMut(Acc, &mut Self::Item) -> Acc,
     {
        match self.state {
            FuseState::Start | FuseState::Middle => self.it.fold_mut(init, f),
            FuseState::End => {
                assert(folds_mut_to(f, self.pending(), init, init));
                init
            },
        }
    }
}

} // verus!
