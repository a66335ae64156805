//! Two cursors, one after the other.

use vstd::prelude::*;
use crate::model::{
    after_first, all_of, before_last, first_of, fold_ready_mut, folds_mut_over, folds_mut_to,
    folds_to, last_of, lemma_fold_ready_mut_on_narrow, lemma_fold_ready_mut_on_split,
    lemma_fold_ready_mut_split, lemma_fold_ready_split, lemma_folds_mut_over_concat,
    lemma_folds_mut_over_widen, lemma_folds_mut_to_concat, lemma_folds_to_concat,
    lemma_reverse_concat,
};
use crate::traits::{
    fold_rest, fold_rest_mut, rfold_rest, rfold_rest_mut, DoubleEndedStreamingIterator,
    DoubleEndedStreamingIteratorMut, StreamingIterator, StreamingIteratorMut,
};

verus! {

#[derive(Debug)]
enum ChainState {
    // Both cursors may have elements to come; the last step was forward.
    BothForward,
    // Both cursors may have elements to come; the last step was backward.
    BothBackward,
    // Only the first cursor has elements to come.
    Front,
    // Only the second cursor has elements to come.
    Back,
}

/// A cursor over the elements of a first cursor, then those of a second.
///
/// Driven from the back it runs over the second cursor's elements first.
/// It remembers which of the two made the last step, and lends out that
/// one's current element.
#[derive(Debug)]
pub struct Chain<A, B> {
    a: A,
    b: B,
    state: ChainState,
}

impl<A, B> Chain<A, B> {
    /// The cursor whose elements come first.
    pub closed spec fn first(&self) -> A {
        self.a
    }

    /// The cursor whose elements come second.
    pub closed spec fn second(&self) -> B {
        self.b
    }

    /// Whether the current element is that of the first cursor.
    pub closed spec fn on_first(&self) -> bool {
        self.state is BothForward || self.state is Front
    }

    /// Whether the first cursor has been found at its end from the front.
    pub closed spec fn first_spent(&self) -> bool {
        self.state is Back
    }

    /// Whether the second cursor has been found at its end from the back.
    pub closed spec fn second_spent(&self) -> bool {
        self.state is Front
    }

    pub(crate) fn new(a: A, b: B) -> (r: Self)
        ensures
            r.first() == a,
            r.second() == b,
            r.on_first(),
            !r.first_spent(),
            !r.second_spent(),
    {
        Chain { a, b, state: ChainState::BothForward }
    }
}

impl<A, B> Chain<A, B> where
    A: StreamingIterator,
    B: StreamingIterator<Item = A::Item>,
 {
    /// What the cursor's specification functions say, in terms of what it
    /// wraps.
    pub proof fn lemma_unfold(&self)
        ensures
            self.inv() == ({
                &&& self.first().inv()
                &&& self.second().inv()
                &&& self.first_spent() ==> !self.on_first()
                &&& self.second_spent() ==> self.on_first()
            }),
            self.exact() == ({
                &&& self.first().exact()
                &&& self.second().exact()
                &&& self.first_spent() ==> self.first().pending().len() == 0
                &&& self.second_spent() ==> self.second().pending().len() == 0
            }),
            self.current() == ({
                if self.on_first() {
                    self.first().current()
                } else {
                    self.second().current()
                }
            }),
            self.pending() == (self.first().pending() + self.second().pending()),
            self.detached() == (self.first().detached() && self.second().detached()),
    {
    }
}

impl<A, B> StreamingIterator for Chain<A, B> where
    A: StreamingIterator,
    B: StreamingIterator<Item = A::Item>,
 {
    type Item = A::Item;

    open spec fn inv(&self) -> bool {
        &&& self.first().inv()
        &&& self.second().inv()
        &&& self.first_spent() ==> !self.on_first()
        &&& self.second_spent() ==> self.on_first()
    }

    open spec fn exact(&self) -> bool {
        &&& self.first().exact()
        &&& self.second().exact()
        &&& self.first_spent() ==> self.first().pending().len() == 0
        &&& self.second_spent() ==> self.second().pending().len() == 0
    }

    open spec fn current(&self) -> Option<&Self::Item> {
        if self.on_first() {
            self.first().current()
        } else {
            self.second().current()
        }
    }

    open spec fn pending(&self) -> Seq<&Self::Item> {
        self.first().pending() + self.second().pending()
    }

    open spec fn detached(&self) -> bool {
        self.first().detached() && self.second().detached()
    }

    open spec fn lends(&self) -> spec_fn(&Self::Item) -> bool {
        |x: &Self::Item| self.first().lends()(x) || self.second().lends()(x)
    }

    fn advance(&mut self) {
        match self.state {
            ChainState::BothForward | ChainState::BothBackward => {
                self.a.advance();
                self.state = if self.a.is_done() {
                    self.b.advance();
                    ChainState::Back
                } else {
                    ChainState::BothForward
                };
            },
            ChainState::Front => self.a.advance(),
            ChainState::Back => self.b.advance(),
        }
        proof {
            if (*old(self)).exact() {
                let a0 = (*old(self)).first().pending();
                let b0 = (*old(self)).second().pending();
                assert((*self).pending() =~= after_first(a0 + b0));
                assert((*self).current() == first_of(a0 + b0));
            }
        }
    }

    fn is_done(&self) -> (r: bool) {
        match self.state {
            ChainState::BothForward | ChainState::Front => self.a.is_done(),
            ChainState::BothBackward | ChainState::Back => self.b.is_done(),
        }
    }

    fn get(&self) -> (r: Option<&Self::Item>) {
        match self.state {
            ChainState::BothForward | ChainState::Front => self.a.get(),
            ChainState::BothBackward | ChainState::Back => self.b.get(),
        }
    }

    fn size_hint(&self) -> (r: (usize, Option<usize>))
        ensures
            r == (0usize, None::<usize>),
    {
        (0, None)
    }

    fn fold<Acc, Fold>(self, init: Acc, f: Fold) -> (r: Acc) where
        Self: Sized,
        Fold: FnMut(Acc, &Self::Item) -> Acc,
     {
        let mut this = self;
        let mut step = f;
        let mut accum = init;
        proof {
            lemma_fold_ready_split(f, self.first().pending(), self.second().pending(), init);
        }
        match this.state {
            ChainState::Back => {
                assert(folds_to(f, self.first().pending(), init, accum));
            },
            _ => {
                accum = fold_rest(&mut this.a, accum, &mut step);
            },
        }
        let ghost mid = accum;
        match this.state {
            ChainState::Front => {
                assert(folds_to(f, self.second().pending(), mid, accum));
            },
            _ => {
                accum = fold_rest(&mut this.b, accum, &mut step);
            },
        }
        proof {
            lemma_folds_to_concat(
                f,
                self.first().pending(),
                self.second().pending(),
                init,
                mid,
                accum,
            );
        }
        accum
    }
}

impl<A, B> DoubleEndedStreamingIterator for Chain<A, B> where
    A: DoubleEndedStreamingIterator,
    B: DoubleEndedStreamingIterator<Item = A::Item>,
 {
    fn advance_back(&mut self) {
        match self.state {
            ChainState::BothForward | ChainState::BothBackward => {
                self.b.advance_back();
                self.state = if self.b.is_done() {
                    self.a.advance_back();
                    ChainState::Front
                } else {
                    ChainState::BothBackward
                };
            },
            ChainState::Front => self.a.advance_back(),
            ChainState::Back => self.b.advance_back(),
        }
        proof {
            if (*old(self)).exact() {
                let a0 = (*old(self)).first().pending();
                let b0 = (*old(self)).second().pending();
                assert((*self).pending() =~= before_last(a0 + b0));
                assert((*self).current() == last_of(a0 + b0));
            }
        }
    }

    fn rfold<Acc, Fold>(self, init: Acc, f: Fold) -> (r: Acc) where
        Self: Sized,
        Fold: FnMut(Acc, &Self::Item) -> Acc,
     {
        let mut this = self;
        let mut step = f;
        let mut accum = init;
        proof {
            lemma_reverse_concat(self.first().pending(), self.second().pending());
            lemma_fold_ready_split(
                f,
                self.second().pending().reverse(),
                self.first().pending().reverse(),
                init,
            );
        }
        match this.state {
            ChainState::Front => {
                assert(folds_to(f, self.second().pending().reverse(), init, accum));
            },
            _ => {
                accum = rfold_rest(&mut this.b, accum, &mut step);
            },
        }
        let ghost mid = accum;
        match this.state {
            ChainState::Back => {
                assert(folds_to(f, self.first().pending().reverse(), mid, accum));
            },
            _ => {
                accum = rfold_rest(&mut this.a, accum, &mut step);
            },
        }
        proof {
            lemma_folds_to_concat(
                f,
                self.second().pending().reverse(),
                self.first().pending().reverse(),
                init,
                mid,
                accum,
            );
            lemma_reverse_concat(self.first().pending(), self.second().pending());
        }
        accum
    }
}

impl<A, B> StreamingIteratorMut for Chain<A, B> where
    A: StreamingIteratorMut,
    B: StreamingIteratorMut<Item = A::Item>,
 {
    fn get_mut(&mut self) -> (r: Option<&mut Self::Item>) {
        match self.state {
            ChainState::BothForward | ChainState::Front => self.a.get_mut(),
            ChainState::BothBackward | ChainState::Back => self.b.get_mut(),
        }
    }

    fn fold_mut<Acc, Fold>(self, init: Acc, f: Fold) -> (r: Acc) where
        Self: Sized,
        Fold: FnMut(Acc, &mut Self::Item) -> Acc,
     {
        let ghost no_one = (self.state matches ChainState::Back);
        let ghost no_two = (self.state matches ChainState::Front);
        let mut this = self;
        let mut step = f;
        let mut accum = init;
        let ghost one = self.first().pending();
        let ghost two = self.second().pending();
        proof {
            if self.detached() && fold_ready_mut(f, one + two, init) {
                lemma_fold_ready_mut_split(f, one, two, init);
            } else {
                lemma_fold_ready_mut_on_split(f, self.lends(), one.len(), two.len(), init);
                lemma_fold_ready_mut_on_narrow(
                    f,
                    self.lends(),
                    self.first().lends(),
                    one.len(),
                    init,
                );
            }
            assert(folds_mut_to(f, Seq::<&A::Item>::empty(), init, init));
        }
        match this.state {
            ChainState::Back => {
                assert(one.len() == 0);
            },
            _ => {
                accum = fold_rest_mut(&mut this.a, accum, &mut step);
            },
        }
        let ghost mid = accum;
        proof {
            assert(folds_mut_to(f, Seq::<&A::Item>::empty(), mid, mid));
            if no_one {
                assert(all_of(Seq::<&A::Item>::empty(), self.lends()));
                assert(folds_mut_over(f, self.lends(), 0, init, mid));
            } else {
                lemma_folds_mut_over_widen(
                    f,
                    self.lends(),
                    self.first().lends(),
                    one.len(),
                    init,
                    mid,
                );
            }
            if !(self.detached() && fold_ready_mut(f, one + two, init)) {
                lemma_fold_ready_mut_on_narrow(
                    f,
                    self.lends(),
                    self.second().lends(),
                    two.len(),
                    mid,
                );
            }
        }
        match this.state {
            ChainState::Front => {
                assert(two.len() == 0);
            },
            _ => {
                accum = fold_rest_mut(&mut this.b, accum, &mut step);
            },
        }
        proof {
            if no_two {
                assert(all_of(Seq::<&A::Item>::empty(), self.lends()));
                assert(folds_mut_over(f, self.lends(), 0, mid, accum));
            } else {
                lemma_folds_mut_over_widen(
                    f,
                    self.lends(),
                    self.second().lends(),
                    two.len(),
                    mid,
                    accum,
                );
            }
            lemma_folds_mut_over_concat(f, self.lends(), one.len(), two.len(), init, mid, accum);
            if self.detached() {
                lemma_folds_mut_to_concat(f, one, two, init, mid, accum);
            }
        }
        accum
    }
}

impl<A, B> DoubleEndedStreamingIteratorMut for Chain<A, B> where
    A: DoubleEndedStreamingIteratorMut,
    B: DoubleEndedStreamingIteratorMut<Item = A::Item>,
 {
    fn rfold_mut<Acc, Fold>(self, init: Acc, f: Fold) -> (r: Acc) where
        Self: Sized,
        Fold: FnMut(Acc, &mut Self::Item) -> Acc,
     {
        let ghost no_one = (self.state matches ChainState::Front);
        let ghost no_two = (self.state matches ChainState::Back);
        let mut this = self;
        let mut step = f;
        let mut accum = init;
        let ghost one = self.second().pending().reverse();
        let ghost two = self.first().pending().reverse();
        proof {
                lemma_reverse_concat(self.first().pending(), self.second().pending());
            if self.detached() && fold_ready_mut(f, one + two, init) {
                lemma_fold_ready_mut_split(f, one, two, init);
            } else {
                lemma_fold_ready_mut_on_split(f, self.lends(), one.len(), two.len(), init);
                lemma_fold_ready_mut_on_narrow(
                    f,
                    self.lends(),
                    self.second().lends(),
                    one.len(),
                    init,
                );
            }
            assert(folds_mut_to(f, Seq::<&A::Item>::empty(), init, init));
        }
        match this.state {
            ChainState::Front => {
                assert(one.len() == 0);
            },
            _ => {
                accum = rfold_rest_mut(&mut this.b, accum, &mut step);
            },
        }
        let ghost mid = accum;
        proof {
            assert(folds_mut_to(f, Seq::<&A::Item>::empty(), mid, mid));
            if no_one {
                assert(all_of(Seq::<&A::Item>::empty(), self.lends()));
                assert(folds_mut_over(f, self.lends(), 0, init, mid));
            } else {
                lemma_folds_mut_over_widen(
                    f,
                    self.lends(),
                    self.second().lends(),
                    one.len(),
                    init,
                    mid,
                );
            }
            if !(self.detached() && fold_ready_mut(f, one + two, init)) {
                lemma_fold_ready_mut_on_narrow(
                    f,
                    self.lends(),
                    self.first().lends(),
                    two.len(),
                    mid,
                );
            }
        }
        match this.state {
            ChainState::Back => {
                assert(two.len() == 0);
            },
            _ => {
                accum = rfold_rest_mut(&mut this.a, accum, &mut step);
            },
        }
        proof {
            if no_two {
                assert(all_of(Seq::<&A::Item>::empty(), self.lends()));
                assert(folds_mut_over(f, self.lends(), 0, mid, accum));
            } else {
                lemma_folds_mut_over_widen(
                    f,
                    self.lends(),
                    self.first().lends(),
                    two.len(),
                    mid,
                    accum,
                );
            }
            lemma_folds_mut_over_concat(f, self.lends(), one.len(), two.len(), init, mid, accum);
            if self.detached() {
                lemma_folds_mut_to_concat(f, one, two, init, mid, accum);
            }
        }
        accum
    }
}

} // verus!
