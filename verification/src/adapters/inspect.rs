//! A cursor that shows each element to a closure as it reaches it.

use vstd::prelude::*;
use crate::model::{
    all_of, callable_along, fold_ready, fold_ready_mut, fold_ready_mut_on, folds_mut_to, folds_to,
    lemma_folds_mut_to_push, lemma_reverse_last, step_back, step_front,
};
use crate::traits::{
    DoubleEndedStreamingIterator, DoubleEndedStreamingIteratorMut, StreamingIterator,
    StreamingIteratorMut,
};

verus! {

/// A cursor that follows another cursor and calls a closure on each element
/// that a step leads to: once for each element, however often it is then
/// looked at.
#[derive(Debug)]
pub struct Inspect<I, F> {
    it: I,
    f: F,
}

impl<I, F> Inspect<I, F> {
    /// The wrapped cursor.
    pub closed spec fn inner(&self) -> I {
        self.it
    }

    /// The closure that is shown the elements.
    pub closed spec fn inspector(&self) -> F {
        self.f
    }

    pub(crate) fn new(it: I, f: F) -> (r: Self)
        ensures
            r.inner() == it,
            r.inspector() == f,
    {
        Inspect { it, f }
    }
}

impl<I, F> Inspect<I, F> where I: StreamingIterator, F: FnMut(&I::Item) {
    /// What the cursor's specification functions say, in terms of what it
    /// wraps.
    pub proof fn lemma_unfold(&self)
        ensures
            self.inv() == ({
                &&& self.inner().inv()
                &&& callable_along(
            self.inspector(),
            self.inner().exact() && self.inner().detached(),
            self.inner().pending(),
        )
            }),
            self.exact() == (self.inner().exact()),
            self.current() == (self.inner().current()),
            self.pending() == (self.inner().pending()),
            self.detached() == (self.inner().detached()),
            self.lends() == self.inner().lends(),
    {
    }
}

impl<I, F> StreamingIterator for Inspect<I, F> where I: StreamingIterator, F: FnMut(&I::Item) {
    type Item = I::Item;

    open spec fn inv(&self) -> bool {
        &&& self.inner().inv()
        &&& callable_along(
            self.inspector(),
            self.inner().exact() && self.inner().detached(),
            self.inner().pending(),
        )
    }

    open spec fn exact(&self) -> bool {
        self.inner().exact()
    }

    open spec fn current(&self) -> Option<&Self::Item> {
        self.inner().current()
    }

    open spec fn pending(&self) -> Seq<&Self::Item> {
        self.inner().pending()
    }

    open spec fn detached(&self) -> bool {
        self.inner().detached()
    }

    open spec fn lends(&self) -> spec_fn(&Self::Item) -> bool {
        self.inner().lends()
    }

    fn advance(&mut self)
        ensures
            (*final(self)).inspector() == (*old(self)).inspector(),
            (*final(self)).inner().inv(),
            (*old(self)).inner().exact() ==> (*final(self)).inner().exact() && step_front(
                (*old(self)).inner().pending(),
                (*final(self)).inner().current(),
                (*final(self)).inner().pending(),
            ),
            (*final(self)).inner().current() matches Some(x) ==> call_ensures(
                (*old(self)).inspector(),
                (x,),
                (),
            ),
    {
        match self.it.next() {
            Some(item) => {
                (self.f)(item);
            },
            None => {},
        }
    }

    fn is_done(&self) -> (r: bool) {
        self.it.is_done()
    }

    fn get(&self) -> (r: Option<&Self::Item>) {
        self.it.get()
    }

    fn size_hint(&self) -> (r: (usize, Option<usize>))
        ensures
            call_ensures(I::size_hint, (&self.inner(),), r),
    {
        self.it.size_hint()
    }

    fn fold<Acc, Fold>(self, init: Acc, f: Fold) -> (r: Acc) where
        Self: Sized,
        Fold: FnMut(Acc, &Self::Item) -> Acc,
     {
        let mut this = self;
        let mut step = f;
        let mut acc = init;
        let ghost s = self.it.pending();
        let ghost all = s;
        loop
            invariant
                this.it.inv(),
                this.it.exact(),
                this.f == self.f,
                step == f,
                callable_along(this.f, this.it.detached(), this.it.pending()),
                s == self.inner().pending(),
                all == s,
                fold_ready(f, this.it.pending(), acc),
                forall|out: Acc|
                    folds_to(f, this.it.pending(), acc, out) ==> folds_to(
                        f,
                        all,
                        init,
                        out,
                    ),
            decreases this.it.pending().len(),
        {
            let ghost rest = this.it.pending();
            let ghost before = acc;
            match this.it.next() {
                Some(x) => {
                    (this.f)(x);
                    proof {
                        assert(rest.first() == x);
                    }
                    let ghost prev = acc;
                    acc = step(acc, x);
                    proof {
                        assert(rest.drop_first() =~= this.it.pending());
                        assert forall|out: Acc|
                            folds_to(f, this.it.pending(), acc, out) implies folds_to(
                            f,
                            all,
                            init,
                            out,
                        ) by {
                            assert(folds_to(f, rest, prev, out));
                        }
                    }
                },
                None => {
                    proof {
                        assert(folds_to(f, this.it.pending(), acc, acc));
                    }
                    return acc;
                },
            }
        }
    }
}

impl<I, F> DoubleEndedStreamingIterator for Inspect<I, F> where
    I: DoubleEndedStreamingIterator,
    F: FnMut(&I::Item),
 {
    fn advance_back(&mut self)
        ensures
            (*final(self)).inspector() == (*old(self)).inspector(),
            (*final(self)).inner().inv(),
            (*old(self)).inner().exact() ==> (*final(self)).inner().exact() && step_back(
                (*old(self)).inner().pending(),
                (*final(self)).inner().current(),
                (*final(self)).inner().pending(),
            ),
            (*final(self)).inner().current() matches Some(x) ==> call_ensures(
                (*old(self)).inspector(),
                (x,),
                (),
            ),
    {
        match self.it.next_back() {
            Some(item) => {
                (self.f)(item);
            },
            None => {},
        }
    }

    fn rfold<Acc, Fold>(self, init: Acc, f: Fold) -> (r: Acc) where
        Self: Sized,
        Fold: FnMut(Acc, &Self::Item) -> Acc,
     {
        let mut this = self;
        let mut step = f;
        let mut acc = init;
        let ghost s = self.it.pending();
        let ghost all = s.reverse();
        loop
            invariant
                this.it.inv(),
                this.it.exact(),
                this.f == self.f,
                step == f,
                callable_along(this.f, this.it.detached(), this.it.pending()),
                s == self.inner().pending(),
                all == s.reverse(),
                fold_ready(f, this.it.pending().reverse(), acc),
                forall|out: Acc|
                    folds_to(f, this.it.pending().reverse(), acc, out) ==> folds_to(
                        f,
                        all,
                        init,
                        out,
                    ),
            decreases this.it.pending().len(),
        {
            let ghost rest = this.it.pending();
            let ghost before = acc;
            match this.it.next_back() {
                Some(x) => {
                    (this.f)(x);
                    proof {
                        lemma_reverse_last(rest);
                        assert(rest.reverse().first() == x);
                    }
                    let ghost prev = acc;
                    acc = step(acc, x);
                    proof {
                        assert(rest.reverse().drop_first() =~= this.it.pending().reverse());
                        assert forall|out: Acc|
                            folds_to(f, this.it.pending().reverse(), acc, out) implies folds_to(
                            f,
                            all,
                            init,
                            out,
                        ) by {
                            assert(folds_to(f, rest.reverse(), prev, out));
                        }
                    }
                },
                None => {
                    proof {
                        assert(folds_to(f, this.it.pending().reverse(), acc, acc));
                    }
                    return acc;
                },
            }
        }
    }
}

impl<I, F> StreamingIteratorMut for Inspect<I, F> where
    I: StreamingIteratorMut,
    F: FnMut(&I::Item),
 {
    fn get_mut(&mut self) -> (r: Option<&mut Self::Item>)
        ensures
            (*final(self)).inspector() == (*old(self)).inspector(),
    {
        self.it.get_mut()
    }

    fn fold_mut<Acc, Fold>(self, init: Acc, f: Fold) -> (r: Acc) where
        Self: Sized,
        Fold: FnMut(Acc, &mut Self::Item) -> Acc,
     {
        let mut this = self;
        let mut step = f;
        let mut acc = init;
        let ghost s = self.it.pending();
        let ghost all = s;
        let ghost mut seen: Seq<&I::Item> = Seq::empty();
        let ghost by_run = self.inner().detached() && fold_ready_mut(f, all, init);
        loop
            invariant
                this.it.inv(),
                this.it.exact(),
                this.f == self.f,
                step == f,
                callable_along(this.f, this.it.detached(), this.it.pending()),
                s == self.inner().pending(),
                all == s,
                self.inner().detached() ==> this.it.detached(),
                this.it.lends() == self.inner().lends(),
                !by_run ==> fold_ready_mut_on(
                    f,
                    self.inner().lends(),
                    this.it.pending().len(),
                    acc,
                ),
                all_of(seen, self.inner().lends()),
                seen.len() + this.it.pending().len() == s.len(),
                folds_mut_to(f, seen, init, acc),
                by_run ==> self.inner().detached() && fold_ready_mut(f, this.it.pending(), acc),
                self.inner().detached() ==> forall|out: Acc|
                    folds_mut_to(f, this.it.pending(), acc, out) ==> folds_mut_to(
                        f,
                        all,
                        init,
                        out,
                    ),
            decreases this.it.pending().len(),
        {
            let ghost rest = this.it.pending();
            let ghost before = acc;
            match this.it.next_mut() {
                Some(x) => {
                    (this.f)(&*x);
                    let ghost lent = x;
                    proof {
                        if self.inner().detached() {
                            assert(rest.first() == &*lent);
                        }
                    }
                    let ghost prev = acc;
                    acc = step(acc, x);
                    proof {
                        lemma_folds_mut_to_push(f, seen, &*lent, init, prev, acc);
                        let longer = seen.push(&*lent);
                        assert forall|j: int| 0 <= j < longer.len() implies self.inner().lends()(
                            #[trigger] longer[j],
                        ) by {
                            if j < seen.len() {
                                assert(longer[j] == seen[j]);
                            }
                        }
                        seen = longer;
                        if self.inner().detached() {
                            assert(rest.drop_first() =~= this.it.pending());
                            assert forall|out: Acc|
                                folds_mut_to(f, this.it.pending(), acc, out) implies folds_mut_to(
                                f,
                                all,
                                init,
                                out,
                            ) by {
                                assert(folds_mut_to(f, rest, prev, out));
                            }
                        }
                    }
                },
                None => {
                    proof {
                        assert(seen.len() == self.pending().len());
                        if self.inner().detached() {
                            assert(folds_mut_to(f, this.it.pending(), acc, acc));
                        }
                    }
                    return acc;
                },
            }
        }
    }
}

impl<I, F> DoubleEndedStreamingIteratorMut for Inspect<I, F> where
    I: DoubleEndedStreamingIteratorMut,
    F: FnMut(&I::Item),
 {
    fn rfold_mut<Acc, Fold>(self, init: Acc, f: Fold) -> (r: Acc) where
        Self: Sized,
        Fold: FnMut(Acc, &mut Self::Item) -> Acc,
     {
        let mut this = self;
        let mut step = f;
        let mut acc = init;
        let ghost s = self.it.pending();
        let ghost all = s.reverse();
        let ghost mut seen: Seq<&I::Item> = Seq::empty();
        let ghost by_run = self.inner().detached() && fold_ready_mut(f, all, init);
        loop
            invariant
                this.it.inv(),
                this.it.exact(),
                this.f == self.f,
                step == f,
                callable_along(this.f, this.it.detached(), this.it.pending()),
                s == self.inner().pending(),
                all == s.reverse(),
                self.inner().detached() ==> this.it.detached(),
                this.it.lends() == self.inner().lends(),
                !by_run ==> fold_ready_mut_on(
                    f,
                    self.inner().lends(),
                    this.it.pending().len(),
                    acc,
                ),
                all_of(seen, self.inner().lends()),
                seen.len() + this.it.pending().len() == s.len(),
                folds_mut_to(f, seen, init, acc),
                by_run ==> self.inner().detached() && fold_ready_mut(f, this.it.pending().reverse(), acc),
                self.inner().detached() ==> forall|out: Acc|
                    folds_mut_to(f, this.it.pending().reverse(), acc, out) ==> folds_mut_to(
                        f,
                        all,
                        init,
                        out,
                    ),
            decreases this.it.pending().len(),
        {
            let ghost rest = this.it.pending();
            let ghost before = acc;
            match this.it.next_back_mut() {
                Some(x) => {
                    (this.f)(&*x);
                    let ghost lent = x;
                    proof {
                        lemma_reverse_last(rest);
                        if self.inner().detached() {
                            assert(rest.reverse().first() == &*lent);
                        }
                    }
                    let ghost prev = acc;
                    acc = step(acc, x);
                    proof {
                        lemma_folds_mut_to_push(f, seen, &*lent, init, prev, acc);
                        let longer = seen.push(&*lent);
                        assert forall|j: int| 0 <= j < longer.len() implies self.inner().lends()(
                            #[trigger] longer[j],
                        ) by {
                            if j < seen.len() {
                                assert(longer[j] == seen[j]);
                            }
                        }
                        seen = longer;
                        if self.inner().detached() {
                            assert(rest.reverse().drop_first() =~= this.it.pending().reverse());
                            assert forall|out: Acc|
                                folds_mut_to(f, this.it.pending().reverse(), acc, out) implies folds_mut_to(
                                f,
                                all,
                                init,
                                out,
                            ) by {
                                assert(folds_mut_to(f, rest.reverse(), prev, out));
                            }
                        }
                    }
                },
                None => {
                    proof {
                        assert(seen.len() == self.pending().len());
                        if self.inner().detached() {
                            assert(folds_mut_to(f, this.it.pending().reverse(), acc, acc));
                        }
                    }
                    return acc;
                },
            }
        }
    }
}

} // verus!
