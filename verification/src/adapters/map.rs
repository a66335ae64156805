//! A cursor over the images of another cursor's elements.

use vstd::prelude::*;
use crate::model::{
    after_first, all_of, as_ref_of, before_last, callable_along, callable_on, fold_ready,
    fold_ready_mut, folds_each_mut_to, folds_each_to, folds_mut_to, folds_to, functional, image,
    lemma_fold_ready_mut_on_seq, lemma_image, lemma_reverse_last, lends_to, mapped, step_back,
    step_front,
};
use crate::traits::{
    DoubleEndedStreamingIterator, DoubleEndedStreamingIteratorMut, StreamingIterator,
    StreamingIteratorMut,
};

verus! {

/// A cursor that, at each step, takes the next element of another cursor,
/// hands it to a closure and stands on what the closure made of it.
#[derive(Debug)]
pub struct Mapped<I, B, F> {
    it: I,
    f: F,
    item: Option<B>,
}

impl<I, B, F> Mapped<I, B, F> {
    /// The wrapped cursor.
    pub closed spec fn inner(&self) -> I {
        self.it
    }

    /// The closure that makes the elements.
    pub closed spec fn mapper(&self) -> F {
        self.f
    }

    /// The image that the cursor holds.
    pub closed spec fn slot(&self) -> Option<B> {
        self.item
    }

    pub(crate) fn new(it: I, f: F) -> (r: Self)
        ensures
            r.inner() == it,
            r.mapper() == f,
            r.slot() is None,
    {
        Mapped { it, f, item: None }
    }
}

impl<I, B, F> Mapped<I, B, F> where I: StreamingIterator, F: FnMut(&I::Item) -> B {
    /// What the cursor's specification functions say, in terms of what it
    /// wraps.
    pub proof fn lemma_unfold(&self)
        ensures
            self.inv() == ({
                &&& self.inner().inv()
                &&& callable_along(self.mapper(), self.inner().exact(), self.inner().pending())
            }),
            self.exact() == ({
                &&& self.inner().exact()
                &&& functional(self.mapper())
            }),
            self.current() == (as_ref_of(self.slot())),
            self.pending() == (mapped(self.mapper(), self.inner().pending())),
            self.detached() == true,
    {
    }
}

impl<I, B, F> StreamingIterator for Mapped<I, B, F> where I: StreamingIterator, F: FnMut(&I::Item) -> B {
    type Item = B;

    open spec fn inv(&self) -> bool {
        &&& self.inner().inv()
        &&& callable_along(self.mapper(), self.inner().exact(), self.inner().pending())
    }

    open spec fn exact(&self) -> bool {
        &&& self.inner().exact()
        &&& functional(self.mapper())
    }

    open spec fn current(&self) -> Option<&B> {
        as_ref_of(self.slot())
    }

    open spec fn pending(&self) -> Seq<&B> {
        mapped(self.mapper(), self.inner().pending())
    }

    open spec fn detached(&self) -> bool {
        true
    }

    fn advance(&mut self)
        ensures
            (*final(self)).mapper() == (*old(self)).mapper(),
            (*final(self)).inner().inv(),
            (*old(self)).inner().exact() ==> (*final(self)).inner().exact() && step_front(
                (*old(self)).inner().pending(),
                (*final(self)).inner().current(),
                (*final(self)).inner().pending(),
            ),
            match (*final(self)).inner().current() {
                Some(x) => (*final(self)).slot() matches Some(y) && call_ensures(
                    (*old(self)).mapper(),
                    (x,),
                    y,
                ),
                None => (*final(self)).slot() is None,
            },
    {
        let ghost s = self.it.pending();
        self.item = match self.it.next() {
            Some(x) => Some((self.f)(x)),
            None => None,
        };
        proof {
            if (*old(self)).exact() {
                match self.it.current() {
                    Some(x) => {
                        lemma_image(self.f, x, self.item->0);
                    },
                    None => {},
                }
                assert((*self).pending() =~= after_first((*old(self)).pending()));
            }
        }
    }

    fn get(&self) -> (r: Option<&B>) {
        self.item.as_ref()
    }

    fn size_hint(&self) -> (r: (usize, Option<usize>))
        ensures
            call_ensures(I::size_hint, (&self.inner(),), r),
    {
        self.it.size_hint()
    }

    fn fold<Acc, Fold>(self, init: Acc, f: Fold) -> (r: Acc) where
        Self: Sized,
        Fold: FnMut(Acc, &Self::Item) -> Acc,

        ensures
            folds_each_to(self.mapper(), f, self.inner().pending(), init, r),
    {
        let mut this = self;
        let mut step = f;
        let mut acc = init;
        let ghost s = self.it.pending();
        let ghost all = mapped::<I::Item, B, F>(self.f, s);
        loop
            invariant
                this.it.inv(),
                this.it.exact(),
                this.f == self.f,
                step == f,
                callable_on(this.f, this.it.pending()),
                functional(this.f),
                s == self.inner().pending(),
                all == mapped::<I::Item, B, F>(self.f, s),
                fold_ready(f, mapped::<I::Item, B, F>(self.f, this.it.pending()), acc),
                forall|out: Acc|
                    folds_to(f, mapped::<I::Item, B, F>(self.f, this.it.pending()), acc, out) ==> folds_to(
                        f,
                        all,
                        init,
                        out,
                    ),
                forall|out: Acc|
                    folds_each_to(this.f, f, this.it.pending(), acc, out) ==> folds_each_to(
                        this.f,
                        f,
                        s,
                        init,
                        out,
                    ),
            decreases this.it.pending().len(),
        {
            let ghost rest = this.it.pending();
            let ghost before = acc;
            match this.it.next() {
                Some(x) => {
                    let y = (this.f)(x);
                    let ghost made = y;
                    proof {
                        lemma_image(this.f, x, made);
                        assert(mapped::<I::Item, B, F>(self.f, rest).first() == &made);
                    }
                    let ghost prev = acc;
                    acc = step(acc, &y);
                    proof {
                        assert(mapped::<I::Item, B, F>(self.f, rest).drop_first() =~= mapped::<I::Item, B, F>(self.f, this.it.pending()));
                        assert forall|out: Acc|
                            folds_to(f, mapped::<I::Item, B, F>(self.f, this.it.pending()), acc, out) implies folds_to(
                            f,
                            all,
                            init,
                            out,
                        ) by {
                            assert(folds_to(f, mapped::<I::Item, B, F>(self.f, rest), prev, out));
                        }
                    }
                    proof {
                        assert(rest.first() == x);
                        assert(rest.drop_first() =~= this.it.pending());
                        assert forall|out: Acc|
                            folds_each_to(this.f, f, this.it.pending(), acc, out) implies folds_each_to(
                            this.f,
                            f,
                            s,
                            init,
                            out,
                        ) by {
                            assert(folds_each_to(this.f, f, rest, before, out));
                        }
                    }
                },
                None => {
                    proof {
                        assert(folds_each_to(this.f, f, this.it.pending(), acc, acc));
                        assert(folds_to(f, mapped::<I::Item, B, F>(self.f, this.it.pending()), acc, acc));
                    }
                    return acc;
                },
            }
        }
    }
}

impl<I, B, F> DoubleEndedStreamingIterator for Mapped<I, B, F> where
    I: DoubleEndedStreamingIterator,
    F: FnMut(&I::Item) -> B,
 {
    fn advance_back(&mut self)
        ensures
            (*final(self)).mapper() == (*old(self)).mapper(),
            (*final(self)).inner().inv(),
            (*old(self)).inner().exact() ==> (*final(self)).inner().exact() && step_back(
                (*old(self)).inner().pending(),
                (*final(self)).inner().current(),
                (*final(self)).inner().pending(),
            ),
            match (*final(self)).inner().current() {
                Some(x) => (*final(self)).slot() matches Some(y) && call_ensures(
                    (*old(self)).mapper(),
                    (x,),
                    y,
                ),
                None => (*final(self)).slot() is None,
            },
    {
        self.item = match self.it.next_back() {
            Some(x) => Some((self.f)(x)),
            None => None,
        };
        proof {
            if (*old(self)).exact() {
                match self.it.current() {
                    Some(x) => {
                        lemma_image(self.f, x, self.item->0);
                    },
                    None => {},
                }
                assert((*self).pending() =~= before_last((*old(self)).pending()));
            }
        }
    }

    fn rfold<Acc, Fold>(self, init: Acc, f: Fold) -> (r: Acc) where
        Self: Sized,
        Fold: FnMut(Acc, &Self::Item) -> Acc,

        ensures
            folds_each_to(self.mapper(), f, self.inner().pending().reverse(), init, r),
    {
        let mut this = self;
        let mut step = f;
        let mut acc = init;
        let ghost s = self.it.pending();
        let ghost all = mapped::<I::Item, B, F>(self.f, s).reverse();
        loop
            invariant
                this.it.inv(),
                this.it.exact(),
                this.f == self.f,
                step == f,
                callable_on(this.f, this.it.pending()),
                functional(this.f),
                s == self.inner().pending(),
                all == mapped::<I::Item, B, F>(self.f, s).reverse(),
                fold_ready(f, mapped::<I::Item, B, F>(self.f, this.it.pending()).reverse(), acc),
                forall|out: Acc|
                    folds_to(f, mapped::<I::Item, B, F>(self.f, this.it.pending()).reverse(), acc, out) ==> folds_to(
                        f,
                        all,
                        init,
                        out,
                    ),
                forall|out: Acc|
                    folds_each_to(this.f, f, this.it.pending().reverse(), acc, out) ==> folds_each_to(
                        this.f,
                        f,
                        s.reverse(),
                        init,
                        out,
                    ),
            decreases this.it.pending().len(),
        {
            let ghost rest = this.it.pending();
            let ghost before = acc;
            match this.it.next_back() {
                Some(x) => {
                    let y = (this.f)(x);
                    let ghost made = y;
                    proof {
                        lemma_image(this.f, x, made);
                        lemma_reverse_last(mapped::<I::Item, B, F>(self.f, rest));
                        assert(mapped::<I::Item, B, F>(self.f, rest).reverse().first() == &made);
                    }
                    let ghost prev = acc;
                    acc = step(acc, &y);
                    proof {
                        assert(mapped::<I::Item, B, F>(self.f, rest).reverse().drop_first() =~= mapped::<I::Item, B, F>(self.f, this.it.pending()).reverse());
                        assert forall|out: Acc|
                            folds_to(f, mapped::<I::Item, B, F>(self.f, this.it.pending()).reverse(), acc, out) implies folds_to(
                            f,
                            all,
                            init,
                            out,
                        ) by {
                            assert(folds_to(f, mapped::<I::Item, B, F>(self.f, rest).reverse(), prev, out));
                        }
                    }
                    proof {
                        lemma_reverse_last(rest);
                        assert(rest.reverse().first() == x);
                        assert(rest.reverse().drop_first() =~= this.it.pending().reverse());
                        assert forall|out: Acc|
                            folds_each_to(this.f, f, this.it.pending().reverse(), acc, out) implies folds_each_to(
                            this.f,
                            f,
                            s.reverse(),
                            init,
                            out,
                        ) by {
                            assert(folds_each_to(this.f, f, rest.reverse(), before, out));
                        }
                    }
                },
                None => {
                    proof {
                        assert(folds_each_to(this.f, f, this.it.pending().reverse(), acc, acc));
                        assert(folds_to(f, mapped::<I::Item, B, F>(self.f, this.it.pending()).reverse(), acc, acc));
                    }
                    return acc;
                },
            }
        }
    }
}

impl<I, B, F> StreamingIteratorMut for Mapped<I, B, F> where
    I: StreamingIterator,
    F: FnMut(&I::Item) -> B,
 {
    fn get_mut(&mut self) -> (r: Option<&mut B>)
        ensures
            (*final(self)).mapper() == (*old(self)).mapper(),
            (*final(self)).inner() == (*old(self)).inner(),
    {
        self.item.as_mut()
    }

    fn fold_mut<Acc, Fold>(self, init: Acc, f: Fold) -> (r: Acc) where
        Self: Sized,
        Fold: FnMut(Acc, &mut Self::Item) -> Acc,

        ensures
            folds_each_mut_to(self.mapper(), f, self.inner().pending(), init, r),
    {
        let mut this = self;
        let mut step = f;
        let mut acc = init;
        let ghost s = self.it.pending();
        let ghost all = mapped::<I::Item, B, F>(self.f, s);
        proof {
            if !fold_ready_mut(f, all, init) {
                assert(all_of(all, self.lends()));
                lemma_fold_ready_mut_on_seq(f, self.lends(), all, init);
            }
        }
        loop
            invariant
                this.it.inv(),
                this.it.exact(),
                this.f == self.f,
                step == f,
                callable_on(this.f, this.it.pending()),
                functional(this.f),
                s == self.inner().pending(),
                all == mapped::<I::Item, B, F>(self.f, s),
                fold_ready_mut(f, mapped::<I::Item, B, F>(self.f, this.it.pending()), acc),
                forall|out: Acc|
                    folds_mut_to(f, mapped::<I::Item, B, F>(self.f, this.it.pending()), acc, out) ==> folds_mut_to(
                        f,
                        all,
                        init,
                        out,
                    ),
                forall|out: Acc|
                    folds_each_mut_to(this.f, f, this.it.pending(), acc, out) ==> folds_each_mut_to(
                        this.f,
                        f,
                        s,
                        init,
                        out,
                    ),
            decreases this.it.pending().len(),
        {
            let ghost rest = this.it.pending();
            let ghost before = acc;
            match this.it.next() {
                Some(x) => {
                    let mut y = (this.f)(x);
                    let ghost made = y;
                    proof {
                        lemma_image(this.f, x, made);
                        assert(mapped::<I::Item, B, F>(self.f, rest).first() == &made);
                    }
                    let ghost prev = acc;
                    acc = step(acc, &mut y);
                    proof {
                        assert(mapped::<I::Item, B, F>(self.f, rest).drop_first() =~= mapped::<I::Item, B, F>(self.f, this.it.pending()));
                        assert forall|out: Acc|
                            folds_mut_to(f, mapped::<I::Item, B, F>(self.f, this.it.pending()), acc, out) implies folds_mut_to(
                            f,
                            all,
                            init,
                            out,
                        ) by {
                            assert(folds_mut_to(f, mapped::<I::Item, B, F>(self.f, rest), prev, out));
                        }
                    }
                    proof {
                        assert(rest.first() == x);
                        assert(rest.drop_first() =~= this.it.pending());
                        assert(lends_to(f, before, &made, acc));
                        assert forall|out: Acc|
                            folds_each_mut_to(this.f, f, this.it.pending(), acc, out) implies folds_each_mut_to(
                            this.f,
                            f,
                            s,
                            init,
                            out,
                        ) by {
                            assert(folds_each_mut_to(this.f, f, rest, before, out));
                        }
                    }
                },
                None => {
                    proof {
                        assert(folds_each_mut_to(this.f, f, this.it.pending(), acc, acc));
                        assert(folds_mut_to(f, mapped::<I::Item, B, F>(self.f, this.it.pending()), acc, acc));
                        assert(folds_mut_to(f, all, init, acc));
                        assert(all.len() == self.pending().len());
                    }
                    return acc;
                },
            }
        }
    }
}

impl<I, B, F> DoubleEndedStreamingIteratorMut for Mapped<I, B, F> where
    I: DoubleEndedStreamingIterator,
    F: FnMut(&I::Item) -> B,
 {
    fn rfold_mut<Acc, Fold>(self, init: Acc, f: Fold) -> (r: Acc) where
        Self: Sized,
        Fold: FnMut(Acc, &mut Self::Item) -> Acc,

        ensures
            folds_each_mut_to(self.mapper(), f, self.inner().pending().reverse(), init, r),
    {
        let mut this = self;
        let mut step = f;
        let mut acc = init;
        let ghost s = self.it.pending();
        let ghost all = mapped::<I::Item, B, F>(self.f, s).reverse();
        proof {
            if !fold_ready_mut(f, all, init) {
                assert(all_of(all, self.lends()));
                lemma_fold_ready_mut_on_seq(f, self.lends(), all, init);
            }
        }
        loop
            invariant
                this.it.inv(),
                this.it.exact(),
                this.f == self.f,
                step == f,
                callable_on(this.f, this.it.pending()),
                functional(this.f),
                s == self.inner().pending(),
                all == mapped::<I::Item, B, F>(self.f, s).reverse(),
                fold_ready_mut(f, mapped::<I::Item, B, F>(self.f, this.it.pending()).reverse(), acc),
                forall|out: Acc|
                    folds_mut_to(f, mapped::<I::Item, B, F>(self.f, this.it.pending()).reverse(), acc, out) ==> folds_mut_to(
                        f,
                        all,
                        init,
                        out,
                    ),
                forall|out: Acc|
                    folds_each_mut_to(this.f, f, this.it.pending().reverse(), acc, out) ==> folds_each_mut_to(
                        this.f,
                        f,
                        s.reverse(),
                        init,
                        out,
                    ),
            decreases this.it.pending().len(),
        {
            let ghost rest = this.it.pending();
            let ghost before = acc;
            match this.it.next_back() {
                Some(x) => {
                    let mut y = (this.f)(x);
                    let ghost made = y;
                    proof {
                        lemma_image(this.f, x, made);
                        lemma_reverse_last(mapped::<I::Item, B, F>(self.f, rest));
                        assert(mapped::<I::Item, B, F>(self.f, rest).reverse().first() == &made);
                    }
                    let ghost prev = acc;
                    acc = step(acc, &mut y);
                    proof {
                        assert(mapped::<I::Item, B, F>(self.f, rest).reverse().drop_first() =~= mapped::<I::Item, B, F>(self.f, this.it.pending()).reverse());
                        assert forall|out: Acc|
                            folds_mut_to(f, mapped::<I::Item, B, F>(self.f, this.it.pending()).reverse(), acc, out) implies folds_mut_to(
                            f,
                            all,
                            init,
                            out,
                        ) by {
                            assert(folds_mut_to(f, mapped::<I::Item, B, F>(self.f, rest).reverse(), prev, out));
                        }
                    }
                    proof {
                        lemma_reverse_last(rest);
                        assert(rest.reverse().first() == x);
                        assert(rest.reverse().drop_first() =~= this.it.pending().reverse());
                        assert(lends_to(f, before, &made, acc));
                        assert forall|out: Acc|
                            folds_each_mut_to(this.f, f, this.it.pending().reverse(), acc, out) implies folds_each_mut_to(
                            this.f,
                            f,
                            s.reverse(),
                            init,
                            out,
                        ) by {
                            assert(folds_each_mut_to(this.f, f, rest.reverse(), before, out));
                        }
                    }
                },
                None => {
                    proof {
                        assert(folds_each_mut_to(this.f, f, this.it.pending().reverse(), acc, acc));
                        assert(folds_mut_to(f, mapped::<I::Item, B, F>(self.f, this.it.pending()).reverse(), acc, acc));
                        assert(folds_mut_to(f, all, init, acc));
                        assert(all.len() == self.pending().len());
                    }
                    return acc;
                },
            }
        }
    }
}

} // verus!
