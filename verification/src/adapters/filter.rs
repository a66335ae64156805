//! A cursor over the elements that a predicate accepts.

use vstd::prelude::*;
use crate::model::{
    accepted_by, accepts, after_first, all_of, answers_all, answers_first_at, answers_last_at,
    before_last, callable_along, first_of, fold_ready, fold_ready_mut, folds_kept_mut_to,
    folds_kept_to, folds_mut_to, folds_to, functional, last_of, lemma_accepts, lemma_filter_back,
    lemma_filter_empty, lemma_filter_front, lemma_fold_ready_mut_on_seq, lemma_reverse_last,
    lemma_skip_step, lemma_take_step, lends_to, stands_at, stands_at_back,
};
use crate::traits::{
    DoubleEndedStreamingIterator, DoubleEndedStreamingIteratorMut, StreamingIterator,
    StreamingIteratorMut,
};

verus! {

/// A cursor over those elements of another cursor that a predicate accepts.
///
/// A step searches the wrapped cursor for the next accepted element, so the
/// wrapped cursor has to be one that comes to an end. Which elements are
/// still to come is known only where the wrapped cursor keeps its elements
/// apart from each other: a write to the current element could otherwise
/// change what the predicate makes of the others.
#[derive(Debug)]
pub struct Filter<I, F> {
    it: I,
    f: F,
}

impl<I, F> Filter<I, F> {
    /// The wrapped cursor.
    pub closed spec fn inner(&self) -> I {
        self.it
    }

    /// The predicate.
    pub closed spec fn predicate(&self) -> F {
        self.f
    }

    pub(crate) fn new(it: I, f: F) -> (r: Self)
        ensures
            r.inner() == it,
            r.predicate() == f,
    {
        Filter { it, f }
    }
}

impl<I, F> Filter<I, F> where I: StreamingIterator, F: FnMut(&I::Item) -> bool {
    /// What the cursor's specification functions say, in terms of the
    /// wrapped cursor and the predicate.
    pub proof fn lemma_unfold(&self)
        ensures
            self.inv() == ({
                &&& self.inner().inv()
                &&& self.inner().exact()
                &&& callable_along(
                    self.predicate(),
                    self.inner().detached(),
                    self.inner().pending(),
                )
            }),
            self.exact() == (self.inner().exact() && self.inner().detached() && functional(
                self.predicate(),
            )),
            self.current() == self.inner().current(),
            self.pending() == self.inner().pending().filter(accepted_by(self.predicate())),
            self.detached() == self.inner().detached(),
    {
    }
}

impl<I, F> StreamingIterator for Filter<I, F> where I: StreamingIterator, F: FnMut(&I::Item) -> bool {
    type Item = I::Item;

    open spec fn inv(&self) -> bool {
        &&& self.inner().inv()
        &&& self.inner().exact()
        &&& callable_along(self.predicate(), self.inner().detached(), self.inner().pending())
    }

    open spec fn exact(&self) -> bool {
        &&& self.inner().exact()
        &&& self.inner().detached()
        &&& functional(self.predicate())
    }

    open spec fn current(&self) -> Option<&Self::Item> {
        self.inner().current()
    }

    open spec fn pending(&self) -> Seq<&Self::Item> {
        self.inner().pending().filter(accepted_by(self.predicate()))
    }

    open spec fn detached(&self) -> bool {
        self.inner().detached()
    }

    fn advance(&mut self)
        ensures
            (*final(self)).predicate() == (*old(self)).predicate(),
            (*final(self)).inner().inv(),
            (*final(self)).inner().exact(),
            (*final(self)).inner().current() is Some ==> exists|k: int|
                answers_first_at(
                    (*old(self)).predicate(),
                    (*old(self)).inner().pending(),
                    k,
                    true,
                ) && #[trigger] stands_at(
                    (*old(self)).inner().pending(),
                    k,
                    (*final(self)).inner().current(),
                    (*final(self)).inner().pending(),
                ),
            (*final(self)).inner().current() is None ==> answers_all(
                (*old(self)).predicate(),
                (*old(self)).inner().pending(),
                false,
            ) && (*final(self)).inner().pending().len() == 0,
    {
        let ghost p = accepted_by(self.f);
        let ghost s = self.it.pending();
        let ghost mut n: int = 0;
        proof {
            lemma_skip_step(s, 0);
        }
        loop
            invariant_except_break
                functional(self.f) ==> self.it.pending().filter(p) == s.filter(p),
                self.it.pending() == s.skip(n),
                forall|j: int| 0 <= j < n ==> call_ensures(self.f, (#[trigger] s[j],), false),
            invariant
                self.it.inv(),
                self.it.exact(),
                self.f == (*old(self)).predicate(),
                (*old(self)).inner().detached() ==> self.it.detached(),
                callable_along(self.f, self.it.detached(), self.it.pending()),
                p == accepted_by(self.f),
                s == (*old(self)).inner().pending(),
                0 <= n <= s.len(),
            ensures
                functional(self.f) ==> self.it.current() == first_of(s.filter(p))
                    && self.it.pending().filter(p) == after_first(s.filter(p)),
                self.it.current() is Some ==> answers_first_at(self.f, s, n, true) && stands_at(
                    s,
                    n,
                    self.it.current(),
                    self.it.pending(),
                ),
                self.it.current() is None ==> answers_all(self.f, s, false)
                    && self.it.pending().len() == 0,
            decreases self.it.pending().len(),
        {
            let ghost rest = self.it.pending();
            proof {
                lemma_skip_step(s, n);
            }
            match self.it.next() {
                Some(i) => {
                    let keep = (self.f)(i);
                    proof {
                        if functional(self.f) {
                            lemma_accepts(self.f, i, keep);
                            lemma_filter_front(rest, p);
                        }
                    }
                    if keep {
                        break ;
                    }
                    proof {
                        n = n + 1;
                    }
                },
                None => {
                    proof {
                        lemma_filter_empty(rest, p);
                    }
                    break ;
                },
            }
        }
    }

    fn is_done(&self) -> (r: bool) {
        self.it.is_done()
    }

    fn get(&self) -> (r: Option<&Self::Item>) {
        self.it.get()
    }

    fn size_hint(&self) -> (r: (usize, Option<usize>))
        ensures
            exists|hint: (usize, Option<usize>)|
                #[trigger] call_ensures(I::size_hint, (&self.inner(),), hint) && r == (0usize, hint.1),
    {
        proof {
            self.it.pending().lemma_filter_len(accepted_by(self.f));
        }
        (0, self.it.size_hint().1)
    }

    fn fold<Acc, Fold>(self, init: Acc, f: Fold) -> (r: Acc) where
        Self: Sized,
        Fold: FnMut(Acc, &Self::Item) -> Acc,

        ensures
            folds_kept_to(self.predicate(), f, self.inner().pending(), init, r),
    {
        let mut this = self;
        let mut step = f;
        let mut acc = init;
        let ghost p = accepted_by(self.f);
        let ghost s = self.it.pending();
        let ghost all = s.filter(p);
        loop
            invariant
                this.it.inv(),
                this.it.exact(),
                this.f == self.f,
                step == f,
                callable_along(this.f, this.it.detached(), this.it.pending()),
                functional(this.f),
                p == accepted_by(this.f),
                s == self.inner().pending(),
                all == s.filter(p),
                fold_ready(f, this.it.pending().filter(p), acc),
                forall|out: Acc|
                    folds_to(f, this.it.pending().filter(p), acc, out) ==> folds_to(
                        f,
                        all,
                        init,
                        out,
                    ),
                forall|out: Acc|
                    folds_kept_to(this.f, f, this.it.pending(), acc, out) ==> folds_kept_to(
                        this.f,
                        f,
                        s,
                        init,
                        out,
                    ),
            decreases this.it.pending().len(),
        {
            let ghost rest = this.it.pending();
            let ghost before = acc;
            match this.it.next() {
                Some(x) => {
                    let keep = (this.f)(x);
                    proof {
                        lemma_accepts(this.f, x, keep);
                        lemma_filter_front(rest, p);
                        if keep {
                            assert(rest.filter(p).first() == x);
                        }
                    }
                    if keep {
                        let ghost prev = acc;
                        acc = step(acc, x);
                        proof {
                            assert(rest.filter(p).drop_first() =~= this.it.pending().filter(p));
                            assert forall|out: Acc|
                                folds_to(f, this.it.pending().filter(p), acc, out) implies folds_to(
                                f,
                                all,
                                init,
                                out,
                            ) by {
                                assert(folds_to(f, rest.filter(p), prev, out));
                            }
                        }
                    }
                    proof {
                        assert(rest.first() == x);
                        assert(rest.drop_first() =~= this.it.pending());
                        assert forall|out: Acc|
                            folds_kept_to(this.f, f, this.it.pending(), acc, out) implies folds_kept_to(
                            this.f,
                            f,
                            s,
                            init,
                            out,
                        ) by {
                            assert(folds_kept_to(this.f, f, rest, before, out));
                        }
                    }
                },
                None => {
                    proof {
                        assert(folds_kept_to(this.f, f, this.it.pending(), acc, acc));
                        lemma_filter_empty(rest, p);
                        assert(folds_to(f, this.it.pending().filter(p), acc, acc));
                    }
                    return acc;
                },
            }
        }
    }
}

impl<I, F> DoubleEndedStreamingIterator for Filter<I, F> where
    I: DoubleEndedStreamingIterator,
    F: FnMut(&I::Item) -> bool,
 {
    fn advance_back(&mut self)
        ensures
            (*final(self)).predicate() == (*old(self)).predicate(),
            (*final(self)).inner().inv(),
            (*final(self)).inner().exact(),
            (*final(self)).inner().current() is Some ==> exists|k: int|
                answers_last_at(
                    (*old(self)).predicate(),
                    (*old(self)).inner().pending(),
                    k,
                    true,
                ) && #[trigger] stands_at_back(
                    (*old(self)).inner().pending(),
                    k,
                    (*final(self)).inner().current(),
                    (*final(self)).inner().pending(),
                ),
            (*final(self)).inner().current() is None ==> answers_all(
                (*old(self)).predicate(),
                (*old(self)).inner().pending(),
                false,
            ) && (*final(self)).inner().pending().len() == 0,
    {
        let ghost p = accepted_by(self.f);
        let ghost s = self.it.pending();
        let ghost mut n: int = 0;
        proof {
            lemma_take_step(s, 0);
        }
        loop
            invariant_except_break
                functional(self.f) ==> self.it.pending().filter(p) == s.filter(p),
                self.it.pending() == s.take(s.len() - n),
                forall|j: int|
                    s.len() - n <= j < s.len() ==> call_ensures(self.f, (#[trigger] s[j],), false),
            invariant
                0 <= n <= s.len(),
                self.it.inv(),
                self.it.exact(),
                self.f == (*old(self)).predicate(),
                (*old(self)).inner().detached() ==> self.it.detached(),
                callable_along(self.f, self.it.detached(), self.it.pending()),
                p == accepted_by(self.f),
                s == (*old(self)).inner().pending(),
            ensures
                functional(self.f) ==> self.it.current() == last_of(s.filter(p))
                    && self.it.pending().filter(p) == before_last(s.filter(p)),
                self.it.current() is Some ==> answers_last_at(self.f, s, s.len() - 1 - n, true)
                    && stands_at_back(s, s.len() - 1 - n, self.it.current(), self.it.pending()),
                self.it.current() is None ==> answers_all(self.f, s, false)
                    && self.it.pending().len() == 0,
            decreases self.it.pending().len(),
        {
            let ghost rest = self.it.pending();
            proof {
                lemma_take_step(s, n);
            }
            match self.it.next_back() {
                Some(i) => {
                    let keep = (self.f)(i);
                    proof {
                        if functional(self.f) {
                            lemma_accepts(self.f, i, keep);
                            lemma_filter_back(rest, p);
                        }
                    }
                    if keep {
                        break ;
                    }
                    proof {
                        n = n + 1;
                    }
                },
                None => {
                    proof {
                        lemma_filter_empty(rest, p);
                    }
                    break ;
                },
            }
        }
    }

    fn rfold<Acc, Fold>(self, init: Acc, f: Fold) -> (r: Acc) where
        Self: Sized,
        Fold: FnMut(Acc, &Self::Item) -> Acc,

        ensures
            folds_kept_to(self.predicate(), f, self.inner().pending().reverse(), init, r),
    {
        let mut this = self;
        let mut step = f;
        let mut acc = init;
        let ghost p = accepted_by(self.f);
        let ghost s = self.it.pending();
        let ghost all = s.filter(p).reverse();
        loop
            invariant
                this.it.inv(),
                this.it.exact(),
                this.f == self.f,
                step == f,
                callable_along(this.f, this.it.detached(), this.it.pending()),
                functional(this.f),
                p == accepted_by(this.f),
                s == self.inner().pending(),
                all == s.filter(p).reverse(),
                fold_ready(f, this.it.pending().filter(p).reverse(), acc),
                forall|out: Acc|
                    folds_to(f, this.it.pending().filter(p).reverse(), acc, out) ==> folds_to(
                        f,
                        all,
                        init,
                        out,
                    ),
                forall|out: Acc|
                    folds_kept_to(this.f, f, this.it.pending().reverse(), acc, out) ==> folds_kept_to(
                        this.f,
                        f,
                        s.reverse(),
                        init,
                        out,
                    ),
            decreases this.it.pending().len(),
        {
            let ghost rest = this.it.pending();
            let ghost before = acc;
            match this.it.next_back() {
                Some(x) => {
                    let keep = (this.f)(x);
                    proof {
                        lemma_accepts(this.f, x, keep);
                        lemma_filter_back(rest, p);
                        if keep {
                            lemma_reverse_last(rest.filter(p));
                        }
                        if keep {
                            assert(rest.filter(p).reverse().first() == x);
                        }
                    }
                    if keep {
                        let ghost prev = acc;
                        acc = step(acc, x);
                        proof {
                            assert(rest.filter(p).reverse().drop_first() =~= this.it.pending().filter(p).reverse());
                            assert forall|out: Acc|
                                folds_to(f, this.it.pending().filter(p).reverse(), acc, out) implies folds_to(
                                f,
                                all,
                                init,
                                out,
                            ) by {
                                assert(folds_to(f, rest.filter(p).reverse(), prev, out));
                            }
                        }
                    }
                    proof {
                        lemma_reverse_last(rest);
                        assert(rest.reverse().first() == x);
                        assert(rest.reverse().drop_first() =~= this.it.pending().reverse());
                        assert forall|out: Acc|
                            folds_kept_to(this.f, f, this.it.pending().reverse(), acc, out) implies folds_kept_to(
                            this.f,
                            f,
                            s.reverse(),
                            init,
                            out,
                        ) by {
                            assert(folds_kept_to(this.f, f, rest.reverse(), before, out));
                        }
                    }
                },
                None => {
                    proof {
                        assert(folds_kept_to(this.f, f, this.it.pending().reverse(), acc, acc));
                        lemma_filter_empty(rest, p);
                        assert(folds_to(f, this.it.pending().filter(p).reverse(), acc, acc));
                    }
                    return acc;
                },
            }
        }
    }
}

impl<I, F> StreamingIteratorMut for Filter<I, F> where
    I: StreamingIteratorMut,
    F: FnMut(&I::Item) -> bool,
 {
    fn get_mut(&mut self) -> (r: Option<&mut Self::Item>)
        ensures
            (*final(self)).predicate() == (*old(self)).predicate(),
    {
        proof {
            self.it.pending().lemma_filter_len(accepted_by(self.f));
        }
        self.it.get_mut()
    }

    fn fold_mut<Acc, Fold>(self, init: Acc, f: Fold) -> (r: Acc) where
        Self: Sized,
        Fold: FnMut(Acc, &mut Self::Item) -> Acc,

        ensures
            folds_kept_mut_to(self.predicate(), f, self.inner().pending(), init, r),
    {
        let mut this = self;
        let mut step = f;
        let mut acc = init;
        let ghost p = accepted_by(self.f);
        let ghost s = self.it.pending();
        let ghost all = s.filter(p);
        proof {
            if !fold_ready_mut(f, all, init) {
                assert(all_of(all, self.lends()));
                lemma_fold_ready_mut_on_seq(f, self.lends(), all, init);
            }
        }
        loop
            invariant
                this.it.inv(),
                this.it.exact(),
                this.f == self.f,
                step == f,
                callable_along(this.f, this.it.detached(), this.it.pending()),
                functional(this.f),
                p == accepted_by(this.f),
                this.it.detached(),
                s == self.inner().pending(),
                all == s.filter(p),
                fold_ready_mut(f, this.it.pending().filter(p), acc),
                forall|out: Acc|
                    folds_mut_to(f, this.it.pending().filter(p), acc, out) ==> folds_mut_to(
                        f,
                        all,
                        init,
                        out,
                    ),
                forall|out: Acc|
                    folds_kept_mut_to(this.f, f, this.it.pending(), acc, out) ==> folds_kept_mut_to(
                        this.f,
                        f,
                        s,
                        init,
                        out,
                    ),
            decreases this.it.pending().len(),
        {
            let ghost rest = this.it.pending();
            let ghost before = acc;
            match this.it.next_mut() {
                Some(x) => {
                    let keep = (this.f)(&*x);
                    let ghost lent = x;
                    proof {
                        lemma_accepts(this.f, &*x, keep);
                        lemma_filter_front(rest, p);
                        if keep {
                            assert(rest.filter(p).first() == &*lent);
                        }
                    }
                    if keep {
                        let ghost prev = acc;
                        acc = step(acc, x);
                        proof {
                            assert(rest.filter(p).drop_first() =~= this.it.pending().filter(p));
                            assert forall|out: Acc|
                                folds_mut_to(f, this.it.pending().filter(p), acc, out) implies folds_mut_to(
                                f,
                                all,
                                init,
                                out,
                            ) by {
                                assert(folds_mut_to(f, rest.filter(p), prev, out));
                            }
                        }
                    }
                    proof {
                        assert(rest.first() == &*lent);
                        assert(rest.drop_first() =~= this.it.pending());
                        if keep {
                            assert(lends_to(f, before, &*lent, acc));
                        }
                        assert forall|out: Acc|
                            folds_kept_mut_to(this.f, f, this.it.pending(), acc, out) implies folds_kept_mut_to(
                            this.f,
                            f,
                            s,
                            init,
                            out,
                        ) by {
                            assert(folds_kept_mut_to(this.f, f, rest, before, out));
                        }
                    }
                },
                None => {
                    proof {
                        assert(folds_kept_mut_to(this.f, f, this.it.pending(), acc, acc));
                        lemma_filter_empty(rest, p);
                        assert(folds_mut_to(f, this.it.pending().filter(p), acc, acc));
                        assert(folds_mut_to(f, all, init, acc));
                        assert(all.len() == self.pending().len());
                    }
                    return acc;
                },
            }
        }
    }
}

impl<I, F> DoubleEndedStreamingIteratorMut for Filter<I, F> where
    I: DoubleEndedStreamingIteratorMut,
    F: FnMut(&I::Item) -> bool,
 {
    fn rfold_mut<Acc, Fold>(self, init: Acc, f: Fold) -> (r: Acc) where
        Self: Sized,
        Fold: FnMut(Acc, &mut Self::Item) -> Acc,

        ensures
            folds_kept_mut_to(self.predicate(), f, self.inner().pending().reverse(), init, r),
    {
        let mut this = self;
        let mut step = f;
        let mut acc = init;
        let ghost p = accepted_by(self.f);
        let ghost s = self.it.pending();
        let ghost all = s.filter(p).reverse();
        proof {
            if !fold_ready_mut(f, all, init) {
                assert(all_of(all, self.lends()));
                lemma_fold_ready_mut_on_seq(f, self.lends(), all, init);
            }
        }
        loop
            invariant
                this.it.inv(),
                this.it.exact(),
                this.f == self.f,
                step == f,
                callable_along(this.f, this.it.detached(), this.it.pending()),
                functional(this.f),
                p == accepted_by(this.f),
                this.it.detached(),
                s == self.inner().pending(),
                all == s.filter(p).reverse(),
                fold_ready_mut(f, this.it.pending().filter(p).reverse(), acc),
                forall|out: Acc|
                    folds_mut_to(f, this.it.pending().filter(p).reverse(), acc, out) ==> folds_mut_to(
                        f,
                        all,
                        init,
                        out,
                    ),
                forall|out: Acc|
                    folds_kept_mut_to(this.f, f, this.it.pending().reverse(), acc, out) ==> folds_kept_mut_to(
                        this.f,
                        f,
                        s.reverse(),
                        init,
                        out,
                    ),
            decreases this.it.pending().len(),
        {
            let ghost rest = this.it.pending();
            let ghost before = acc;
            match this.it.next_back_mut() {
                Some(x) => {
                    let keep = (this.f)(&*x);
                    let ghost lent = x;
                    proof {
                        lemma_accepts(this.f, &*x, keep);
                        lemma_filter_back(rest, p);
                        if keep {
                            lemma_reverse_last(rest.filter(p));
                        }
                        if keep {
                            assert(rest.filter(p).reverse().first() == &*lent);
                        }
                    }
                    if keep {
                        let ghost prev = acc;
                        acc = step(acc, x);
                        proof {
                            assert(rest.filter(p).reverse().drop_first() =~= this.it.pending().filter(p).reverse());
                            assert forall|out: Acc|
                                folds_mut_to(f, this.it.pending().filter(p).reverse(), acc, out) implies folds_mut_to(
                                f,
                                all,
                                init,
                                out,
                            ) by {
                                assert(folds_mut_to(f, rest.filter(p).reverse(), prev, out));
                            }
                        }
                    }
                    proof {
                        lemma_reverse_last(rest);
                        assert(rest.reverse().first() == &*lent);
                        assert(rest.reverse().drop_first() =~= this.it.pending().reverse());
                        if keep {
                            assert(lends_to(f, before, &*lent, acc));
                        }
                        assert forall|out: Acc|
                            folds_kept_mut_to(this.f, f, this.it.pending().reverse(), acc, out) implies folds_kept_mut_to(
                            this.f,
                            f,
                            s.reverse(),
                            init,
                            out,
                        ) by {
                            assert(folds_kept_mut_to(this.f, f, rest.reverse(), before, out));
                        }
                    }
                },
                None => {
                    proof {
                        assert(folds_kept_mut_to(this.f, f, this.it.pending().reverse(), acc, acc));
                        lemma_filter_empty(rest, p);
                        assert(folds_mut_to(f, this.it.pending().filter(p).reverse(), acc, acc));
                        assert(folds_mut_to(f, all, init, acc));
                        assert(all.len() == self.pending().len());
                    }
                    return acc;
                },
            }
        }
    }
}

} // verus!
