//! A cursor over the images of those elements of another cursor for which a
//! closure gives one.

use vstd::prelude::*;
use crate::model::{
    after_first, all_of, answers_none_before, answers_none_from, as_ref_of, before_last,
    callable_on, drained, filter_mapped, first_of, fold_ready, fold_ready_mut, folds_mut_to,
    folds_some_mut_to, folds_some_to, folds_to, functional, image, last_of,
    lemma_filter_mapped_back, lemma_filter_mapped_front, lemma_filter_mapped_len,
    lemma_fold_ready_mut_on_seq, lemma_image, lemma_reverse_last, lemma_skip_step, lemma_take_step,
    lends_to, stands_at, stands_at_back,
};
use crate::traits::{
    DoubleEndedStreamingIterator, DoubleEndedStreamingIteratorMut, StreamingIterator,
    StreamingIteratorMut,
};

verus! {

/// A cursor that, at each step, searches another cursor for the next
/// element of which a closure makes something, and stands on what it made.
///
/// The wrapped cursor has to be one that comes to an end.
#[derive(Debug)]
pub struct FilterMap<I, B, F> {
    it: I,
    f: F,
    item: Option<B>,
}

impl<I, B, F> FilterMap<I, B, F> {
    /// The wrapped cursor.
    pub closed spec fn inner(&self) -> I {
        self.it
    }

    /// The closure that makes the elements.
    pub closed spec fn mapper(&self) -> F {
        self.f
    }

    /// The image that the cursor holds.
    pub closed spec fn slot(&self) -> Option<B> {
        self.item
    }

    pub(crate) fn new(it: I, f: F) -> (r: Self)
        ensures
            r.inner() == it,
            r.mapper() == f,
            r.slot() is None,
    {
        FilterMap { it, f, item: None }
    }
}

impl<I, B, F> FilterMap<I, B, F> where
    I: StreamingIterator,
    F: FnMut(&I::Item) -> Option<B>,
 {
    /// What the cursor's specification functions say, in terms of what it
    /// wraps.
    pub proof fn lemma_unfold(&self)
        ensures
            self.inv() == ({
                &&& self.inner().inv()
                &&& self.inner().exact()
                &&& callable_on(self.mapper(), self.inner().pending())
            }),
            self.exact() == ({
                &&& self.inner().exact()
                &&& functional(self.mapper())
            }),
            self.current() == (as_ref_of(self.slot())),
            self.pending() == (filter_mapped(self.mapper(), self.inner().pending())),
            self.detached() == true,
    {
    }
}

impl<I, B, F> StreamingIterator for FilterMap<I, B, F> where
    I: StreamingIterator,
    F: FnMut(&I::Item) -> Option<B>,
 {
    type Item = B;

    open spec fn inv(&self) -> bool {
        &&& self.inner().inv()
        &&& self.inner().exact()
        &&& callable_on(self.mapper(), self.inner().pending())
    }

    open spec fn exact(&self) -> bool {
        &&& self.inner().exact()
        &&& functional(self.mapper())
    }

    open spec fn current(&self) -> Option<&B> {
        as_ref_of(self.slot())
    }

    open spec fn pending(&self) -> Seq<&B> {
        filter_mapped(self.mapper(), self.inner().pending())
    }

    open spec fn detached(&self) -> bool {
        true
    }

    fn advance(&mut self)
        ensures
            (*final(self)).mapper() == (*old(self)).mapper(),
            (*final(self)).inner().inv(),
            (*final(self)).inner().exact(),
            match (*final(self)).slot() {
                Some(y) => exists|k: int|
                    #![trigger (*old(self)).inner().pending()[k]]
                    answers_none_before((*old(self)).mapper(), (*old(self)).inner().pending(), k)
                        && stands_at(
                        (*old(self)).inner().pending(),
                        k,
                        (*final(self)).inner().current(),
                        (*final(self)).inner().pending(),
                    ) && call_ensures(
                        (*old(self)).mapper(),
                        ((*old(self)).inner().pending()[k],),
                        Some(y),
                    ),
                None => answers_none_before(
                    (*old(self)).mapper(),
                    (*old(self)).inner().pending(),
                    (*old(self)).inner().pending().len() as int,
                ) && drained((*final(self)).inner().current(), (*final(self)).inner().pending()),
            },
    {
        let ghost s = self.it.pending();
        let ghost all = filter_mapped::<I::Item, B, F>(self.f, s);
        let ghost mut n: int = 0;
        proof {
            lemma_skip_step(s, 0);
        }
        loop
            invariant_except_break
                functional(self.f) ==> filter_mapped::<I::Item, B, F>(self.f, self.it.pending())
                    == all,
                self.it.pending() == s.skip(n),
                answers_none_before(self.f, s, n),
            invariant
                self.it.inv(),
                self.it.exact(),
                self.f == (*old(self)).mapper(),
                callable_on(self.f, self.it.pending()),
                s == (*old(self)).inner().pending(),
                all == filter_mapped::<I::Item, B, F>(self.f, s),
                0 <= n <= s.len(),
            ensures
                functional(self.f) ==> as_ref_of(self.item) == first_of(all) && filter_mapped::<
                    I::Item,
                    B,
                    F,
                >(self.f, self.it.pending()) == after_first(all),
                match self.item {
                    Some(y) => answers_none_before(self.f, s, n) && stands_at(
                        s,
                        n,
                        self.it.current(),
                        self.it.pending(),
                    ) && call_ensures(self.f, (s[n],), Some(y)),
                    None => answers_none_before(self.f, s, s.len() as int) && drained(
                        self.it.current(),
                        self.it.pending(),
                    ),
                },
            decreases self.it.pending().len(),
        {
            let ghost rest = self.it.pending();
            proof {
                lemma_skip_step(s, n);
            }
            match self.it.next() {
                Some(i) => {
                    let made = (self.f)(i);
                    proof {
                        if functional(self.f) {
                            lemma_image(self.f, i, made);
                            lemma_filter_mapped_front(self.f, rest);
                        }
                    }
                    match made {
                        Some(y) => {
                            self.item = Some(y);
                            break ;
                        },
                        None => {},
                    }
                    proof {
                        n = n + 1;
                    }
                },
                None => {
                    self.item = None;
                    break ;
                },
            }
        }
    }

    fn get(&self) -> (r: Option<&B>) {
        self.item.as_ref()
    }

    fn size_hint(&self) -> (r: (usize, Option<usize>))
        ensures
            exists|hint: (usize, Option<usize>)|
                #[trigger] call_ensures(I::size_hint, (&self.inner(),), hint) && r == (0usize, hint.1),
    {
        proof {
            lemma_filter_mapped_len(self.f, self.it.pending());
        }
        (0, self.it.size_hint().1)
    }

    fn fold<Acc, Fold>(self, init: Acc, f: Fold) -> (r: Acc) where
        Self: Sized,
        Fold: FnMut(Acc, &Self::Item) -> Acc,

        ensures
            folds_some_to(self.mapper(), f, self.inner().pending(), init, r),
    {
        let mut this = self;
        let mut step = f;
        let mut acc = init;
        let ghost s = self.it.pending();
        let ghost all = filter_mapped::<I::Item, B, F>(self.f, s);
        loop
            invariant
                this.it.inv(),
                this.it.exact(),
                this.f == self.f,
                step == f,
                callable_on(this.f, this.it.pending()),
                functional(this.f),
                s == self.inner().pending(),
                all == filter_mapped::<I::Item, B, F>(self.f, s),
                fold_ready(f, filter_mapped::<I::Item, B, F>(self.f, this.it.pending()), acc),
                forall|out: Acc|
                    folds_to(f, filter_mapped::<I::Item, B, F>(self.f, this.it.pending()), acc, out) ==> folds_to(
                        f,
                        all,
                        init,
                        out,
                    ),
                forall|out: Acc|
                    folds_some_to(this.f, f, this.it.pending(), acc, out) ==> folds_some_to(
                        this.f,
                        f,
                        s,
                        init,
                        out,
                    ),
            decreases this.it.pending().len(),
        {
            let ghost rest = this.it.pending();
            let ghost before = acc;
            match this.it.next() {
                Some(x) => {
                    let made = (this.f)(x);
                    let ghost mk = made;
                    proof {
                        lemma_image(this.f, x, made);
                        lemma_filter_mapped_front(this.f, rest);
                    }
                    match made {
                        Some(y) => {
                            let ghost made_y = y;
                            proof {
                                assert(filter_mapped::<I::Item, B, F>(self.f, rest).first() == &made_y);
                            }
                            let ghost prev = acc;
                            acc = step(acc, &y);
                            proof {
                                assert(filter_mapped::<I::Item, B, F>(self.f, rest).drop_first() =~= filter_mapped::<I::Item, B, F>(self.f, this.it.pending()));
                                assert forall|out: Acc|
                                    folds_to(f, filter_mapped::<I::Item, B, F>(self.f, this.it.pending()), acc, out) implies folds_to(
                                    f,
                                    all,
                                    init,
                                    out,
                                ) by {
                                    assert(folds_to(f, filter_mapped::<I::Item, B, F>(self.f, rest), prev, out));
                                }
                            }
                        },
                        None => {},
                    }
                    proof {
                        assert(rest.first() == x);
                        assert(rest.drop_first() =~= this.it.pending());
                        assert forall|out: Acc|
                            folds_some_to(this.f, f, this.it.pending(), acc, out) implies folds_some_to(
                            this.f,
                            f,
                            s,
                            init,
                            out,
                        ) by {
                            assert(folds_some_to(this.f, f, rest, before, out));
                        }
                    }
                },
                None => {
                    proof {
                        assert(folds_some_to(this.f, f, this.it.pending(), acc, acc));
                        assert(folds_to(f, filter_mapped::<I::Item, B, F>(self.f, this.it.pending()), acc, acc));
                    }
                    return acc;
                },
            }
        }
    }
}

impl<I, B, F> DoubleEndedStreamingIterator for FilterMap<I, B, F> where
    I: DoubleEndedStreamingIterator,
    F: FnMut(&I::Item) -> Option<B>,
 {
    fn advance_back(&mut self)
        ensures
            (*final(self)).mapper() == (*old(self)).mapper(),
            (*final(self)).inner().inv(),
            (*final(self)).inner().exact(),
            match (*final(self)).slot() {
                Some(y) => exists|k: int|
                    #![trigger (*old(self)).inner().pending()[k]]
                    answers_none_from(
                        (*old(self)).mapper(),
                        (*old(self)).inner().pending(),
                        k + 1,
                    ) && stands_at_back(
                        (*old(self)).inner().pending(),
                        k,
                        (*final(self)).inner().current(),
                        (*final(self)).inner().pending(),
                    ) && call_ensures(
                        (*old(self)).mapper(),
                        ((*old(self)).inner().pending()[k],),
                        Some(y),
                    ),
                None => answers_none_from((*old(self)).mapper(), (*old(self)).inner().pending(), 0)
                    && drained((*final(self)).inner().current(), (*final(self)).inner().pending()),
            },
    {
        let ghost s = self.it.pending();
        let ghost all = filter_mapped::<I::Item, B, F>(self.f, s);
        let ghost mut n: int = 0;
        proof {
            lemma_take_step(s, 0);
        }
        loop
            invariant_except_break
                functional(self.f) ==> filter_mapped::<I::Item, B, F>(self.f, self.it.pending())
                    == all,
                self.it.pending() == s.take(s.len() - n),
                answers_none_from(self.f, s, s.len() - n),
            invariant
                0 <= n <= s.len(),
                self.it.inv(),
                self.it.exact(),
                self.f == (*old(self)).mapper(),
                callable_on(self.f, self.it.pending()),
                s == (*old(self)).inner().pending(),
                all == filter_mapped::<I::Item, B, F>(self.f, s),
            ensures
                functional(self.f) ==> as_ref_of(self.item) == last_of(all) && filter_mapped::<
                    I::Item,
                    B,
                    F,
                >(self.f, self.it.pending()) == before_last(all),
                match self.item {
                    Some(y) => answers_none_from(self.f, s, s.len() - n) && stands_at_back(
                        s,
                        s.len() - 1 - n,
                        self.it.current(),
                        self.it.pending(),
                    ) && call_ensures(self.f, (s[s.len() - 1 - n],), Some(y)),
                    None => answers_none_from(self.f, s, 0) && drained(
                        self.it.current(),
                        self.it.pending(),
                    ),
                },
            decreases self.it.pending().len(),
        {
            let ghost rest = self.it.pending();
            proof {
                lemma_take_step(s, n);
            }
            match self.it.next_back() {
                Some(i) => {
                    let made = (self.f)(i);
                    proof {
                        if functional(self.f) {
                            lemma_image(self.f, i, made);
                            lemma_filter_mapped_back(self.f, rest);
                        }
                    }
                    match made {
                        Some(y) => {
                            self.item = Some(y);
                            break ;
                        },
                        None => {},
                    }
                    proof {
                        n = n + 1;
                    }
                },
                None => {
                    self.item = None;
                    break ;
                },
            }
        }
    }

    fn rfold<Acc, Fold>(self, init: Acc, f: Fold) -> (r: Acc) where
        Self: Sized,
        Fold: FnMut(Acc, &Self::Item) -> Acc,

        ensures
            folds_some_to(self.mapper(), f, self.inner().pending().reverse(), init, r),
    {
        let mut this = self;
        let mut step = f;
        let mut acc = init;
        let ghost s = self.it.pending();
        let ghost all = filter_mapped::<I::Item, B, F>(self.f, s).reverse();
        loop
            invariant
                this.it.inv(),
                this.it.exact(),
                this.f == self.f,
                step == f,
                callable_on(this.f, this.it.pending()),
                functional(this.f),
                s == self.inner().pending(),
                all == filter_mapped::<I::Item, B, F>(self.f, s).reverse(),
                fold_ready(f, filter_mapped::<I::Item, B, F>(self.f, this.it.pending()).reverse(), acc),
                forall|out: Acc|
                    folds_to(f, filter_mapped::<I::Item, B, F>(self.f, this.it.pending()).reverse(), acc, out) ==> folds_to(
                        f,
                        all,
                        init,
                        out,
                    ),
                forall|out: Acc|
                    folds_some_to(this.f, f, this.it.pending().reverse(), acc, out) ==> folds_some_to(
                        this.f,
                        f,
                        s.reverse(),
                        init,
                        out,
                    ),
            decreases this.it.pending().len(),
        {
            let ghost rest = this.it.pending();
            let ghost before = acc;
            match this.it.next_back() {
                Some(x) => {
                    let made = (this.f)(x);
                    let ghost mk = made;
                    proof {
                        lemma_image(this.f, x, made);
                        lemma_filter_mapped_back(this.f, rest);
                    }
                    match made {
                        Some(y) => {
                            let ghost made_y = y;
                            proof {
                                lemma_reverse_last(filter_mapped::<I::Item, B, F>(self.f, rest));
                                assert(filter_mapped::<I::Item, B, F>(self.f, rest).reverse().first() == &made_y);
                            }
                            let ghost prev = acc;
                            acc = step(acc, &y);
                            proof {
                                assert(filter_mapped::<I::Item, B, F>(self.f, rest).reverse().drop_first() =~= filter_mapped::<I::Item, B, F>(self.f, this.it.pending()).reverse());
                                assert forall|out: Acc|
                                    folds_to(f, filter_mapped::<I::Item, B, F>(self.f, this.it.pending()).reverse(), acc, out) implies folds_to(
                                    f,
                                    all,
                                    init,
                                    out,
                                ) by {
                                    assert(folds_to(f, filter_mapped::<I::Item, B, F>(self.f, rest).reverse(), prev, out));
                                }
                            }
                        },
                        None => {},
                    }
                    proof {
                        lemma_reverse_last(rest);
                        assert(rest.reverse().first() == x);
                        assert(rest.reverse().drop_first() =~= this.it.pending().reverse());
                        assert forall|out: Acc|
                            folds_some_to(this.f, f, this.it.pending().reverse(), acc, out) implies folds_some_to(
                            this.f,
                            f,
                            s.reverse(),
                            init,
                            out,
                        ) by {
                            assert(folds_some_to(this.f, f, rest.reverse(), before, out));
                        }
                    }
                },
                None => {
                    proof {
                        assert(folds_some_to(this.f, f, this.it.pending().reverse(), acc, acc));
                        assert(folds_to(f, filter_mapped::<I::Item, B, F>(self.f, this.it.pending()).reverse(), acc, acc));
                    }
                    return acc;
                },
            }
        }
    }
}

impl<I, B, F> StreamingIteratorMut for FilterMap<I, B, F> where
    I: StreamingIterator,
    F: FnMut(&I::Item) -> Option<B>,
 {
    fn get_mut(&mut self) -> (r: Option<&mut B>)
        ensures
            (*final(self)).mapper() == (*old(self)).mapper(),
            (*final(self)).inner() == (*old(self)).inner(),
    {
        self.item.as_mut()
    }

    fn fold_mut<Acc, Fold>(self, init: Acc, f: Fold) -> (r: Acc) where
        Self: Sized,
        Fold: FnMut(Acc, &mut Self::Item) -> Acc,

        ensures
            folds_some_mut_to(self.mapper(), f, self.inner().pending(), init, r),
    {
        let mut this = self;
        let mut step = f;
        let mut acc = init;
        let ghost s = self.it.pending();
        let ghost all = filter_mapped::<I::Item, B, F>(self.f, s);
        proof {
            if !fold_ready_mut(f, all, init) {
                assert(all_of(all, self.lends()));
                lemma_fold_ready_mut_on_seq(f, self.lends(), all, init);
            }
        }
        loop
            invariant
                this.it.inv(),
                this.it.exact(),
                this.f == self.f,
                step == f,
                callable_on(this.f, this.it.pending()),
                functional(this.f),
                s == self.inner().pending(),
                all == filter_mapped::<I::Item, B, F>(self.f, s),
                fold_ready_mut(f, filter_mapped::<I::Item, B, F>(self.f, this.it.pending()), acc),
                forall|out: Acc|
                    folds_mut_to(f, filter_mapped::<I::Item, B, F>(self.f, this.it.pending()), acc, out) ==> folds_mut_to(
                        f,
                        all,
                        init,
                        out,
                    ),
                forall|out: Acc|
                    folds_some_mut_to(this.f, f, this.it.pending(), acc, out) ==> folds_some_mut_to(
                        this.f,
                        f,
                        s,
                        init,
                        out,
                    ),
            decreases this.it.pending().len(),
        {
            let ghost rest = this.it.pending();
            let ghost before = acc;
            match this.it.next() {
                Some(x) => {
                    let made = (this.f)(x);
                    let ghost mk = made;
                    proof {
                        lemma_image(this.f, x, made);
                        lemma_filter_mapped_front(this.f, rest);
                    }
                    match made {
                        Some(y) => {
                            let mut y = y;
                            let ghost made_y = y;
                            proof {
                                assert(filter_mapped::<I::Item, B, F>(self.f, rest).first() == &made_y);
                            }
                            let ghost prev = acc;
                            acc = step(acc, &mut y);
                            proof {
                                assert(filter_mapped::<I::Item, B, F>(self.f, rest).drop_first() =~= filter_mapped::<I::Item, B, F>(self.f, this.it.pending()));
                                assert forall|out: Acc|
                                    folds_mut_to(f, filter_mapped::<I::Item, B, F>(self.f, this.it.pending()), acc, out) implies folds_mut_to(
                                    f,
                                    all,
                                    init,
                                    out,
                                ) by {
                                    assert(folds_mut_to(f, filter_mapped::<I::Item, B, F>(self.f, rest), prev, out));
                                }
                            }
                        },
                        None => {},
                    }
                    proof {
                        assert(rest.first() == x);
                        assert(rest.drop_first() =~= this.it.pending());
                        if mk is Some {
                            assert(lends_to(f, before, &mk->0, acc));
                        }
                        assert forall|out: Acc|
                            folds_some_mut_to(this.f, f, this.it.pending(), acc, out) implies folds_some_mut_to(
                            this.f,
                            f,
                            s,
                            init,
                            out,
                        ) by {
                            assert(folds_some_mut_to(this.f, f, rest, before, out));
                        }
                    }
                },
                None => {
                    proof {
                        assert(folds_some_mut_to(this.f, f, this.it.pending(), acc, acc));
                        assert(folds_mut_to(f, filter_mapped::<I::Item, B, F>(self.f, this.it.pending()), acc, acc));
                        assert(folds_mut_to(f, all, init, acc));
                        assert(all.len() == self.pending().len());
                    }
                    return acc;
                },
            }
        }
    }
}

impl<I, B, F> DoubleEndedStreamingIteratorMut for FilterMap<I, B, F> where
    I: DoubleEndedStreamingIterator,
    F: FnMut(&I::Item) -> Option<B>,
 {
    fn rfold_mut<Acc, Fold>(self, init: Acc, f: Fold) -> (r: Acc) where
        Self: Sized,
        Fold: FnMut(Acc, &mut Self::Item) -> Acc,

        ensures
            folds_some_mut_to(self.mapper(), f, self.inner().pending().reverse(), init, r),
    {
        let mut this = self;
        let mut step = f;
        let mut acc = init;
        let ghost s = self.it.pending();
        let ghost all = filter_mapped::<I::Item, B, F>(self.f, s).reverse();
        proof {
            if !fold_ready_mut(f, all, init) {
                assert(all_of(all, self.lends()));
                lemma_fold_ready_mut_on_seq(f, self.lends(), all, init);
            }
        }
        loop
            invariant
                this.it.inv(),
                this.it.exact(),
                this.f == self.f,
                step == f,
                callable_on(this.f, this.it.pending()),
                functional(this.f),
                s == self.inner().pending(),
                all == filter_mapped::<I::Item, B, F>(self.f, s).reverse(),
                fold_ready_mut(f, filter_mapped::<I::Item, B, F>(self.f, this.it.pending()).reverse(), acc),
                forall|out: Acc|
                    folds_mut_to(f, filter_mapped::<I::Item, B, F>(self.f, this.it.pending()).reverse(), acc, out) ==> folds_mut_to(
                        f,
                        all,
                        init,
                        out,
                    ),
                forall|out: Acc|
                    folds_some_mut_to(this.f, f, this.it.pending().reverse(), acc, out) ==> folds_some_mut_to(
                        this.f,
                        f,
                        s.reverse(),
                        init,
                        out,
                    ),
            decreases this.it.pending().len(),
        {
            let ghost rest = this.it.pending();
            let ghost before = acc;
            match this.it.next_back() {
                Some(x) => {
                    let made = (this.f)(x);
                    let ghost mk = made;
                    proof {
                        lemma_image(this.f, x, made);
                        lemma_filter_mapped_back(this.f, rest);
                    }
                    match made {
                        Some(y) => {
                            let mut y = y;
                            let ghost made_y = y;
                            proof {
                                lemma_reverse_last(filter_mapped::<I::Item, B, F>(self.f, rest));
                                assert(filter_mapped::<I::Item, B, F>(self.f, rest).reverse().first() == &made_y);
                            }
                            let ghost prev = acc;
                            acc = step(acc, &mut y);
                            proof {
                                assert(filter_mapped::<I::Item, B, F>(self.f, rest).reverse().drop_first() =~= filter_mapped::<I::Item, B, F>(self.f, this.it.pending()).reverse());
                                assert forall|out: Acc|
                                    folds_mut_to(f, filter_mapped::<I::Item, B, F>(self.f, this.it.pending()).reverse(), acc, out) implies folds_mut_to(
                                    f,
                                    all,
                                    init,
                                    out,
                                ) by {
                                    assert(folds_mut_to(f, filter_mapped::<I::Item, B, F>(self.f, rest).reverse(), prev, out));
                                }
                            }
                        },
                        None => {},
                    }
                    proof {
                        lemma_reverse_last(rest);
                        assert(rest.reverse().first() == x);
                        assert(rest.reverse().drop_first() =~= this.it.pending().reverse());
                        if mk is Some {
                            assert(lends_to(f, before, &mk->0, acc));
                        }
                        assert forall|out: Acc|
                            folds_some_mut_to(this.f, f, this.it.pending().reverse(), acc, out) implies folds_some_mut_to(
                            this.f,
                            f,
                            s.reverse(),
                            init,
                            out,
                        ) by {
                            assert(folds_some_mut_to(this.f, f, rest.reverse(), before, out));
                        }
                    }
                },
                None => {
                    proof {
                        assert(folds_some_mut_to(this.f, f, this.it.pending().reverse(), acc, acc));
                        assert(folds_mut_to(f, filter_mapped::<I::Item, B, F>(self.f, this.it.pending()).reverse(), acc, acc));
                        assert(folds_mut_to(f, all, init, acc));
                        assert(all.len() == self.pending().len());
                    }
                    return acc;
                },
            }
        }
    }
}

} // verus!
