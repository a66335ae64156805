//! A cursor over the elements of the cursors that a closure makes of
//! another cursor's elements.

use vstd::prelude::*;
use crate::model::{
    after_first, all_of, callable_on, drained, first_of, fold_ready, fold_ready_mut,
    fold_ready_mut_on, folds_mut_over, folds_mut_to, folds_to, image,
    lemma_fold_ready_mut_on_narrow, lemma_fold_ready_mut_on_split, lemma_fold_ready_mut_split,
    lemma_fold_ready_split, lemma_folds_mut_over_concat, lemma_folds_mut_over_widen,
    lemma_folds_mut_to_concat, lemma_folds_to_concat, lemma_skip_step, stands_at, step_front,
};
use crate::traits::{fold_rest, fold_rest_mut, StreamingIterator, StreamingIteratorMut};

verus! {

/// Every cursor that `f` makes may be driven, and is one that runs over
/// exactly the elements it has to come.
pub open spec fn makes_cursors<T: ?Sized, J: StreamingIterator, F: FnMut(&T) -> J>(f: F) -> bool {
    forall|x: &T, j: J| #[trigger] call_ensures(f, (x,), j) ==> j.inv() && j.exact()
}

/// Every cursor that `f` makes keeps its elements apart from each other.
pub open spec fn makes_detached<T: ?Sized, J: StreamingIterator, F: FnMut(&T) -> J>(f: F) -> bool {
    forall|x: &T, j: J| #[trigger] call_ensures(f, (x,), j) ==> j.detached()
}

/// Any two cursors that `f` makes of one element have the same elements to
/// come.
pub open spec fn makes_alike<T: ?Sized, J: StreamingIterator, F: FnMut(&T) -> J>(f: F) -> bool {
    forall|x: &T, a: J, b: J|
        #![trigger call_ensures(f, (x,), a), call_ensures(f, (x,), b)]
        call_ensures(f, (x,), a) && call_ensures(f, (x,), b) ==> a.pending() == b.pending()
}

/// `f` has made, of `e`, a cursor that had nothing to come.
pub open spec fn made_empty<T: ?Sized, J: StreamingIterator, F: FnMut(&T) -> J>(f: F, e: &T) -> bool {
    exists|made: J| #[trigger] call_ensures(f, (e,), made) && made.pending().len() == 0
}

/// `f` has made, of every one of the first `k` elements of `s`, a cursor
/// that had nothing to come.
pub open spec fn made_empty_before<T: ?Sized, J: StreamingIterator, F: FnMut(&T) -> J>(
    f: F,
    s: Seq<&T>,
    k: int,
) -> bool {
    forall|i: int| 0 <= i < k && i < s.len() ==> made_empty::<T, J, F>(f, #[trigger] s[i])
}

/// `j` is a cursor that `f` has made of `e`, one step on: it stands on the
/// first of the elements that the cursor had to come when it was made, and
/// has the others to come.
pub open spec fn made_and_stepped<T: ?Sized, J: StreamingIterator, F: FnMut(&T) -> J>(
    f: F,
    e: &T,
    j: J,
) -> bool {
    exists|made: J| #[trigger]
        call_ensures(f, (e,), made) && step_front(made.pending(), j.current(), j.pending())
}

/// Whether `sub` is a cursor that has elements to come.
pub open spec fn live<J: StreamingIterator>(sub: Option<J>) -> bool {
    sub matches Some(j) && j.pending().len() > 0
}

/// The cursor that `f` has made of `x` has the elements to come that
/// `image` says, where all that `f` makes of `x` are alike in that.
pub proof fn lemma_made<T: ?Sized, J: StreamingIterator, F: FnMut(&T) -> J>(f: F, x: &T, j: J)
    requires
        makes_alike(f),
        call_ensures(f, (x,), j),
    ensures
        j.pending() == image(f, x).pending(),
{
    assert(call_ensures(f, (x,), image(f, x)));
}

/// The elements of the cursors that `f` makes of the elements of `s`, one
/// cursor after the other.
pub open spec fn flat_mapped<'a, T: ?Sized, J: StreamingIterator, F: FnMut(&T) -> J>(
    f: F,
    s: Seq<&T>,
) -> Seq<&'a J::Item>
    decreases s.len(),
{
    if s.len() == 0 {
        Seq::empty()
    } else {
        image(f, s.first()).pending() + flat_mapped(f, s.drop_first())
    }
}

/// The elements that `sub` has to come, or none where there is no `sub`.
pub open spec fn pending_of<'a, J: StreamingIterator>(sub: Option<J>) -> Seq<&'a J::Item> {
    match sub {
        Some(j) => j.pending(),
        None => Seq::empty(),
    }
}

/// A cursor that runs over the elements of a cursor of its own making for
/// each element of another cursor: a closure makes the one of the other.
///
/// A step searches for the next of these cursors that has an element, so
/// the wrapped cursor and those that the closure makes have to be cursors
/// that come to an end.
#[derive(Debug)]
pub struct FlatMap<I, J, F> {
    it: I,
    f: F,
    sub_iter: Option<J>,
}

impl<I, J, F> FlatMap<I, J, F> {
    /// The wrapped cursor.
    pub closed spec fn inner(&self) -> I {
        self.it
    }

    /// The closure that makes a cursor of each element.
    pub closed spec fn maker(&self) -> F {
        self.f
    }

    /// The cursor made of the element that the wrapped cursor stands on.
    pub closed spec fn sub(&self) -> Option<J> {
        self.sub_iter
    }

    pub(crate) fn new(it: I, f: F) -> (r: Self)
        ensures
            r.inner() == it,
            r.maker() == f,
            r.sub() is None,
    {
        FlatMap { it, f, sub_iter: None }
    }
}

impl<I, J, F> FlatMap<I, J, F> where
    I: StreamingIterator,
    F: FnMut(&I::Item) -> J,
    J: StreamingIterator,
 {
    /// What the cursor's specification functions say, in terms of what it
    /// wraps.
    pub proof fn lemma_unfold(&self)
        ensures
            self.inv() == ({
                &&& self.inner().inv()
                &&& self.inner().exact()
                &&& callable_on(self.maker(), self.inner().pending())
                &&& makes_cursors(self.maker())
                &&& self.sub() matches Some(j) ==> j.inv() && j.exact()
            }),
            self.exact() == ({
                &&& self.inner().exact()
                &&& makes_alike(self.maker())
                &&& self.sub() matches Some(j) ==> j.exact()
            }),
            self.current() == ({
                match self.sub() {
                    Some(j) => j.current(),
                    None => None,
                }
            }),
            self.pending() == (pending_of(self.sub()) + flat_mapped(self.maker(), self.inner().pending())),
            self.detached() == (makes_detached(self.maker()) && (self.sub() matches Some(j) ==> j.detached())),
    {
    }
}

impl<I, J, F> StreamingIterator for FlatMap<I, J, F> where
    I: StreamingIterator,
    F: FnMut(&I::Item) -> J,
    J: StreamingIterator,
 {
    type Item = J::Item;

    open spec fn inv(&self) -> bool {
        &&& self.inner().inv()
        &&& self.inner().exact()
        &&& callable_on(self.maker(), self.inner().pending())
        &&& makes_cursors(self.maker())
        &&& self.sub() matches Some(j) ==> j.inv() && j.exact()
    }

    open spec fn exact(&self) -> bool {
        &&& self.inner().exact()
        &&& makes_alike(self.maker())
        &&& self.sub() matches Some(j) ==> j.exact()
    }

    open spec fn current(&self) -> Option<&Self::Item> {
        match self.sub() {
            Some(j) => j.current(),
            None => None,
        }
    }

    open spec fn pending(&self) -> Seq<&Self::Item> {
        pending_of(self.sub()) + flat_mapped(self.maker(), self.inner().pending())
    }

    open spec fn detached(&self) -> bool {
        makes_detached(self.maker()) && (self.sub() matches Some(j) ==> j.detached())
    }

    fn advance(&mut self)
        ensures
            (*final(self)).maker() == (*old(self)).maker(),
            (*final(self)).inner().inv(),
            (*final(self)).inner().exact(),
            live((*old(self)).sub()) ==> (*final(self)).inner() == (*old(self)).inner()
                && (*final(self)).sub() is Some && step_front(
                (*old(self)).sub()->0.pending(),
                (*final(self)).sub()->0.current(),
                (*final(self)).sub()->0.pending(),
            ),
            !live((*old(self)).sub()) && (*final(self)).current() is Some ==> exists|k: int|
                #![trigger (*old(self)).inner().pending()[k]]
                stands_at(
                    (*old(self)).inner().pending(),
                    k,
                    (*final(self)).inner().current(),
                    (*final(self)).inner().pending(),
                ) && made_empty_before::<I::Item, J, F>(
                    (*old(self)).maker(),
                    (*old(self)).inner().pending(),
                    k,
                ) && (*final(self)).sub() is Some && made_and_stepped(
                    (*old(self)).maker(),
                    (*old(self)).inner().pending()[k],
                    (*final(self)).sub()->0,
                ),
            !live((*old(self)).sub()) && (*final(self)).current() is None ==> drained(
                (*final(self)).inner().current(),
                (*final(self)).inner().pending(),
            ) && made_empty_before::<I::Item, J, F>(
                (*old(self)).maker(),
                (*old(self)).inner().pending(),
                (*old(self)).inner().pending().len() as int,
            ),
    {
        let ghost all = (*self).pending();
        let ghost s = self.it.pending();
        let ghost mut moved = false;
        let ghost mut n: int = 0;
        proof {
            lemma_skip_step(s, 0);
        }
        loop
            invariant_except_break
                makes_alike(self.f) ==> (*self).pending() == all,
                !moved ==> n == 0 && self.it == (*old(self)).inner() && self.sub_iter == (*old(self)).sub(),
                moved ==> !live((*old(self)).sub()) && 1 <= n <= s.len() && stands_at(
                    s,
                    n - 1,
                    self.it.current(),
                    self.it.pending(),
                ) && made_empty_before::<I::Item, J, F>(self.f, s, n - 1) && self.sub_iter is Some
                    && call_ensures(self.f, (s[n - 1],), self.sub_iter->0),
            invariant
                (*self).inv(),
                self.f == (*old(self)).maker(),
                (*old(self)).detached() ==> (*self).detached(),
                all == (*old(self)).pending(),
                s == (*old(self)).inner().pending(),
            ensures
                (*self).inv(),
                self.f == (*old(self)).maker(),
                (*old(self)).detached() ==> (*self).detached(),
                makes_alike(self.f) ==> (*self).current() == first_of(all) && (*self).pending()
                    == after_first(all),
                live((*old(self)).sub()) ==> self.it == (*old(self)).inner() && self.sub_iter is Some
                    && step_front(
                    (*old(self)).sub()->0.pending(),
                    self.sub_iter->0.current(),
                    self.sub_iter->0.pending(),
                ),
                !live((*old(self)).sub()) && (*self).current() is Some ==> 1 <= n <= s.len()
                    && stands_at(s, n - 1, self.it.current(), self.it.pending())
                    && made_empty_before::<I::Item, J, F>(self.f, s, n - 1) && self.sub_iter is Some
                    && made_and_stepped(self.f, s[n - 1], self.sub_iter->0),
                !live((*old(self)).sub()) && (*self).current() is None ==> drained(
                    self.it.current(),
                    self.it.pending(),
                ) && made_empty_before::<I::Item, J, F>(self.f, s, s.len() as int),
            decreases self.it.pending().len(),
        {
            let ghost rest = self.it.pending();
            let ghost subp = pending_of(self.sub_iter);
            let ghost before = self.sub_iter;
            match &mut self.sub_iter {
                Some(iter) => {
                    iter.advance();
                    if !(*iter).is_done() {
                        proof {
                            if makes_alike(self.f) {
                                assert((*self).pending() =~= after_first(all));
                            }
                            if moved {
                                assert(made_and_stepped(self.f, s[n - 1], self.sub_iter->0));
                            }
                        }
                        break ;
                    }
                },
                None => {},
            }
            proof {
                assert(subp.len() == 0);
                if makes_alike(self.f) {
                    assert(all =~= flat_mapped::<I::Item, J, F>(self.f, rest));
                    assert(pending_of(self.sub_iter).len() == 0);
                }
                if moved {
                    assert(made_empty::<I::Item, J, F>(self.f, s[n - 1]));
                    assert(made_empty_before::<I::Item, J, F>(self.f, s, n));
                }
                lemma_skip_step(s, n);
            }
            match self.it.next() {
                Some(item) => {
                    let made = (self.f)(item);
                    proof {
                        if makes_alike(self.f) {
                            lemma_made(self.f, item, made);
                        }
                    }
                    self.sub_iter = Some(made);
                    proof {
                        if makes_alike(self.f) {
                            assert((*self).pending() =~= all);
                        }
                        moved = true;
                        n = n + 1;
                    }
                },
                None => {
                    proof {
                        if makes_alike(self.f) {
                            assert((*self).pending() =~= after_first(all));
                        }
                    }
                    break ;
                },
            }
        }
    }

    fn is_done(&self) -> (r: bool) {
        match &self.sub_iter {
            Some(iter) => iter.is_done(),
            None => true,
        }
    }

    fn get(&self) -> (r: Option<&Self::Item>) {
        match &self.sub_iter {
            Some(iter) => iter.get(),
            None => None,
        }
    }

    fn size_hint(&self) -> (r: (usize, Option<usize>))
        ensures
            r == (0usize, None::<usize>),
    {
        (0, None)
    }

    fn fold<Acc, Fold>(self, init: Acc, f: Fold) -> (r: Acc) where
        Self: Sized,
        Fold: FnMut(Acc, &Self::Item) -> Acc,
     {
        let mut this = self;
        let mut step = f;
        let mut acc = init;
        let ghost all = self.pending();
        proof {
            lemma_fold_ready_split(
                f,
                pending_of(self.sub()),
                flat_mapped::<I::Item, J, F>(self.f, self.it.pending()),
                init,
            );
        }
        match this.sub_iter {
            Some(iter) => {
                let mut iter = iter;
                acc = fold_rest(&mut iter, acc, &mut step);
                this.sub_iter = None;
            },
            None => {},
        }
        proof {
            let head = pending_of(self.sub());
            let tail = flat_mapped::<I::Item, J, F>(self.f, self.it.pending());
            assert(folds_to(f, head, init, acc));
            assert forall|out: Acc| folds_to(f, tail, acc, out) implies folds_to(
                f,
                all,
                init,
                out,
            ) by {
                lemma_folds_to_concat(f, head, tail, init, acc, out);
            }
        }
        loop
            invariant
                this.it.inv(),
                this.it.exact(),
                this.f == self.f,
                step == f,
                callable_on(this.f, this.it.pending()),
                makes_alike(this.f),
                makes_cursors(this.f),
                fold_ready(f, flat_mapped::<I::Item, J, F>(this.f, this.it.pending()), acc),
                all == self.pending(),
                forall|out: Acc|
                    folds_to(f, flat_mapped::<I::Item, J, F>(this.f, this.it.pending()), acc, out)
                        ==> folds_to(f, all, init, out),
            decreases this.it.pending().len(),
        {
            let ghost rest = this.it.pending();
            match this.it.next() {
                Some(item) => {
                    let mut made = (this.f)(item);
                    let ghost prev = acc;
                    let ghost head = made.pending();
                    proof {
                        lemma_made(this.f, item, made);
                        lemma_fold_ready_split(
                            f,
                            head,
                            flat_mapped::<I::Item, J, F>(this.f, this.it.pending()),
                            acc,
                        );
                    }
                    acc = fold_rest(&mut made, acc, &mut step);
                    proof {
                        let tail = flat_mapped::<I::Item, J, F>(this.f, this.it.pending());
                        assert forall|out: Acc| folds_to(f, tail, acc, out) implies folds_to(
                            f,
                            all,
                            init,
                            out,
                        ) by {
                            lemma_folds_to_concat(f, head, tail, prev, acc, out);
                        }
                    }
                },
                None => {
                    assert(folds_to(
                        f,
                        flat_mapped::<I::Item, J, F>(this.f, this.it.pending()),
                        acc,
                        acc,
                    ));
                    return acc;
                },
            }
        }
    }
}

impl<I, J, F> StreamingIteratorMut for FlatMap<I, J, F> where
    I: StreamingIterator,
    F: FnMut(&I::Item) -> J,
    J: StreamingIteratorMut,
 {
    fn get_mut(&mut self) -> (r: Option<&mut Self::Item>)
        ensures
            (*final(self)).maker() == (*old(self)).maker(),
            (*final(self)).inner() == (*old(self)).inner(),
    {
        match &mut self.sub_iter {
            Some(iter) => iter.get_mut(),
            None => None,
        }
    }

    fn fold_mut<Acc, Fold>(self, init: Acc, f: Fold) -> (r: Acc) where
        Self: Sized,
        Fold: FnMut(Acc, &mut Self::Item) -> Acc,
     {
        let mut this = self;
        let mut step = f;
        let mut acc = init;
        let ghost all = self.pending();
        let ghost mut done: nat = pending_of(self.sub()).len();
        let ghost by_run = self.detached() && fold_ready_mut(f, all, init);
        proof {
            let head = pending_of(self.sub());
            let tail = flat_mapped::<I::Item, J, F>(self.f, self.it.pending());
            if by_run {
                lemma_fold_ready_mut_split(f, head, tail, init);
            } else {
                lemma_fold_ready_mut_on_split(f, self.lends(), head.len(), tail.len(), init);
                if self.sub() is Some {
                    lemma_fold_ready_mut_on_narrow(
                        f,
                        self.lends(),
                        self.sub()->0.lends(),
                        head.len(),
                        init,
                    );
                }
            }
            assert(folds_mut_to(f, Seq::<&J::Item>::empty(), init, init));
        }
        match this.sub_iter {
            Some(iter) => {
                let mut iter = iter;
                acc = fold_rest_mut(&mut iter, acc, &mut step);
                this.sub_iter = None;
            },
            None => {},
        }
        proof {
            if self.sub() is Some {
                lemma_folds_mut_over_widen(f, self.lends(), self.sub()->0.lends(), done, init, acc);
            } else {
                assert(all_of(Seq::<&J::Item>::empty(), self.lends()));
            }
            assert(folds_mut_over(f, self.lends(), done, init, acc));
            if self.detached() {
                let head = pending_of(self.sub());
                let tail = flat_mapped::<I::Item, J, F>(self.f, self.it.pending());
                assert(folds_mut_to(f, head, init, acc));
                assert forall|out: Acc| folds_mut_to(f, tail, acc, out) implies folds_mut_to(
                    f,
                    all,
                    init,
                    out,
                ) by {
                    lemma_folds_mut_to_concat(f, head, tail, init, acc, out);
                }
            }
        }
        loop
            invariant
                this.it.inv(),
                this.it.exact(),
                this.f == self.f,
                step == f,
                callable_on(this.f, this.it.pending()),
                makes_alike(this.f),
                makes_cursors(this.f),
                all == self.pending(),
                done + flat_mapped::<I::Item, J, F>(this.f, this.it.pending()).len() == all.len(),
                folds_mut_over(f, self.lends(), done, init, acc),
                !by_run ==> fold_ready_mut_on(f, self.lends(), (all.len() - done) as nat, acc),
                self.detached() ==> makes_detached(this.f),
                by_run ==> self.detached() && fold_ready_mut(
                    f,
                    flat_mapped::<I::Item, J, F>(this.f, this.it.pending()),
                    acc,
                ),
                self.detached() ==> forall|out: Acc|
                    folds_mut_to(
                        f,
                        flat_mapped::<I::Item, J, F>(this.f, this.it.pending()),
                        acc,
                        out,
                    ) ==> folds_mut_to(f, all, init, out),
            decreases this.it.pending().len(),
        {
            let ghost rest = this.it.pending();
            match this.it.next() {
                Some(item) => {
                    let mut made = (this.f)(item);
                    let ghost prev = acc;
                    let ghost head = made.pending();
                    proof {
                        lemma_made(this.f, item, made);
                        if by_run {
                            lemma_fold_ready_mut_split(
                                f,
                                head,
                                flat_mapped::<I::Item, J, F>(this.f, this.it.pending()),
                                acc,
                            );
                        } else {
                            lemma_fold_ready_mut_on_split(
                                f,
                                self.lends(),
                                head.len(),
                                flat_mapped::<I::Item, J, F>(this.f, this.it.pending()).len(),
                                acc,
                            );
                            lemma_fold_ready_mut_on_narrow(
                                f,
                                self.lends(),
                                made.lends(),
                                head.len(),
                                acc,
                            );
                        }
                    }
                    let ghost lent = made.lends();
                    acc = fold_rest_mut(&mut made, acc, &mut step);
                    proof {
                        lemma_folds_mut_over_widen(f, self.lends(), lent, head.len(), prev, acc);
                        lemma_folds_mut_over_concat(f, self.lends(), done, head.len(), init, prev, acc);
                        done = done + head.len();
                        if self.detached() {
                            let tail = flat_mapped::<I::Item, J, F>(this.f, this.it.pending());
                            assert forall|out: Acc|
                                folds_mut_to(f, tail, acc, out) implies folds_mut_to(
                                f,
                                all,
                                init,
                                out,
                            ) by {
                                lemma_folds_mut_to_concat(f, head, tail, prev, acc, out);
                            }
                        }
                    }
                },
                None => {
                    proof {
                        if self.detached() {
                            assert(folds_mut_to(
                                f,
                                flat_mapped::<I::Item, J, F>(this.f, this.it.pending()),
                                acc,
                                acc,
                            ));
                        }
                    }
                    return acc;
                },
            }
        }
    }
}

} // verus!
