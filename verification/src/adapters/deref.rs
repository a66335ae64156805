//! Iterators that give away what a closure makes of the elements of a
//! cursor.

use vstd::prelude::*;
use crate::model::{
    answers_none_before, callable_along, callable_along_mut, callable_on, folds_made_to,
    lemma_skip_step, lemma_take_step, made_fold_ready, makes_of_mut, mapped, step_back, step_front,
};
use crate::traits::{
    DoubleEndedStreamingIterator, DoubleEndedStreamingIteratorMut, StreamingIterator,
    StreamingIteratorMut,
};

verus! {

/// An iterator that advances a cursor and hands out what a closure makes
/// of the element it reached.
#[derive(Debug)]
pub struct MapDeref<I, F> {
    it: I,
    f: F,
}

impl<I, F> MapDeref<I, F> {
    /// The wrapped cursor.
    pub closed spec fn inner(&self) -> I {
        self.it
    }

    /// The closure that makes the values.
    pub closed spec fn mapper(&self) -> F {
        self.f
    }

    pub(crate) fn new(it: I, f: F) -> (r: Self)
        ensures
            r.inner() == it,
            r.mapper() == f,
    {
        MapDeref { it, f }
    }
}

impl<I: StreamingIterator, F> MapDeref<I, F> {
    /// Advances the cursor and returns what the closure makes of the
    /// element it reached.
    pub fn next<B>(&mut self) -> (r: Option<B>) where F: FnMut(&I::Item) -> B
        requires
            (*old(self)).inner().inv(),
            callable_along(
                (*old(self)).mapper(),
                (*old(self)).inner().exact(),
                (*old(self)).inner().pending(),
            ),
        ensures
            (*final(self)).inner().inv(),
            (*final(self)).mapper() == (*old(self)).mapper(),
            callable_along(
                (*final(self)).mapper(),
                (*final(self)).inner().exact(),
                (*final(self)).inner().pending(),
            ),
            (*old(self)).inner().exact() ==> (*final(self)).inner().exact() && step_front(
                (*old(self)).inner().pending(),
                (*final(self)).inner().current(),
                (*final(self)).inner().pending(),
            ),
            match r {
                Some(y) => (*final(self)).inner().current() matches Some(x) && call_ensures(
                    (*old(self)).mapper(),
                    (x,),
                    y,
                ),
                None => (*final(self)).inner().current() is None,
            },
    {
        match self.it.next() {
            Some(x) => Some((self.f)(x)),
            None => None,
        }
    }

    /// Returns the wrapped cursor's bounds on the number of elements still
    /// to come.
    pub fn size_hint(&self) -> (r: (usize, Option<usize>))
        requires
            self.inner().inv(),
        ensures
            call_ensures(I::size_hint, (&self.inner(),), r),
    {
        self.it.size_hint()
    }
}

impl<I: DoubleEndedStreamingIterator, F> MapDeref<I, F> {
    /// Moves the cursor one step from the back and returns what the closure
    /// makes of the element it reached.
    pub fn next_back<B>(&mut self) -> (r: Option<B>) where F: FnMut(&I::Item) -> B
        requires
            (*old(self)).inner().inv(),
            callable_along(
                (*old(self)).mapper(),
                (*old(self)).inner().exact(),
                (*old(self)).inner().pending(),
            ),
        ensures
            (*final(self)).inner().inv(),
            (*final(self)).mapper() == (*old(self)).mapper(),
            callable_along(
                (*final(self)).mapper(),
                (*final(self)).inner().exact(),
                (*final(self)).inner().pending(),
            ),
            (*old(self)).inner().exact() ==> (*final(self)).inner().exact() && step_back(
                (*old(self)).inner().pending(),
                (*final(self)).inner().current(),
                (*final(self)).inner().pending(),
            ),
            match r {
                Some(y) => (*final(self)).inner().current() matches Some(x) && call_ensures(
                    (*old(self)).mapper(),
                    (x,),
                    y,
                ),
                None => (*final(self)).inner().current() is None,
            },
    {
        match self.it.next_back() {
            Some(x) => Some((self.f)(x)),
            None => None,
        }
    }
}

/// An iterator that advances a cursor and hands out what a closure makes
/// of the element it reached, which the closure may write to.
#[derive(Debug)]
pub struct MapDerefMut<I, F> {
    it: I,
    f: F,
}

impl<I, F> MapDerefMut<I, F> {
    /// The wrapped cursor.
    pub closed spec fn inner(&self) -> I {
        self.it
    }

    /// The closure that makes the values.
    pub closed spec fn mapper(&self) -> F {
        self.f
    }

    pub(crate) fn new(it: I, f: F) -> (r: Self)
        ensures
            r.inner() == it,
            r.mapper() == f,
    {
        MapDerefMut { it, f }
    }
}

impl<I: StreamingIteratorMut, F> MapDerefMut<I, F> {
    /// Advances the cursor and returns what the closure makes of the
    /// element it reached. What the closure leaves of the element is the
    /// cursor's current element from then on.
    pub fn next<B>(&mut self) -> (r: Option<B>) where F: FnMut(&mut I::Item) -> B
        requires
            (*old(self)).inner().inv(),
            callable_along_mut(
                (*old(self)).mapper(),
                (*old(self)).inner().exact() && (*old(self)).inner().detached(),
                (*old(self)).inner().pending(),
            ),
        ensures
            (*final(self)).inner().inv(),
            (*final(self)).mapper() == (*old(self)).mapper(),
            callable_along_mut(
                (*final(self)).mapper(),
                (*final(self)).inner().exact() && (*final(self)).inner().detached(),
                (*final(self)).inner().pending(),
            ),
            (*old(self)).inner().exact() ==> (*final(self)).inner().exact(),
            (*old(self)).inner().exact() ==> (r is Some) == ((*old(self)).inner().pending().len()
                > 0),
            (r is Some) == ((*final(self)).inner().current() is Some),
            (*old(self)).inner().exact() ==> (r matches Some(y) ==> makes_of_mut(
                (*old(self)).mapper(),
                (*old(self)).inner().pending().first(),
                y,
            )),
    {
        match self.it.next_mut() {
            Some(x) => {
                let ghost lent = x;
                let y = (self.f)(x);
                proof {
                    if (*old(self)).inner().exact() {
                        assert(&*lent == (*old(self)).inner().pending().first());
                        assert(makes_of_mut(self.f, &*lent, y));
                    }
                }
                Some(y)
            },
            None => None,
        }
    }

    /// Returns the wrapped cursor's bounds on the number of elements still
    /// to come.
    pub fn size_hint(&self) -> (r: (usize, Option<usize>))
        requires
            self.inner().inv(),
        ensures
            call_ensures(I::size_hint, (&self.inner(),), r),
    {
        self.it.size_hint()
    }
}

impl<I: DoubleEndedStreamingIteratorMut, F> MapDerefMut<I, F> {
    /// Moves the cursor one step from the back and returns what the closure
    /// makes of the element it reached.
    pub fn next_back<B>(&mut self) -> (r: Option<B>) where F: FnMut(&mut I::Item) -> B
        requires
            (*old(self)).inner().inv(),
            callable_along_mut(
                (*old(self)).mapper(),
                (*old(self)).inner().exact() && (*old(self)).inner().detached(),
                (*old(self)).inner().pending(),
            ),
        ensures
            (*final(self)).inner().inv(),
            (*final(self)).mapper() == (*old(self)).mapper(),
            callable_along_mut(
                (*final(self)).mapper(),
                (*final(self)).inner().exact() && (*final(self)).inner().detached(),
                (*final(self)).inner().pending(),
            ),
            (*old(self)).inner().exact() ==> (*final(self)).inner().exact(),
            (*old(self)).inner().exact() ==> (r is Some) == ((*old(self)).inner().pending().len()
                > 0),
            (r is Some) == ((*final(self)).inner().current() is Some),
            (*old(self)).inner().exact() ==> (r matches Some(y) ==> makes_of_mut(
                (*old(self)).mapper(),
                (*old(self)).inner().pending().last(),
                y,
            )),
    {
        match self.it.next_back_mut() {
            Some(x) => {
                let ghost lent = x;
                let y = (self.f)(x);
                proof {
                    if (*old(self)).inner().exact() {
                        assert(&*lent == (*old(self)).inner().pending().last());
                        assert(makes_of_mut(self.f, &*lent, y));
                    }
                }
                Some(y)
            },
            None => None,
        }
    }
}

/// An iterator that searches a cursor for the next element of which a
/// closure makes something, and hands out what it made.
#[derive(Debug)]
pub struct FilterMapDeref<I, F> {
    it: I,
    f: F,
}

impl<I, F> FilterMapDeref<I, F> {
    /// The wrapped cursor.
    pub closed spec fn inner(&self) -> I {
        self.it
    }

    /// The closure that makes the values.
    pub closed spec fn mapper(&self) -> F {
        self.f
    }

    pub(crate) fn new(it: I, f: F) -> (r: Self)
        ensures
            r.inner() == it,
            r.mapper() == f,
    {
        FilterMapDeref { it, f }
    }
}

impl<I: StreamingIterator, F> FilterMapDeref<I, F> {
    /// Advances the cursor to the next element of which the closure makes
    /// something, and returns what it made.
    pub fn next<B>(&mut self) -> (r: Option<B>) where F: FnMut(&I::Item) -> Option<B>
        requires
            (*old(self)).inner().inv(),
            (*old(self)).inner().exact(),
            callable_on((*old(self)).mapper(), (*old(self)).inner().pending()),
        ensures
            (*final(self)).inner().inv(),
            (*final(self)).inner().exact(),
            (*final(self)).mapper() == (*old(self)).mapper(),
            match r {
                Some(y) => exists|k: int|
                    #![trigger (*old(self)).inner().pending()[k]]
                    0 <= k < (*old(self)).inner().pending().len() && answers_none_before(
                        (*old(self)).mapper(),
                        (*old(self)).inner().pending(),
                        k,
                    ) && call_ensures(
                        (*old(self)).mapper(),
                        ((*old(self)).inner().pending()[k],),
                        Some(y),
                    ) && (*final(self)).inner().current() == Some(
                        (*old(self)).inner().pending()[k],
                    ) && (*final(self)).inner().pending() == (*old(self)).inner().pending().skip(
                        k + 1,
                    ),
                None => answers_none_before(
                    (*old(self)).mapper(),
                    (*old(self)).inner().pending(),
                    (*old(self)).inner().pending().len() as int,
                ) && (*final(self)).inner().current() is None && (*final(self)).inner().pending().len() == 0,
            },
    {
        let ghost s = self.it.pending();
        let ghost mut n: int = 0;
        proof {
            lemma_skip_step(s, 0);
        }
        loop
            invariant
                self.it.inv(),
                self.it.exact(),
                self.f == (*old(self)).mapper(),
                callable_on(self.f, self.it.pending()),
                s == (*old(self)).inner().pending(),
                0 <= n <= s.len(),
                self.it.pending() == s.skip(n),
                answers_none_before(self.f, s, n),
            decreases s.len() - n,
        {
            proof {
                lemma_skip_step(s, n);
            }
            match self.it.next() {
                Some(item) => {
                    match (self.f)(item) {
                        Some(mapped) => {
                            return Some(mapped);
                        },
                        None => {},
                    }
                    proof {
                        n = n + 1;
                    }
                },
                None => {
                    return None;
                },
            }
        }
    }

    /// Consumes the iterator, combining what the closure makes of the
    /// elements still to come into one value, front to back.
    pub fn fold<B, Acc, Fold>(self, init: Acc, f: Fold) -> (r: Acc) where
        F: FnMut(&I::Item) -> Option<B>,
        Fold: FnMut(Acc, B) -> Acc,

        requires
            self.inner().inv(),
            self.inner().exact(),
            made_fold_ready(self.mapper(), f, self.inner().pending(), init),
        ensures
            folds_made_to(self.mapper(), f, self.inner().pending(), init, r),
    {
        let mut this = self;
        let mut step = f;
        let mut acc = init;
        let ghost s = self.it.pending();
        let ghost mut n: int = 0;
        proof {
            lemma_skip_step(s, 0);
        }
        loop
            invariant
                this.it.inv(),
                this.it.exact(),
                this.f == self.f,
                step == f,
                made_fold_ready(this.f, f, s.skip(n), acc),
                s == self.inner().pending(),
                0 <= n <= s.len(),
                this.it.pending() == s.skip(n),
                forall|out: Acc|
                    folds_made_to(this.f, f, s.skip(n), acc, out) ==> folds_made_to(
                        this.f,
                        f,
                        s,
                        init,
                        out,
                    ),
            decreases s.len() - n,
        {
            proof {
                lemma_skip_step(s, n);
            }
            match this.it.next() {
                Some(item) => {
                    let ghost prev = acc;
                    match (this.f)(item) {
                        Some(mapped) => {
                            acc = step(acc, mapped);
                        },
                        None => {},
                    }
                    proof {
                        assert forall|out: Acc|
                            folds_made_to(this.f, f, s.skip(n + 1), acc, out) implies folds_made_to(
                            this.f,
                            f,
                            s,
                            init,
                            out,
                        ) by {
                            assert(folds_made_to(this.f, f, s.skip(n), prev, out));
                        }
                        n = n + 1;
                    }
                },
                None => {
                    assert(folds_made_to(this.f, f, s.skip(n), acc, acc));
                    return acc;
                },
            }
        }
    }
}

impl<I: DoubleEndedStreamingIterator, F> FilterMapDeref<I, F> {
    /// Moves the cursor back to the next element, from the back, of which
    /// the closure makes something, and returns what it made.
    pub fn next_back<B>(&mut self) -> (r: Option<B>) where F: FnMut(&I::Item) -> Option<B>
        requires
            (*old(self)).inner().inv(),
            (*old(self)).inner().exact(),
            callable_on((*old(self)).mapper(), (*old(self)).inner().pending()),
        ensures
            (*final(self)).inner().inv(),
            (*final(self)).inner().exact(),
            (*final(self)).mapper() == (*old(self)).mapper(),
            match r {
                Some(y) => exists|k: int|
                    #![trigger (*old(self)).inner().pending()[k]]
                    0 <= k < (*old(self)).inner().pending().len() && answers_none_before(
                        (*old(self)).mapper(),
                        (*old(self)).inner().pending().reverse(),
                        (*old(self)).inner().pending().len() - 1 - k,
                    ) && call_ensures(
                        (*old(self)).mapper(),
                        ((*old(self)).inner().pending()[k],),
                        Some(y),
                    ) && (*final(self)).inner().current() == Some(
                        (*old(self)).inner().pending()[k],
                    ) && (*final(self)).inner().pending() == (*old(self)).inner().pending().take(k),
                None => answers_none_before(
                    (*old(self)).mapper(),
                    (*old(self)).inner().pending().reverse(),
                    (*old(self)).inner().pending().len() as int,
                ) && (*final(self)).inner().current() is None && (*final(self)).inner().pending().len() == 0,
            },
    {
        let ghost s = self.it.pending();
        let ghost rs = self.it.pending().reverse();
        let ghost mut n: int = 0;
        proof {
            lemma_take_step(s, 0);
        }
        loop
            invariant
                self.it.inv(),
                self.it.exact(),
                self.f == (*old(self)).mapper(),
                callable_on(self.f, self.it.pending()),
                s == (*old(self)).inner().pending(),
                rs == s.reverse(),
                0 <= n <= s.len(),
                self.it.pending() == s.take(s.len() - n),
                answers_none_before(self.f, rs, n),
            decreases s.len() - n,
        {
            proof {
                lemma_take_step(s, n);
            }
            match self.it.next_back() {
                Some(item) => {
                    match (self.f)(item) {
                        Some(mapped) => {
                            assert(s[s.len() - 1 - n] == rs[n]);
                            return Some(mapped);
                        },
                        None => {},
                    }
                    proof {
                        n = n + 1;
                    }
                },
                None => {
                    return None;
                },
            }
        }
    }

    /// Consumes the iterator, combining what the closure makes of the
    /// elements still to come into one value, back to front.
    pub fn rfold<B, Acc, Fold>(self, init: Acc, f: Fold) -> (r: Acc) where
        F: FnMut(&I::Item) -> Option<B>,
        Fold: FnMut(Acc, B) -> Acc,

        requires
            self.inner().inv(),
            self.inner().exact(),
            made_fold_ready(self.mapper(), f, self.inner().pending().reverse(), init),
        ensures
            folds_made_to(self.mapper(), f, self.inner().pending().reverse(), init, r),
    {
        let mut this = self;
        let mut step = f;
        let mut acc = init;
        let ghost s = self.it.pending();
        let ghost rs = s.reverse();
        let ghost mut n: int = 0;
        proof {
            lemma_take_step(s, 0);
            lemma_skip_step(rs, 0);
        }
        loop
            invariant
                this.it.inv(),
                this.it.exact(),
                this.f == self.f,
                step == f,
                made_fold_ready(this.f, f, rs.skip(n), acc),
                s == self.inner().pending(),
                rs == s.reverse(),
                0 <= n <= s.len(),
                this.it.pending() == s.take(s.len() - n),
                forall|out: Acc|
                    folds_made_to(this.f, f, rs.skip(n), acc, out) ==> folds_made_to(
                        this.f,
                        f,
                        rs,
                        init,
                        out,
                    ),
            decreases s.len() - n,
        {
            proof {
                lemma_take_step(s, n);
                lemma_skip_step(rs, n);
            }
            match this.it.next_back() {
                Some(item) => {
                    let ghost prev = acc;
                    match (this.f)(item) {
                        Some(mapped) => {
                            acc = step(acc, mapped);
                        },
                        None => {},
                    }
                    proof {
                        assert forall|out: Acc|
                            folds_made_to(this.f, f, rs.skip(n + 1), acc, out) implies folds_made_to(
                            this.f,
                            f,
                            rs,
                            init,
                            out,
                        ) by {
                            assert(folds_made_to(this.f, f, rs.skip(n), prev, out));
                        }
                        n = n + 1;
                    }
                },
                None => {
                    assert(folds_made_to(this.f, f, rs.skip(n), acc, acc));
                    return acc;
                },
            }
        }
    }
}

} // verus!
