//! A cursor over the elements of another from the first that a predicate
//! rejects.

use vstd::prelude::*;
use crate::model::{
    accepted_by, accepts, after_first, all_of, answers_all, answers_first_at, callable_along,
    first_of, fold_ready_mut, folds_mut_to, folds_skipping_mut_to, folds_skipping_to, folds_to,
    functional, lemma_accepts, lemma_fold_ready_mut_on_seq, lemma_prefix_suffix, lemma_skip_step,
    lemma_suffix_after_front, stands_at, suffix_after,
};
use crate::traits::{StreamingIterator, StreamingIteratorMut};

verus! {

/// A cursor that, at its first step, passes over the elements of another
/// cursor that a predicate accepts, up to the first that it rejects, and
/// follows the other cursor after that.
///
/// Until that first step is made the wrapped cursor has to be one that
/// comes to an end. Which elements are still to come is known only where
/// the wrapped cursor keeps its elements apart from each other.
#[derive(Clone, Debug)]
pub struct SkipWhile<I, F> {
    it: I,
    f: F,
    done: bool,
}

impl<I, F> SkipWhile<I, F> {
    /// The wrapped cursor.
    pub closed spec fn inner(&self) -> I {
        self.it
    }

    /// The predicate.
    pub closed spec fn predicate(&self) -> F {
        self.f
    }

    /// Whether the first step has been made.
    pub closed spec fn started(&self) -> bool {
        self.done
    }

    pub(crate) fn new(it: I, f: F) -> (r: Self)
        ensures
            r.inner() == it,
            r.predicate() == f,
            !r.started(),
    {
        SkipWhile { it, f, done: false }
    }
}

impl<I, F> SkipWhile<I, F> where
    I: StreamingIterator,
    F: FnMut(&I::Item) -> bool,
 {
    /// What the cursor's specification functions say, in terms of what it
    /// wraps.
    pub proof fn lemma_unfold(&self)
        ensures
            self.inv() == ({
                &&& self.inner().inv()
                &&& self.started() || callable_along(
                    self.predicate(),
                    self.inner().detached(),
                    self.inner().pending(),
                )
                &&& !self.started() ==> self.inner().exact()
            }),
            self.exact() == ({
                &&& self.inner().exact()
                &&& self.inner().detached()
                &&& functional(self.predicate())
            }),
            self.current() == (self.inner().current()),
            self.pending() == ({
                if self.started() {
                    self.inner().pending()
                } else {
                    suffix_after(self.inner().pending(), accepted_by(self.predicate()))
                }
            }),
            self.detached() == (self.inner().detached()),
    {
    }
}

impl<I, F> StreamingIterator for SkipWhile<I, F> where
    I: StreamingIterator,
    F: FnMut(&I::Item) -> bool,
 {
    type Item = I::Item;

    open spec fn inv(&self) -> bool {
        &&& self.inner().inv()
        &&& self.started() || callable_along(
            self.predicate(),
            self.inner().detached(),
            self.inner().pending(),
        )
        &&& !self.started() ==> self.inner().exact()
    }

    open spec fn exact(&self) -> bool {
        &&& self.inner().exact()
        &&& self.inner().detached()
        &&& functional(self.predicate())
    }

    open spec fn current(&self) -> Option<&Self::Item> {
        self.inner().current()
    }

    open spec fn pending(&self) -> Seq<&Self::Item> {
        if self.started() {
            self.inner().pending()
        } else {
            suffix_after(self.inner().pending(), accepted_by(self.predicate()))
        }
    }

    open spec fn detached(&self) -> bool {
        self.inner().detached()
    }

    fn advance(&mut self)
        ensures
            (*final(self)).predicate() == (*old(self)).predicate(),
            (*final(self)).started(),
            !(*old(self)).started() ==> (*final(self)).inner().exact(),
            !(*old(self)).started() && (*final(self)).inner().current() is Some ==> exists|k: int|
                answers_first_at(
                    (*old(self)).predicate(),
                    (*old(self)).inner().pending(),
                    k,
                    false,
                ) && #[trigger] stands_at(
                    (*old(self)).inner().pending(),
                    k,
                    (*final(self)).inner().current(),
                    (*final(self)).inner().pending(),
                ),
            !(*old(self)).started() && (*final(self)).inner().current() is None ==> answers_all(
                (*old(self)).predicate(),
                (*old(self)).inner().pending(),
                true,
            ) && (*final(self)).inner().pending().len() == 0,
    {
        if !self.done {
            let ghost p = accepted_by(self.f);
            let ghost s = self.it.pending();
            let ghost mut n: int = 0;
            proof {
                lemma_skip_step(s, 0);
            }
            loop
                invariant_except_break
                    functional(self.f) ==> suffix_after(self.it.pending(), p) == suffix_after(s, p),
                    self.it.pending() == s.skip(n),
                    forall|j: int| 0 <= j < n ==> call_ensures(self.f, (#[trigger] s[j],), true),
                invariant
                    0 <= n <= s.len(),
                    self.it.inv(),
                    self.it.exact(),
                    self.f == (*old(self)).predicate(),
                    (*old(self)).inner().detached() ==> self.it.detached(),
                    callable_along(self.f, self.it.detached(), self.it.pending()),
                    p == accepted_by(self.f),
                    s == (*old(self)).inner().pending(),
                ensures
                    functional(self.f) ==> self.it.current() == first_of(suffix_after(s, p))
                        && self.it.pending() == after_first(suffix_after(s, p)),
                    self.it.current() is Some ==> answers_first_at(self.f, s, n, false)
                        && stands_at(s, n, self.it.current(), self.it.pending()),
                    self.it.current() is None ==> answers_all(self.f, s, true)
                        && self.it.pending().len() == 0,
                decreases self.it.pending().len(),
            {
                let ghost rest = self.it.pending();
                proof {
                    lemma_suffix_after_front(rest, p);
                    lemma_skip_step(s, n);
                }
                self.it.advance();
                match self.it.get() {
                    Some(i) => {
                        let pass = (self.f)(i);
                        proof {
                            if functional(self.f) {
                                lemma_accepts(self.f, i, pass);
                            }
                        }
                        if !pass {
                            break ;
                        }
                    },
                    None => {
                        break ;
                    },
                }
                proof {
                    n = n + 1;
                }
            }
            self.done = true;
        } else {
            self.it.advance();
        }
    }

    fn is_done(&self) -> (r: bool) {
        self.it.is_done()
    }

    fn get(&self) -> (r: Option<&Self::Item>) {
        self.it.get()
    }

    fn size_hint(&self) -> (r: (usize, Option<usize>))
        ensures
            exists|hint: (usize, Option<usize>)|
                #[trigger] call_ensures(I::size_hint, (&self.inner(),), hint) && r == (0usize, hint.1),
    {
        proof {
            lemma_prefix_suffix(self.it.pending(), accepted_by(self.f));
        }
        let hint = self.it.size_hint();
        (0, hint.1)
    }

    fn fold<Acc, Fold>(self, init: Acc, f: Fold) -> (r: Acc) where
        Self: Sized,
        Fold: FnMut(Acc, &Self::Item) -> Acc,

        ensures
            self.started() ==> folds_to(f, self.inner().pending(), init, r),
            !self.started() ==> folds_skipping_to(self.predicate(), f, self.inner().pending(), init, r),
    {
        let mut this = self;
        let mut step = f;
        let mut acc = init;
        let ghost s = self.it.pending();
        let ghost mut k: int = 0;
        if !this.done {
            this.advance();
            proof {
                if this.it.current() is Some {
                    k = choose|k: int|
                        answers_first_at(self.f, s, k, false) && #[trigger] stands_at(
                            s,
                            k,
                            this.it.current(),
                            this.it.pending(),
                        );
                    assert(s.skip(k).first() == s[k]);
                    assert(s.skip(k).drop_first() =~= s.skip(k + 1));
                }
            }
            match this.get() {
                Some(item) => {
                    acc = step(acc, item);
                },
                None => {
                    assert(self.pending() =~= Seq::empty());
                    assert(folds_to(f, self.pending(), init, init));
                    return acc;
                },
            }
        }
        let ghost mid = acc;
        let r = this.it.fold(acc, step);
        proof {
            if !self.started() {
                assert(folds_to(f, self.pending().drop_first(), mid, r));
                assert(folds_to(f, s.skip(k).drop_first(), mid, r));
                assert(folds_to(f, s.skip(k), init, r));
            }
            assert(folds_to(f, self.pending(), init, r));
        }
        r
    }
}

impl<I, F> StreamingIteratorMut for SkipWhile<I, F> where
    I: StreamingIteratorMut,
    F: FnMut(&I::Item) -> bool,
 {
    fn get_mut(&mut self) -> (r: Option<&mut Self::Item>)
        ensures
            (*final(self)).predicate() == (*old(self)).predicate(),
            (*final(self)).started() == (*old(self)).started(),
    {
        self.it.get_mut()
    }

    fn fold_mut<Acc, Fold>(self, init: Acc, f: Fold) -> (r: Acc) where
        Self: Sized,
        Fold: FnMut(Acc, &mut Self::Item) -> Acc,

        ensures
            self.started() ==> folds_mut_to(f, self.inner().pending(), init, r),
            !self.started() ==> folds_skipping_mut_to(self.predicate(), f, self.inner().pending(), init, r),
    {
        let mut this = self;
        let mut step = f;
        let mut acc = init;
        let ghost s = self.it.pending();
        let ghost mut k: int = 0;
        proof {
            if !fold_ready_mut(f, self.pending(), init) {
                assert(all_of(self.pending(), self.lends()));
                lemma_fold_ready_mut_on_seq(f, self.lends(), self.pending(), init);
            }
        }
        if !this.done {
            this.advance();
            proof {
                if this.it.current() is Some {
                    k = choose|k: int|
                        answers_first_at(self.f, s, k, false) && #[trigger] stands_at(
                            s,
                            k,
                            this.it.current(),
                            this.it.pending(),
                        );
                    assert(s.skip(k).first() == s[k]);
                    assert(s.skip(k).drop_first() =~= s.skip(k + 1));
                }
            }
            match this.get_mut() {
                Some(item) => {
                    assert(&*item == self.pending().first());
                    acc = step(acc, item);
                },
                None => {
                    assert(self.pending() =~= Seq::empty());
                    assert(folds_mut_to(f, self.pending(), init, init));
                    return acc;
                },
            }
        }
        let ghost mid = acc;
        let r = this.it.fold_mut(acc, step);
        proof {
            if !self.started() {
                assert(folds_mut_to(f, self.pending().drop_first(), mid, r));
                assert(folds_mut_to(f, s.skip(k).drop_first(), mid, r));
                assert(folds_mut_to(f, s.skip(k), init, r));
            }
            assert(folds_mut_to(f, self.pending(), init, r));
        }
        r
    }
}

} // verus!
