//! A cursor over the elements of another up to the first that a predicate
//! rejects.

use vstd::prelude::*;
use crate::model::{
    accepted_by, callable_along, fold_ready, folds_taking_to, folds_to, functional, lemma_accepts,
    lemma_prefix_suffix, prefix_while, step_front,
};
use crate::traits::{StreamingIterator, StreamingIteratorMut};

verus! {

/// A cursor that follows another cursor until that one reaches an element
/// that a predicate rejects, and stands on nothing from then on.
///
/// Which elements are still to come is known only where the wrapped cursor
/// keeps its elements apart from each other.
#[derive(Debug)]
pub struct TakeWhile<I, F> {
    it: I,
    f: F,
    done: bool,
}

impl<I, F> TakeWhile<I, F> {
    /// The wrapped cursor.
    pub closed spec fn inner(&self) -> I {
        self.it
    }

    /// The predicate.
    pub closed spec fn predicate(&self) -> F {
        self.f
    }

    /// Whether the predicate has rejected an element.
    pub closed spec fn stopped(&self) -> bool {
        self.done
    }

    pub(crate) fn new(it: I, f: F) -> (r: Self)
        ensures
            r.inner() == it,
            r.predicate() == f,
            !r.stopped(),
    {
        TakeWhile { it, f, done: false }
    }
}

impl<I, F> TakeWhile<I, F> where
    I: StreamingIterator,
    F: FnMut(&I::Item) -> bool,
 {
    /// What the cursor's specification functions say, in terms of what it
    /// wraps.
    pub proof fn lemma_unfold(&self)
        ensures
            self.inv() == ({
                &&& self.inner().inv()
                &&& self.stopped() || callable_along(
                    self.predicate(),
                    self.inner().exact() && self.inner().detached(),
                    self.inner().pending(),
                )
            }),
            self.exact() == ({
                &&& self.inner().exact()
                &&& self.inner().detached()
                &&& functional(self.predicate())
            }),
            self.current() == ({
                if self.stopped() {
                    None
                } else {
                    self.inner().current()
                }
            }),
            self.pending() == ({
                if self.stopped() {
                    Seq::empty()
                } else {
                    prefix_while(self.inner().pending(), accepted_by(self.predicate()))
                }
            }),
            self.detached() == (self.inner().detached()),
            self.lends() == self.inner().lends(),
    {
    }
}

impl<I, F> StreamingIterator for TakeWhile<I, F> where
    I: StreamingIterator,
    F: FnMut(&I::Item) -> bool,
 {
    type Item = I::Item;

    open spec fn inv(&self) -> bool {
        &&& self.inner().inv()
        &&& self.stopped() || callable_along(
            self.predicate(),
            self.inner().exact() && self.inner().detached(),
            self.inner().pending(),
        )
    }

    open spec fn exact(&self) -> bool {
        &&& self.inner().exact()
        &&& self.inner().detached()
        &&& functional(self.predicate())
    }

    open spec fn current(&self) -> Option<&Self::Item> {
        if self.stopped() {
            None
        } else {
            self.inner().current()
        }
    }

    open spec fn pending(&self) -> Seq<&Self::Item> {
        if self.stopped() {
            Seq::empty()
        } else {
            prefix_while(self.inner().pending(), accepted_by(self.predicate()))
        }
    }

    open spec fn detached(&self) -> bool {
        self.inner().detached()
    }

    open spec fn lends(&self) -> spec_fn(&Self::Item) -> bool {
        self.inner().lends()
    }

    fn advance(&mut self)
        ensures
            (*final(self)).predicate() == (*old(self)).predicate(),
            (*old(self)).stopped() ==> (*final(self)).stopped() && (*final(self)).inner() == (
            *old(self)).inner(),
            !(*old(self)).stopped() ==> (*final(self)).inner().inv() && ((*old(self)).inner().exact()
                ==> (*final(self)).inner().exact() && step_front(
                (*old(self)).inner().pending(),
                (*final(self)).inner().current(),
                (*final(self)).inner().pending(),
            )),
            !(*old(self)).stopped() ==> (match (*final(self)).inner().current() {
                Some(x) => call_ensures((*old(self)).predicate(), (x,), !(*final(self)).stopped()),
                None => !(*final(self)).stopped(),
            }),
    {
        proof {
            lemma_prefix_suffix(self.it.pending(), accepted_by(self.f));
            assert((*self).detached() == self.it.detached());
            assert((*self).lends() == self.it.lends());
        }
        if !self.done {
            self.it.advance();
            match self.it.get() {
                Some(i) => {
                    let keep = (self.f)(i);
                    proof {
                        if functional(self.f) {
                            lemma_accepts(self.f, i, keep);
                        }
                    }
                    if !keep {
                        self.done = true;
                    }
                },
                None => {},
            }
        }
    }

    fn is_done(&self) -> (r: bool) {
        self.done || self.it.is_done()
    }

    fn get(&self) -> (r: Option<&Self::Item>) {
        if self.done {
            None
        } else {
            self.it.get()
        }
    }

    fn next(&mut self) -> (r: Option<&Self::Item>)
        ensures
            (*final(self)).predicate() == (*old(self)).predicate(),
            (*old(self)).stopped() ==> (*final(self)).stopped() && (*final(self)).inner() == (
            *old(self)).inner(),
            !(*old(self)).stopped() ==> (*final(self)).inner().inv() && ((*old(self)).inner().exact()
                ==> (*final(self)).inner().exact() && step_front(
                (*old(self)).inner().pending(),
                (*final(self)).inner().current(),
                (*final(self)).inner().pending(),
            )),
            !(*old(self)).stopped() ==> (match (*final(self)).inner().current() {
                Some(x) => call_ensures((*old(self)).predicate(), (x,), !(*final(self)).stopped()),
                None => !(*final(self)).stopped(),
            }),
    {
        proof {
            lemma_prefix_suffix(self.it.pending(), accepted_by(self.f));
            assert((*self).detached() == self.it.detached());
            assert((*self).lends() == self.it.lends());
        }
        if self.done {
            None
        } else {
            match self.it.next() {
                Some(i) => {
                    let keep = (self.f)(i);
                    proof {
                        if functional(self.f) {
                            lemma_accepts(self.f, i, keep);
                        }
                    }
                    if keep {
                        Some(i)
                    } else {
                        self.done = true;
                        None
                    }
                },
                None => None,
            }
        }
    }

    fn fold<Acc, Fold>(self, init: Acc, f: Fold) -> (r: Acc) where
        Self: Sized,
        Fold: FnMut(Acc, &Self::Item) -> Acc,

        ensures
            self.stopped() ==> r == init,
            !self.stopped() ==> folds_taking_to(
                self.predicate(),
                f,
                self.inner().pending(),
                init,
                r,
            ),
    {
        let mut this = self;
        let mut step = f;
        let mut acc = init;
        let ghost all = self.pending();
        let ghost s = self.it.pending();
        loop
            invariant
                this.inv(),
                this.exact(),
                this.f == self.f,
                step == f,
                all == self.pending(),
                s == self.inner().pending(),
                self.stopped() ==> this.stopped() && acc == init,
                fold_ready(f, this.pending(), acc),
                forall|out: Acc| folds_to(f, this.pending(), acc, out) ==> folds_to(f, all, init, out),
                !self.stopped() ==> forall|out: Acc|
                    (if this.stopped() {
                        out == acc
                    } else {
                        folds_taking_to(this.f, f, this.it.pending(), acc, out)
                    }) ==> folds_taking_to(self.f, f, s, init, out),
            decreases this.pending().len(),
        {
            let ghost rest = this.pending();
            let ghost under = this.it.pending();
            let ghost halted = this.done;
            match this.next() {
                Some(x) => {
                    let ghost prev = acc;
                    proof {
                        assert(rest.first() == x);
                        assert(under.first() == x);
                    }
                    acc = step(acc, x);
                    proof {
                        assert(rest.drop_first() =~= this.pending());
                        assert(under.drop_first() =~= this.it.pending());
                        assert forall|out: Acc|
                            folds_to(f, this.pending(), acc, out) implies folds_to(
                            f,
                            all,
                            init,
                            out,
                        ) by {
                            assert(folds_to(f, rest, prev, out));
                        }
                        if !self.stopped() {
                            assert forall|out: Acc|
                                (if this.stopped() {
                                    out == acc
                                } else {
                                    folds_taking_to(this.f, f, this.it.pending(), acc, out)
                                }) implies folds_taking_to(self.f, f, s, init, out) by {
                                assert(folds_taking_to(this.f, f, under, prev, out));
                            }
                        }
                    }
                },
                None => {
                    proof {
                        assert(folds_to(f, rest, acc, acc));
                        if !halted {
                            assert(folds_taking_to(this.f, f, under, acc, acc));
                        }
                    }
                    return acc;
                },
            }
        }
    }

    fn size_hint(&self) -> (r: (usize, Option<usize>))
        ensures
            self.stopped() ==> r == (0usize, Some(0usize)),
            !self.stopped() ==> exists|hint: (usize, Option<usize>)|
                #[trigger] call_ensures(I::size_hint, (&self.inner(),), hint) && r == (0usize, hint.1),
    {
        proof {
            lemma_prefix_suffix(self.it.pending(), accepted_by(self.f));
        }
        let upper = if self.done {
            Some(0)
        } else {
            self.it.size_hint().1
        };
        (0, upper)
    }
}

impl<I, F> StreamingIteratorMut for TakeWhile<I, F> where
    I: StreamingIteratorMut,
    F: FnMut(&I::Item) -> bool,
 {
    fn get_mut(&mut self) -> (r: Option<&mut Self::Item>)
        ensures
            (*final(self)).predicate() == (*old(self)).predicate(),
            (*final(self)).stopped() == (*old(self)).stopped(),
    {
        if self.done {
            None
        } else {
            self.it.get_mut()
        }
    }
}

} // verus!
