//! A cursor over what follows the first elements of another.

use vstd::prelude::*;
use crate::model::{after_first, folds_mut_to, lemma_skip_step, skipped};
use crate::traits::{StreamingIterator, StreamingIteratorMut};

verus! {

/// `a - b`, or zero where `b` is the larger.
pub open spec fn less(a: usize, b: usize) -> usize {
    if a >= b {
        (a - b) as usize
    } else {
        0
    }
}

/// A cursor that passes over a given number of elements of another cursor
/// at its first step, and follows the other cursor after that.
#[derive(Clone, Debug)]
pub struct Skip<I> {
    it: I,
    n: usize,
}

impl<I> Skip<I> {
    /// The wrapped cursor.
    pub closed spec fn inner(&self) -> I {
        self.it
    }

    /// The number of elements that the next step passes over.
    pub closed spec fn owed(&self) -> usize {
        self.n
    }

    pub(crate) fn new(it: I, n: usize) -> (r: Self)
        ensures
            r.inner() == it,
            r.owed() == n,
    {
        Skip { it, n }
    }
}

impl<I> Skip<I> where I: StreamingIterator {
    /// What the cursor's specification functions say, in terms of what it
    /// wraps.
    pub proof fn lemma_unfold(&self)
        ensures
            self.inv() == (self.inner().inv()),
            self.exact() == (self.inner().exact()),
            self.current() == (self.inner().current()),
            self.pending() == (skipped(self.inner().pending(), self.owed() as nat)),
            self.detached() == (self.inner().detached()),
            self.lends() == self.inner().lends(),
    {
    }
}

impl<I> StreamingIterator for Skip<I> where I: StreamingIterator {
    type Item = I::Item;

    open spec fn inv(&self) -> bool {
        self.inner().inv()
    }

    open spec fn exact(&self) -> bool {
        self.inner().exact()
    }

    open spec fn current(&self) -> Option<&Self::Item> {
        self.inner().current()
    }

    open spec fn pending(&self) -> Seq<&Self::Item> {
        skipped(self.inner().pending(), self.owed() as nat)
    }

    open spec fn detached(&self) -> bool {
        self.inner().detached()
    }

    open spec fn lends(&self) -> spec_fn(&Self::Item) -> bool {
        self.inner().lends()
    }

    fn advance(&mut self)
        ensures
            (*final(self)).owed() == 0,
    {
        proof {
            let p = self.it.pending();
            if self.n <= p.len() {
                lemma_skip_step(p, self.n as int);
            }
        }
        self.it.nth(self.n);
        self.n = 0;
        proof {
            if (*old(self)).exact() {
                assert((*self).pending() =~= after_first((*old(self)).pending()));
            }
        }
    }

    fn is_done(&self) -> (r: bool) {
        self.it.is_done()
    }

    fn get(&self) -> (r: Option<&Self::Item>) {
        self.it.get()
    }

    fn size_hint(&self) -> (r: (usize, Option<usize>))
        ensures
            exists|hint: (usize, Option<usize>)|
                #[trigger] call_ensures(I::size_hint, (&self.inner(),), hint) && r.0 == less(hint.0, self.owed())
                    && r.1 == (match hint.1 {
                    Some(hi) => Some(less(hi, self.owed())),
                    None => None,
                }),
    {
        let hint = self.it.size_hint();
        let lo = if hint.0 >= self.n {
            hint.0 - self.n
        } else {
            0
        };
        let hi = match hint.1 {
            Some(h) => Some(
                if h >= self.n {
                    h - self.n
                } else {
                    0
                },
            ),
            None => None,
        };
        (lo, hi)
    }

    fn fold<Acc, Fold>(self, init: Acc, f: Fold) -> (r: Acc) where
        Self: Sized,
        Fold: FnMut(Acc, &Self::Item) -> Acc,
     {
        let mut this = self;
        if this.n > 0 {
            proof {
                let p = self.inner().pending();
                if this.n <= p.len() {
                    lemma_skip_step(p, (this.n - 1) as int);
                }
            }
            if this.it.nth(this.n - 1).is_none() {
                assert(self.pending() =~= Seq::empty());
                return init;
            }
        } else {
            proof {
                lemma_skip_step(self.inner().pending(), 0);
            }
        }
        this.it.fold(init, f)
    }
}

impl<I> StreamingIteratorMut for Skip<I> where I: StreamingIteratorMut {
    fn get_mut(&mut self) -> (r: Option<&mut Self::Item>)
        ensures
            (*final(self)).owed() == (*old(self)).owed(),
    {
        self.it.get_mut()
    }

    fn fold_mut<Acc, Fold>(self, init: Acc, f: Fold) -> (r: Acc) where
        Self: Sized,
        Fold: FnMut(Acc, &mut Self::Item) -> Acc,
     {
        let mut this = self;
        if this.n > 0 {
            proof {
                let p = self.inner().pending();
                if this.n <= p.len() {
                    lemma_skip_step(p, (this.n - 1) as int);
                }
            }
            if this.it.nth(this.n - 1).is_none() {
                assert(self.pending() =~= Seq::empty());
                assert(folds_mut_to(f, self.pending(), init, init));
                return init;
            }
        } else {
            proof {
                lemma_skip_step(self.inner().pending(), 0);
            }
        }
        proof {
            assert(self.lends() == self.it.lends());
        }
        this.it.fold_mut(init, f)
    }
}

} // verus!
