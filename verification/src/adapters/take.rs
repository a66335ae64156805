//! A cursor over the first elements of another.

use vstd::prelude::*;
use crate::model::{lemma_taken_step, taken};
use crate::traits::{StreamingIterator, StreamingIteratorMut};

verus! {

/// A cursor that makes at most a given number of steps on another cursor
/// and stands on nothing after that.
#[derive(Clone, Debug)]
pub struct Take<I> {
    it: I,
    n: usize,
    done: bool,
}

impl<I> Take<I> {
    /// The wrapped cursor.
    pub closed spec fn inner(&self) -> I {
        self.it
    }

    /// The number of steps that may still be made on the wrapped cursor.
    pub closed spec fn allowance(&self) -> usize {
        self.n
    }

    /// Whether a step was asked for when none was allowed any more.
    pub closed spec fn stopped(&self) -> bool {
        self.done
    }

    pub(crate) fn new(it: I, n: usize) -> (r: Self)
        ensures
            r.inner() == it,
            r.allowance() == n,
            !r.stopped(),
    {
        Take { it, n, done: false }
    }
}

impl<I> Take<I> where I: StreamingIterator {
    /// What the cursor's specification functions say, in terms of what it
    /// wraps.
    pub proof fn lemma_unfold(&self)
        ensures
            self.inv() == ({
                &&& self.inner().inv()
                &&& self.stopped() ==> self.allowance() == 0
            }),
            self.exact() == (self.inner().exact()),
            self.current() == ({
                if self.stopped() {
                    None
                } else {
                    self.inner().current()
                }
            }),
            self.pending() == (taken(self.inner().pending(), self.allowance() as nat)),
            self.detached() == (self.inner().detached()),
            self.lends() == self.inner().lends(),
    {
    }
}

impl<I> StreamingIterator for Take<I> where I: StreamingIterator {
    type Item = I::Item;

    open spec fn inv(&self) -> bool {
        &&& self.inner().inv()
        &&& self.stopped() ==> self.allowance() == 0
    }

    open spec fn exact(&self) -> bool {
        self.inner().exact()
    }

    open spec fn current(&self) -> Option<&Self::Item> {
        if self.stopped() {
            None
        } else {
            self.inner().current()
        }
    }

    open spec fn pending(&self) -> Seq<&Self::Item> {
        taken(self.inner().pending(), self.allowance() as nat)
    }

    open spec fn detached(&self) -> bool {
        self.inner().detached()
    }

    open spec fn lends(&self) -> spec_fn(&Self::Item) -> bool {
        self.inner().lends()
    }

    fn advance(&mut self)
        ensures
            (*old(self)).allowance() > 0 ==> (*final(self)).allowance() == (*old(self)).allowance()
                - 1 && !(*final(self)).stopped(),
            (*old(self)).allowance() == 0 ==> (*final(self)).allowance() == 0
                && (*final(self)).stopped()
                && (*final(self)).inner() == (*old(self)).inner(),
    {
        proof {
            lemma_taken_step(self.it.pending(), self.n as nat);
        }
        if self.n != 0 {
            self.it.advance();
            self.n = self.n - 1;
        } else {
            self.done = true;
        }
    }

    fn is_done(&self) -> (r: bool) {
        self.done || self.it.is_done()
    }

    fn get(&self) -> (r: Option<&Self::Item>) {
        if self.done {
            None
        } else {
            self.it.get()
        }
    }

    fn size_hint(&self) -> (r: (usize, Option<usize>))
        ensures
            r.1 == Some(self.allowance()),
            exists|hint: (usize, Option<usize>)|
                #[trigger] call_ensures(I::size_hint, (&self.inner(),), hint) && r.0 == (if hint.0 < self.allowance() {
                    hint.0
                } else {
                    self.allowance()
                }),
    {
        proof {
            lemma_taken_step(self.it.pending(), self.n as nat);
        }
        let hint = self.it.size_hint();
        let lo = if hint.0 < self.n {
            hint.0
        } else {
            self.n
        };
        (lo, Some(self.n))
    }
}

impl<I> StreamingIteratorMut for Take<I> where I: StreamingIteratorMut {
    fn get_mut(&mut self) -> (r: Option<&mut Self::Item>)
        ensures
            (*final(self)).allowance() == (*old(self)).allowance(),
            (*final(self)).stopped() == (*old(self)).stopped(),
    {
        if self.done {
            None
        } else {
            self.it.get_mut()
        }
    }
}

} // verus!
