//! A cursor over the elements of the cursors that another cursor runs over.

use vstd::prelude::*;
use crate::model::{after_first, first_of};
use crate::traits::{StreamingIterator, StreamingIteratorMut};

verus! {

/// Each cursor in `s` may be driven, and is one that runs over exactly the
/// elements it has to come.
pub open spec fn all_cursors<J: StreamingIterator + ?Sized>(s: Seq<&J>) -> bool {
    forall|k: int| 0 <= k < s.len() ==> (#[trigger] s[k]).inv() && s[k].exact()
}

/// Each cursor in `s` keeps its elements apart from each other.
pub open spec fn all_detached<J: StreamingIterator + ?Sized>(s: Seq<&J>) -> bool {
    forall|k: int| 0 <= k < s.len() ==> (#[trigger] s[k]).detached()
}

/// The elements that the cursors in `s` have to come, one cursor after the
/// other.
pub open spec fn flattened<'a, J: StreamingIterator + ?Sized>(s: Seq<&J>) -> Seq<&'a J::Item>
    decreases s.len(),
{
    if s.len() == 0 {
        Seq::empty()
    } else {
        s.first().pending() + flattened(s.drop_first())
    }
}

/// The elements that the cursor `cur` has to come, or none where there is
/// no such cursor.
pub open spec fn pending_in<'a, J: StreamingIterator + ?Sized>(cur: Option<&J>) -> Seq<
    &'a J::Item,
> {
    match cur {
        Some(j) => j.pending(),
        None => Seq::empty(),
    }
}

/// A cursor that runs over the elements of each of the cursors that another
/// cursor runs over.
///
/// A step drives the cursor that the outer cursor stands on, and moves the
/// outer cursor on when that one is at its end. So the outer cursor has to
/// keep its elements apart from each other, and it and its elements have
/// to be cursors that come to an end.
#[derive(Debug)]
pub struct Flatten<I> {
    iter: I,
    first: bool,
}

impl<I> Flatten<I> {
    /// The outer cursor.
    pub closed spec fn outer(&self) -> I {
        self.iter
    }

    /// Whether the cursor has yet to be advanced.
    pub closed spec fn fresh(&self) -> bool {
        self.first
    }

    pub(crate) fn new(iter: I) -> (r: Self)
        ensures
            r.outer() == iter,
            r.fresh(),
    {
        Flatten { iter, first: true }
    }
}

impl<I> Flatten<I> where I: StreamingIteratorMut, I::Item: StreamingIterator {
    /// What the cursor's specification functions say, in terms of what it
    /// wraps.
    pub proof fn lemma_unfold(&self)
        ensures
            self.inv() == ({
                &&& self.outer().inv()
                &&& self.outer().exact()
                &&& self.outer().detached()
                &&& all_cursors(self.outer().pending())
                &&& self.outer().current() matches Some(j) ==> j.inv() && (!self.fresh() ==> j.exact())
                &&& !self.fresh() && self.outer().current() is None ==> self.outer().pending().len() == 0
            }),
            self.exact() == (self.outer().exact()),
            self.current() == ({
                match self.outer().current() {
                    Some(j) => j.current(),
                    None => None,
                }
            }),
            self.pending() == ({
                if self.fresh() {
                    flattened(self.outer().pending())
                } else {
                    pending_in(self.outer().current()) + flattened(self.outer().pending())
                }
            }),
            self.detached() == (self.outer().detached() && all_detached(self.outer().pending()) && (self.outer().current() matches Some(j) ==> j.detached())),
    {
    }
}

impl<I> StreamingIterator for Flatten<I> where I: StreamingIteratorMut, I::Item: StreamingIterator {
    type Item = <I::Item as StreamingIterator>::Item;

    open spec fn inv(&self) -> bool {
        &&& self.outer().inv()
        &&& self.outer().exact()
        &&& self.outer().detached()
        &&& all_cursors(self.outer().pending())
        &&& self.outer().current() matches Some(j) ==> j.inv() && (!self.fresh() ==> j.exact())
        &&& !self.fresh() && self.outer().current() is None ==> self.outer().pending().len() == 0
    }

    open spec fn exact(&self) -> bool {
        self.outer().exact()
    }

    open spec fn current(&self) -> Option<&Self::Item> {
        match self.outer().current() {
            Some(j) => j.current(),
            None => None,
        }
    }

    open spec fn pending(&self) -> Seq<&Self::Item> {
        if self.fresh() {
            flattened(self.outer().pending())
        } else {
            pending_in(self.outer().current()) + flattened(self.outer().pending())
        }
    }

    open spec fn detached(&self) -> bool {
        self.outer().detached() && all_detached(self.outer().pending()) && (self.outer().current() matches Some(j) ==> j.detached())
    }

    fn advance(&mut self)
        ensures
            !(*final(self)).fresh(),
    {
        let ghost all = (*self).pending();
        if self.first {
            self.first = false;
            self.iter.advance();
            assert((*self).pending() =~= all);
        }
        loop
            invariant_except_break
                (*self).pending() == all,
            invariant
                (*self).inv(),
                !self.first,
                (*old(self)).detached() ==> (*self).detached(),
                all == (*old(self)).pending(),
            ensures
                (*self).inv(),
                !self.first,
                (*old(self)).detached() ==> (*self).detached(),
                (*self).current() == first_of(all),
                (*self).pending() == after_first(all),
            decreases
                    self.iter.pending().len() + (if self.iter.current() is Some {
                        1nat
                    } else {
                        0nat
                    }),
        {
            let ghost rest = self.iter.pending();
            let ghost curp = pending_in(self.iter.current());
            match self.iter.get_mut() {
                Some(iter) => {
                    iter.advance();
                    if !(*iter).is_done() {
                        proof {
                            assert((*self).pending() =~= after_first(all));
                        }
                        break ;
                    }
                },
                None => {
                    proof {
                        assert((*self).pending() =~= after_first(all));
                    }
                    break ;
                },
            }
            proof {
                assert(curp.len() == 0);
                assert(all =~= flattened(rest));
            }
            self.iter.advance();
            proof {
                assert((*self).pending() =~= all);
            }
        }
    }

    fn is_done(&self) -> (r: bool) {
        match self.iter.get() {
            Some(iter) => iter.is_done(),
            None => true,
        }
    }

    fn get(&self) -> (r: Option<&Self::Item>) {
        match self.iter.get() {
            Some(iter) => iter.get(),
            None => None,
        }
    }

    fn size_hint(&self) -> (r: (usize, Option<usize>))
        ensures
            r == (0usize, None::<usize>),
    {
        (0, None)
    }
}

impl<I> StreamingIteratorMut for Flatten<I> where
    I: StreamingIteratorMut,
    I::Item: StreamingIteratorMut,
 {
    fn get_mut(&mut self) -> (r: Option<&mut Self::Item>)
        ensures
            (*final(self)).fresh() == (*old(self)).fresh(),
    {
        match self.iter.get_mut() {
            Some(iter) => iter.get_mut(),
            None => None,
        }
    }
}

} // verus!
