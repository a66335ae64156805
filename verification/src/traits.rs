//! The cursor protocol and its extensions.

use vstd::prelude::*;
use std::borrow::ToOwned;
use crate::adapters::chain::Chain;
use crate::adapters::deref::{FilterMapDeref, MapDeref, MapDerefMut};
use crate::adapters::filter::Filter;
use crate::adapters::filter_map::FilterMap;
use crate::adapters::flat_map::FlatMap;
use crate::adapters::flatten::Flatten;
use crate::adapters::fuse::Fuse;
use crate::adapters::inspect::Inspect;
use crate::adapters::map::Mapped;
use crate::adapters::map_ref::MapRef;
use crate::adapters::owned::{Cloned, Copied, Owned};
use crate::adapters::rev::Rev;
use crate::adapters::skip::Skip;
use crate::adapters::skip_while::SkipWhile;
use crate::adapters::take::Take;
use crate::adapters::take_while::TakeWhile;
use crate::model::{
    after_first, all_of, answers_all, answers_first_at, before_last, callable_on, callable_on_mut,
    drained, fold_ready, fold_ready_mut, fold_ready_mut_on, folds_mut_over, folds_mut_to, folds_to,
    lemma_folds_mut_to_push, lemma_skip_step, lemma_take_step, lends_to, stands_at, step_back,
    step_front, total_mut_on, visits_all, visits_all_mut, visits_mut, visits_mut_over,
};

verus! {

/// A cursor over a sequence of elements, which lends out the element it
/// stands on.
///
/// A cursor starts before its first element: `advance` moves it onto the
/// next one and `get` lends that element out. Its contracts are stated over
/// the specification functions below. Where `exact()` holds, the elements
/// that the cursor has yet to visit are `pending()`, one step takes the
/// first of them, and a cursor with nothing pending stays at the end. Where
/// it does not hold, only `inv()` is promised to be kept, and each
/// implementation says for itself what a step does.
///
/// The specification functions have bodies of their own for the sake of
/// implementations that are not verified, which give the two required
/// methods alone. A verified cursor states them itself: verified code
/// takes `get` to return `current()`, and as they stand `current()` is one
/// value whatever the cursor's state.
pub trait StreamingIterator {
    /// The type of the elements being iterated over.
    type Item: ?Sized;

    /// What must hold of the cursor for it to be driven. Nothing, unless an
    /// implementation says otherwise.
    open spec fn inv(&self) -> bool {
        true
    }

    /// Whether the cursor is known to run over exactly `pending()` and then
    /// to stay at the end. It is not, unless an implementation says so.
    open spec fn exact(&self) -> bool {
        false
    }

    /// The element that the cursor stands on: what `get` returns.
    open spec fn current(&self) -> Option<&Self::Item> {
        arbitrary()
    }

    /// The elements still to come, in the order of forward steps.
    open spec fn pending(&self) -> Seq<&Self::Item> {
        Seq::empty()
    }

    /// Whether the cursor keeps its elements apart from each other, so that
    /// writing to the current one leaves those still to come as they are.
    /// It is not taken to, unless an implementation says so.
    open spec fn detached(&self) -> bool {
        false
    }

    /// What holds of every element that the cursor lends out mutably,
    /// whatever was written to the elements lent out before it. Nothing,
    /// unless an implementation says otherwise.
    open spec fn lends(&self) -> spec_fn(&Self::Item) -> bool {
        |x: &Self::Item| true
    }

    /// Advances the cursor to the next element.
    fn advance(&mut self)
        requires
            (*old(self)).inv(),
        ensures
            (*final(self)).inv(),
            (*old(self)).detached() ==> (*final(self)).detached(),
            (*final(self)).lends() == (*old(self)).lends(),
            (*old(self)).exact() ==> (*final(self)).exact() && step_front(
                (*old(self)).pending(),
                (*final(self)).current(),
                (*final(self)).pending(),
            ),
    ;

    /// Returns the element that the cursor stands on.
    fn get(&self) -> (r: Option<&Self::Item>)
        requires
            self.inv(),
        ensures
            r == self.current(),
    ;

    /// Advances the cursor and returns the element it then stands on.
    fn next(&mut self) -> (r: Option<&Self::Item>)
        requires
            (*old(self)).inv(),
        ensures
            (*final(self)).inv(),
            (*old(self)).detached() ==> (*final(self)).detached(),
            (*final(self)).lends() == (*old(self)).lends(),
            (*old(self)).exact() ==> (*final(self)).exact() && step_front(
                (*old(self)).pending(),
                (*final(self)).current(),
                (*final(self)).pending(),
            ),
            r == (*final(self)).current(),
    {
        self.advance();
        (*self).get()
    }

    /// Returns a lower and, where there is one, an upper bound on the number
    /// of elements still to come.
    fn size_hint(&self) -> (r: (usize, Option<usize>))
        requires
            self.inv(),
        ensures
            self.exact() ==> r.0 <= self.pending().len(),
            self.exact() ==> (r.1 matches Some(hi) ==> self.pending().len() <= hi),
    {
        (0, None)
    }

    /// Tells whether `get` would return `None`.
    fn is_done(&self) -> (r: bool)
        requires
            self.inv(),
        ensures
            r == (self.current() is None),
    {
        self.get().is_none()
    }

    /// Determines whether all elements to come satisfy a predicate. The
    /// cursor stops on the first element that does not.
    fn all<F>(&mut self, f: F) -> (r: bool) where Self: Sized, F: FnMut(&Self::Item) -> bool
        requires
            (*old(self)).inv(),
            (*old(self)).exact(),
            callable_on(f, (*old(self)).pending()),
        ensures
            (*final(self)).inv(),
            (*final(self)).exact(),
            r ==> answers_all(f, (*old(self)).pending(), true) && drained(
                (*final(self)).current(),
                (*final(self)).pending(),
            ),
            !r ==> exists|k: int|
                answers_first_at(f, (*old(self)).pending(), k, false) && #[trigger] stands_at(
                    (*old(self)).pending(),
                    k,
                    (*final(self)).current(),
                    (*final(self)).pending(),
                ),
    {
        let mut test = f;
        let ghost s = (*self).pending();
        let ghost mut n: int = 0;
        proof {
            lemma_skip_step(s, 0);
        }
        loop
            invariant
                (*self).inv(),
                (*self).exact(),
                test == f,
                callable_on(f, s),
                s == (*old(self)).pending(),
                0 <= n <= s.len(),
                (*self).pending() == s.skip(n),
                forall|j: int| 0 <= j < n ==> call_ensures(f, (#[trigger] s[j],), true),
            decreases s.len() - n,
        {
            proof {
                lemma_skip_step(s, n);
            }
            match self.next() {
                Some(x) => {
                    if !test(x) {
                        assert(stands_at(s, n, (*self).current(), (*self).pending()));
                        return false;
                    }
                    proof {
                        n = n + 1;
                    }
                },
                None => {
                    return true;
                },
            }
        }
    }

    /// Determines whether any element to come satisfies a predicate. The
    /// cursor stops on the first element that does.
    fn any<F>(&mut self, f: F) -> (r: bool) where Self: Sized, F: FnMut(&Self::Item) -> bool
        requires
            (*old(self)).inv(),
            (*old(self)).exact(),
            callable_on(f, (*old(self)).pending()),
        ensures
            (*final(self)).inv(),
            (*final(self)).exact(),
            r ==> exists|k: int|
                answers_first_at(f, (*old(self)).pending(), k, true) && #[trigger] stands_at(
                    (*old(self)).pending(),
                    k,
                    (*final(self)).current(),
                    (*final(self)).pending(),
                ),
            !r ==> answers_all(f, (*old(self)).pending(), false) && drained(
                (*final(self)).current(),
                (*final(self)).pending(),
            ),
    {
        let mut test = f;
        let ghost s = (*self).pending();
        let ghost mut n: int = 0;
        proof {
            lemma_skip_step(s, 0);
        }
        loop
            invariant
                (*self).inv(),
                (*self).exact(),
                test == f,
                callable_on(f, s),
                s == (*old(self)).pending(),
                0 <= n <= s.len(),
                (*self).pending() == s.skip(n),
                forall|j: int| 0 <= j < n ==> call_ensures(f, (#[trigger] s[j],), false),
            decreases s.len() - n,
        {
            proof {
                lemma_skip_step(s, n);
            }
            match self.next() {
                Some(x) => {
                    if test(x) {
                        assert(stands_at(s, n, (*self).current(), (*self).pending()));
                        return true;
                    }
                    proof {
                        n = n + 1;
                    }
                },
                None => {
                    return false;
                },
            }
        }
    }

    /// Wraps the cursor in one that stands on nothing before its first
    /// step, and stays on nothing once a step has led there.
    fn fuse(self) -> (r: Fuse<Self>) where Self: Sized
        ensures
            r.inner() == self,
            r.fresh(),
            !r.spent(),
    {
        Fuse::new(self)
    }

    /// Borrows the cursor, so that adapters can be applied to it while it
    /// stays with its owner.
    fn by_ref(&mut self) -> (r: &mut Self) where Self: Sized
        ensures
            *r == *old(self),
            *final(self) == *final(r),
    {
        self
    }

    /// Puts `other` behind this cursor: the result runs over the elements
    /// of the one, then over those of the other.
    fn chain<I>(self, other: I) -> (r: Chain<Self, I>) where Self: Sized
        ensures
            r.first() == self,
            r.second() == other,
            r.on_first(),
            !r.first_spent(),
            !r.second_spent(),
    {
        Chain::new(self, other)
    }

    /// Turns the cursor into an iterator over clones of its elements.
    fn cloned(self) -> (r: Cloned<Self>) where Self: Sized, Self::Item: Clone
        ensures
            r.inner() == self,
    {
        Cloned::new(self)
    }

    /// Turns the cursor into an iterator over copies of its elements.
    fn copied(self) -> (r: Copied<Self>) where Self: Sized, Self::Item: Copy
        ensures
            r.inner() == self,
    {
        Copied::new(self)
    }

    /// Turns the cursor into an iterator over owned versions of its
    /// elements.
    fn owned(self) -> (r: Owned<Self>) where Self: Sized, Self::Item: ToOwned
        ensures
            r.inner() == self,
    {
        Owned::new(self)
    }

    /// Turns the cursor into an iterator over what `f` makes of its
    /// elements.
    fn map_deref<B, F>(self, f: F) -> (r: MapDeref<Self, F>) where
        Self: Sized,
        F: FnMut(&Self::Item) -> B,

        ensures
            r.inner() == self,
            r.mapper() == f,
    {
        MapDeref::new(self, f)
    }

    /// Turns the cursor into an iterator over what `f` makes of those of
    /// its elements of which it makes something.
    fn filter_map_deref<B, F>(self, f: F) -> (r: FilterMapDeref<Self, F>) where
        Self: Sized,
        F: FnMut(&Self::Item) -> Option<B>,

        ensures
            r.inner() == self,
            r.mapper() == f,
    {
        FilterMapDeref::new(self, f)
    }

    /// Consumes the cursor and returns the number of elements that were
    /// still to come.
    fn count(self) -> (r: usize) where Self: Sized
        requires
            self.inv(),
            self.exact(),
            self.pending().len() <= usize::MAX,
        ensures
            r == self.pending().len(),
    {
        let mut it = self;
        let mut n: usize = 0;
        proof {
            lemma_skip_step(self.pending(), 0);
        }
        loop
            invariant
                it.inv(),
                it.exact(),
                self.pending().len() <= usize::MAX,
                n <= self.pending().len(),
                it.pending() == self.pending().skip(n as int),
            decreases self.pending().len() - n,
        {
            proof {
                lemma_skip_step(self.pending(), n as int);
            }
            match it.next() {
                Some(_) => {
                    n = n + 1;
                },
                None => {
                    return n;
                },
            }
        }
    }

    /// Wraps the cursor in one that runs over those of its elements that
    /// `f` accepts.
    fn filter<F>(self, f: F) -> (r: Filter<Self, F>) where
        Self: Sized,
        F: FnMut(&Self::Item) -> bool,

        ensures
            r.inner() == self,
            r.predicate() == f,
    {
        Filter::new(self, f)
    }

    /// Wraps the cursor in one that runs over what `f` makes of those of
    /// its elements of which it makes something.
    fn filter_map<B, F>(self, f: F) -> (r: FilterMap<Self, B, F>) where
        Self: Sized,
        F: FnMut(&Self::Item) -> Option<B>,

        ensures
            r.inner() == self,
            r.mapper() == f,
            r.slot() is None,
    {
        FilterMap::new(self, f)
    }

    /// Wraps the cursor in one that runs over the elements of the cursors
    /// that `f` makes of its elements.
    fn flat_map<J, F>(self, f: F) -> (r: FlatMap<Self, J, F>) where
        Self: Sized,
        F: FnMut(&Self::Item) -> J,

        ensures
            r.inner() == self,
            r.maker() == f,
            r.sub() is None,
    {
        FlatMap::new(self, f)
    }

    /// Moves the cursor onto the first element to come that satisfies the
    /// predicate, and returns that element.
    fn find<F>(&mut self, f: F) -> (r: Option<&Self::Item>) where
        Self: Sized,
        F: FnMut(&Self::Item) -> bool,

        requires
            (*old(self)).inv(),
            (*old(self)).exact(),
            callable_on(f, (*old(self)).pending()),
        ensures
            (*final(self)).inv(),
            (*final(self)).exact(),
            r == (*final(self)).current(),
            r is Some ==> exists|k: int|
                answers_first_at(f, (*old(self)).pending(), k, true) && #[trigger] stands_at(
                    (*old(self)).pending(),
                    k,
                    (*final(self)).current(),
                    (*final(self)).pending(),
                ),
            r is None ==> answers_all(f, (*old(self)).pending(), false) && drained(
                (*final(self)).current(),
                (*final(self)).pending(),
            ),
    {
        let mut test = f;
        let ghost s = (*self).pending();
        let ghost mut n: int = 0;
        proof {
            lemma_skip_step(s, 0);
        }
        loop
            invariant_except_break
                (*self).pending() == s.skip(n),
                forall|j: int| 0 <= j < n ==> call_ensures(f, (#[trigger] s[j],), false),
            invariant
                (*self).inv(),
                (*self).exact(),
                test == f,
                callable_on(f, s),
                s == (*old(self)).pending(),
                0 <= n <= s.len(),
            ensures
                (*self).current() is Some ==> answers_first_at(f, s, n, true) && stands_at(
                    s,
                    n,
                    (*self).current(),
                    (*self).pending(),
                ),
                (*self).current() is None ==> answers_all(f, s, false) && drained(
                    (*self).current(),
                    (*self).pending(),
                ),
            decreases s.len() - n,
        {
            proof {
                lemma_skip_step(s, n);
            }
            self.advance();
            match (*self).get() {
                Some(x) => {
                    if test(x) {
                        break ;
                    }
                },
                None => {
                    break ;
                },
            }
            proof {
                n = n + 1;
            }
        }
        (*self).get()
    }

    /// Wraps the cursor in one that calls `f` on each element that a step
    /// leads to.
    fn inspect<F>(self, f: F) -> (r: Inspect<Self, F>) where
        F: FnMut(&Self::Item),
        Self: Sized,

        ensures
            r.inner() == self,
            r.inspector() == f,
    {
        Inspect::new(self, f)
    }

    /// Wraps the cursor in one that lends out the part of each element
    /// that `f` picks.
    fn map_ref<B: ?Sized, F>(self, f: F) -> (r: MapRef<Self, B, F>) where
        Self: Sized,
        F: Fn(&Self::Item) -> &B,

        ensures
            r.inner() == self,
            r.picker() == f,
    {
        MapRef::new(self, f)
    }

    /// Wraps the cursor in one that runs over what `f` makes of its
    /// elements.
    fn map<B, F>(self, f: F) -> (r: Mapped<Self, B, F>) where
        Self: Sized,
        F: FnMut(&Self::Item) -> B,

        ensures
            r.inner() == self,
            r.mapper() == f,
            r.slot() is None,
    {
        Mapped::new(self, f)
    }

    /// Steps over `n` elements and returns the one after them. Stops as soon
    /// as the cursor stands on nothing.
    fn nth(&mut self, n: usize) -> (r: Option<&Self::Item>)
        requires
            (*old(self)).inv(),
        ensures
            (*final(self)).inv(),
            (*old(self)).detached() ==> (*final(self)).detached(),
            (*final(self)).lends() == (*old(self)).lends(),
            r == (*final(self)).current(),
            (*old(self)).exact() ==> (*final(self)).exact(),
            (*old(self)).exact() && n < (*old(self)).pending().len() ==> stands_at(
                (*old(self)).pending(),
                n as int,
                (*final(self)).current(),
                (*final(self)).pending(),
            ),
            (*old(self)).exact() && n >= (*old(self)).pending().len() ==> drained(
                (*final(self)).current(),
                (*final(self)).pending(),
            ),
    {
        let ghost s = (*self).pending();
        let mut i: usize = 0;
        proof {
            lemma_skip_step(s, 0);
        }
        while i < n
            invariant
                (*self).inv(),
                (*old(self)).detached() ==> (*self).detached(),
                (*self).lends() == (*old(self)).lends(),
                i <= n,
                s == (*old(self)).pending(),
                (*old(self)).exact() ==> (*self).exact() && i <= s.len() && (*self).pending()
                    == s.skip(i as int),
            decreases n - i,
        {
            proof {
                if (*old(self)).exact() {
                    lemma_skip_step(s, i as int);
                }
            }
            self.advance();
            if (*self).is_done() {
                return None;
            }
            i = i + 1;
        }
        proof {
            if (*old(self)).exact() {
                lemma_skip_step(s, i as int);
            }
        }
        self.next()
    }

    /// Returns the index, among the elements to come, of the first that
    /// satisfies the predicate, and leaves the cursor on it.
    fn position<F>(&mut self, f: F) -> (r: Option<usize>) where
        Self: Sized,
        F: FnMut(&Self::Item) -> bool,

        requires
            (*old(self)).inv(),
            (*old(self)).exact(),
            (*old(self)).pending().len() <= usize::MAX,
            callable_on(f, (*old(self)).pending()),
        ensures
            (*final(self)).inv(),
            (*final(self)).exact(),
            r matches Some(k) ==> answers_first_at(f, (*old(self)).pending(), k as int, true)
                && stands_at(
                (*old(self)).pending(),
                k as int,
                (*final(self)).current(),
                (*final(self)).pending(),
            ),
            r is None ==> answers_all(f, (*old(self)).pending(), false) && drained(
                (*final(self)).current(),
                (*final(self)).pending(),
            ),
    {
        let mut test = f;
        let ghost s = (*self).pending();
        let mut n: usize = 0;
        proof {
            lemma_skip_step(s, 0);
        }
        loop
            invariant
                (*self).inv(),
                (*self).exact(),
                test == f,
                callable_on(f, s),
                s == (*old(self)).pending(),
                s.len() <= usize::MAX,
                0 <= n <= s.len(),
                (*self).pending() == s.skip(n as int),
                forall|j: int| 0 <= j < n ==> call_ensures(f, (#[trigger] s[j],), false),
            decreases s.len() - n,
        {
            proof {
                lemma_skip_step(s, n as int);
            }
            match self.next() {
                Some(x) => {
                    if test(x) {
                        return Some(n);
                    }
                    n = n + 1;
                },
                None => {
                    return None;
                },
            }
        }
    }

    /// Wraps the cursor in one that passes over `n` elements at its first
    /// step.
    fn skip(self, n: usize) -> (r: Skip<Self>) where Self: Sized
        ensures
            r.inner() == self,
            r.owed() == n,
    {
        Skip::new(self, n)
    }

    /// Wraps the cursor in one that passes over its elements up to the
    /// first that `f` rejects.
    fn skip_while<F>(self, f: F) -> (r: SkipWhile<Self, F>) where
        Self: Sized,
        F: FnMut(&Self::Item) -> bool,

        ensures
            r.inner() == self,
            r.predicate() == f,
            !r.started(),
    {
        SkipWhile::new(self, f)
    }

    /// Wraps the cursor in one that makes at most `n` steps.
    fn take(self, n: usize) -> (r: Take<Self>) where Self: Sized
        ensures
            r.inner() == self,
            r.allowance() == n,
            !r.stopped(),
    {
        Take::new(self, n)
    }

    /// Wraps the cursor in one that stops at the first element that `f`
    /// rejects.
    fn take_while<F>(self, f: F) -> (r: TakeWhile<Self, F>) where
        Self: Sized,
        F: FnMut(&Self::Item) -> bool,

        ensures
            r.inner() == self,
            r.predicate() == f,
            !r.stopped(),
    {
        TakeWhile::new(self, f)
    }

    /// Wraps the cursor in one that runs over its elements in the opposite
    /// order.
    fn rev(self) -> (r: Rev<Self>) where Self: Sized
        ensures
            r.inner() == self,
    {
        Rev::new(self)
    }

    /// Consumes the cursor, combining the elements still to come into one
    /// value, front to back.
    fn fold<Acc, Fold>(self, init: Acc, f: Fold) -> (r: Acc) where
        Self: Sized,
        Fold: FnMut(Acc, &Self::Item) -> Acc,

        requires
            self.inv(),
            self.exact(),
            fold_ready(f, self.pending(), init),
        ensures
            folds_to(f, self.pending(), init, r),
    {
        let mut it = self;
        let mut step = f;
        let mut acc = init;
        let ghost s = self.pending();
        let ghost mut n: int = 0;
        proof {
            lemma_skip_step(s, 0);
        }
        loop
            invariant
                it.inv(),
                it.exact(),
                step == f,
                fold_ready(f, s.skip(n), acc),
                s == self.pending(),
                0 <= n <= s.len(),
                it.pending() == s.skip(n),
                forall|out: Acc| folds_to(f, s.skip(n), acc, out) ==> folds_to(f, s, init, out),
            decreases s.len() - n,
        {
            proof {
                lemma_skip_step(s, n);
            }
            match it.next() {
                Some(x) => {
                    let ghost prev = acc;
                    acc = step(acc, x);
                    proof {
                        assert forall|out: Acc| folds_to(f, s.skip(n + 1), acc, out) implies folds_to(
                            f,
                            s,
                            init,
                            out,
                        ) by {
                            assert(call_ensures(f, (prev, s.skip(n).first()), acc));
                            assert(folds_to(f, s.skip(n), prev, out));
                        }
                        n = n + 1;
                    }
                },
                None => {
                    assert(folds_to(f, s.skip(n), acc, acc));
                    return acc;
                },
            }
        }
    }

    /// Consumes the cursor, calling a closure on each element still to come.
    fn for_each<F>(self, f: F) where Self: Sized, F: FnMut(&Self::Item)
        requires
            self.inv(),
            self.exact(),
            callable_on(f, self.pending()),
        ensures
            visits_all(f, self.pending()),
    {
        let mut it = self;
        let mut visit = f;
        let ghost s = self.pending();
        let ghost mut n: int = 0;
        proof {
            lemma_skip_step(s, 0);
        }
        loop
            invariant
                it.inv(),
                it.exact(),
                visit == f,
                callable_on(f, s),
                s == self.pending(),
                0 <= n <= s.len(),
                it.pending() == s.skip(n),
                forall|j: int| 0 <= j < n ==> call_ensures(f, (#[trigger] s[j],), ()),
            decreases s.len() - n,
        {
            proof {
                lemma_skip_step(s, n);
            }
            match it.next() {
                Some(x) => {
                    visit(x);
                    proof {
                        n = n + 1;
                    }
                },
                None => {
                    return ;
                },
            }
        }
    }
}

/// A cursor that can be driven from both ends of its sequence.
///
/// Both directions share the one current element: `get` lends out the
/// element reached by the last step, whichever end it came from.
pub trait DoubleEndedStreamingIterator: StreamingIterator {
    /// Moves the cursor onto the last of the elements still to come.
    fn advance_back(&mut self)
        requires
            (*old(self)).inv(),
        ensures
            (*final(self)).inv(),
            (*old(self)).detached() ==> (*final(self)).detached(),
            (*final(self)).lends() == (*old(self)).lends(),
            (*old(self)).exact() ==> (*final(self)).exact() && step_back(
                (*old(self)).pending(),
                (*final(self)).current(),
                (*final(self)).pending(),
            ),
    ;

    /// Moves the cursor onto the last of the elements still to come and
    /// returns it.
    fn next_back(&mut self) -> (r: Option<&Self::Item>)
        requires
            (*old(self)).inv(),
        ensures
            (*final(self)).inv(),
            (*old(self)).detached() ==> (*final(self)).detached(),
            (*final(self)).lends() == (*old(self)).lends(),
            (*old(self)).exact() ==> (*final(self)).exact() && step_back(
                (*old(self)).pending(),
                (*final(self)).current(),
                (*final(self)).pending(),
            ),
            r == (*final(self)).current(),
    {
        self.advance_back();
        (*self).get()
    }

    /// Consumes the cursor, combining the elements still to come into one
    /// value, back to front.
    fn rfold<Acc, Fold>(self, init: Acc, f: Fold) -> (r: Acc) where
        Self: Sized,
        Fold: FnMut(Acc, &Self::Item) -> Acc,

        requires
            self.inv(),
            self.exact(),
            fold_ready(f, self.pending().reverse(), init),
        ensures
            folds_to(f, self.pending().reverse(), init, r),
    {
        let mut it = self;
        let mut step = f;
        let mut acc = init;
        let ghost s = self.pending();
        let ghost rs = self.pending().reverse();
        let ghost mut n: int = 0;
        proof {
            lemma_take_step(s, 0);
            lemma_skip_step(rs, 0);
        }
        loop
            invariant
                it.inv(),
                it.exact(),
                step == f,
                fold_ready(f, rs.skip(n), acc),
                s == self.pending(),
                rs == s.reverse(),
                0 <= n <= s.len(),
                it.pending() == s.take(s.len() - n),
                forall|out: Acc| folds_to(f, rs.skip(n), acc, out) ==> folds_to(f, rs, init, out),
            decreases s.len() - n,
        {
            proof {
                lemma_take_step(s, n);
                lemma_skip_step(rs, n);
            }
            match it.next_back() {
                Some(x) => {
                    let ghost prev = acc;
                    acc = step(acc, x);
                    proof {
                        assert forall|out: Acc| folds_to(f, rs.skip(n + 1), acc, out) implies folds_to(
                            f,
                            rs,
                            init,
                            out,
                        ) by {
                            assert(call_ensures(f, (prev, rs.skip(n).first()), acc));
                            assert(folds_to(f, rs.skip(n), prev, out));
                        }
                        n = n + 1;
                    }
                },
                None => {
                    assert(folds_to(f, rs.skip(n), acc, acc));
                    return acc;
                },
            }
        }
    }
}

/// A cursor that lends out its current element mutably.
pub trait StreamingIteratorMut: StreamingIterator {
    /// Returns a mutable reference to the element that the cursor stands on.
    /// What the caller leaves there is the current element from then on.
    fn get_mut(&mut self) -> (r: Option<&mut Self::Item>)
        requires
            (*old(self)).inv(),
        ensures
            (*final(self)).inv(),
            (*old(self)).detached() ==> (*final(self)).detached(),
            (*final(self)).lends() == (*old(self)).lends(),
            match r {
                Some(x) => (*old(self)).current() == Some(&*x) && (*final(self)).current() == Some(
                    &*final(x),
                ) && (*old(self)).lends()(&*x),
                None => (*old(self)).current() is None && (*final(self)).current() is None,
            },
            (*old(self)).exact() ==> (*final(self)).exact() && (*final(self)).pending().len() == (
            *old(self)).pending().len(),
            (*old(self)).exact() && (*old(self)).detached() ==> (*final(self)).pending() == (*old(
                self,
            )).pending(),
    ;

    /// Advances the cursor and returns a mutable reference to the element it
    /// then stands on.
    fn next_mut(&mut self) -> (r: Option<&mut Self::Item>)
        requires
            (*old(self)).inv(),
        ensures
            (*final(self)).inv(),
            (*old(self)).detached() ==> (*final(self)).detached(),
            (*final(self)).lends() == (*old(self)).lends(),
            (*old(self)).exact() ==> (*final(self)).exact() && (*final(self)).pending().len()
                == after_first((*old(self)).pending()).len(),
            match r {
                Some(x) => (*final(self)).current() == Some(&*final(x)) && (*old(self)).lends()(&*x),
                None => (*final(self)).current() is None,
            },
            (*old(self)).exact() ==> (match r {
                Some(x) => (*old(self)).pending().len() > 0 && &*x == (*old(self)).pending().first(),
                None => (*old(self)).pending().len() == 0,
            }),
            (*old(self)).exact() && (*old(self)).detached() ==> (*final(self)).pending() == after_first(
                (*old(self)).pending(),
            ),
    {
        self.advance();
        (*self).get_mut()
    }

    /// Consumes the cursor, combining the elements still to come into one
    /// value, front to back, each lent out mutably.
    ///
    /// The closure must be one that may be called all along the run: over
    /// the elements to come of a cursor that is `detached()`, or over as
    /// many elements of which `lends()` holds, whichever they are. Of a
    /// cursor that is not `detached()` the elements lent out depend on what
    /// the closure writes: the result is then a fold of as many elements
    /// of which `lends()` holds as were to come.
    fn fold_mut<Acc, Fold>(self, init: Acc, f: Fold) -> (r: Acc) where
        Self: Sized,
        Fold: FnMut(Acc, &mut Self::Item) -> Acc,

        requires
            self.inv(),
            self.exact(),
            (self.detached() && fold_ready_mut(f, self.pending(), init)) || fold_ready_mut_on(
                f,
                self.lends(),
                self.pending().len(),
                init,
            ),
        ensures
            self.detached() ==> folds_mut_to(f, self.pending(), init, r),
            folds_mut_over(f, self.lends(), self.pending().len(), init, r),
    {
        let mut it = self;
        let mut step = f;
        let mut acc = init;
        let ghost s = self.pending();
        let ghost by_run = self.detached() && fold_ready_mut(f, s, init);
        let ghost mut n: int = 0;
        let ghost mut seen: Seq<&Self::Item> = Seq::empty();
        proof {
            lemma_skip_step(s, 0);
        }
        loop
            invariant
                it.inv(),
                it.exact(),
                it.lends() == self.lends(),
                step == f,
                s == self.pending(),
                0 <= n <= s.len(),
                it.pending().len() == s.len() - n,
                self.detached() ==> it.detached() && it.pending() == s.skip(n),
                by_run ==> self.detached() && fold_ready_mut(f, s.skip(n), acc),
                !by_run ==> fold_ready_mut_on(f, self.lends(), (s.len() - n) as nat, acc),
                seen.len() == n,
                all_of(seen, self.lends()),
                folds_mut_to(f, seen, init, acc),
                self.detached() ==> forall|out: Acc|
                    folds_mut_to(f, s.skip(n), acc, out) ==> folds_mut_to(f, s, init, out),
            decreases s.len() - n,
        {
            proof {
                lemma_skip_step(s, n);
            }
            match it.next_mut() {
                Some(x) => {
                    let ghost prev = acc;
                    let ghost lent = x;
                    proof {
                        if self.detached() {
                            assert(&*lent == s.skip(n).first());
                        }
                    }
                    acc = step(acc, x);
                    proof {
                        assert(lends_to(f, prev, &*lent, acc));
                        lemma_folds_mut_to_push(f, seen, &*lent, init, prev, acc);
                        let longer = seen.push(&*lent);
                        assert forall|j: int| 0 <= j < longer.len() implies self.lends()(#[trigger] longer[j]) by {
                            if j < seen.len() {
                                assert(longer[j] == seen[j]);
                            }
                        }
                        seen = longer;
                        if self.detached() {
                            assert forall|out: Acc|
                                folds_mut_to(f, s.skip(n + 1), acc, out) implies folds_mut_to(
                                f,
                                s,
                                init,
                                out,
                            ) by {
                                assert(folds_mut_to(f, s.skip(n), prev, out));
                            }
                        }
                        n = n + 1;
                    }
                },
                None => {
                    assert(self.detached() ==> folds_mut_to(f, s.skip(n), acc, acc));
                    return acc;
                },
            }
        }
    }

    /// Turns the cursor into an iterator over what `f` makes of its
    /// elements, each lent to it mutably.
    fn map_deref_mut<B, F>(self, f: F) -> (r: MapDerefMut<Self, F>) where
        Self: Sized,
        F: FnMut(&mut Self::Item) -> B,

        ensures
            r.inner() == self,
            r.mapper() == f,
    {
        MapDerefMut::new(self, f)
    }

    /// Wraps this cursor, whose elements are cursors, in one that runs over
    /// the elements of each of them in turn.
    fn flatten(self) -> (r: Flatten<Self>) where Self: Sized
        ensures
            r.outer() == self,
            r.fresh(),
    {
        Flatten::new(self)
    }

    /// Consumes the cursor, calling a closure on a mutable borrow of each
    /// element still to come.
    ///
    /// The closure must be one that may be called on each element to come
    /// of a cursor that is `detached()`, or on every element of which
    /// `lends()` holds.
    fn for_each_mut<F>(self, f: F) where Self: Sized, F: FnMut(&mut Self::Item)
        requires
            self.inv(),
            self.exact(),
            (self.detached() && callable_on_mut(f, self.pending())) || total_mut_on(f, self.lends()),
        ensures
            self.detached() ==> visits_all_mut(f, self.pending()),
            visits_mut_over(f, self.lends(), self.pending().len()),
    {
        let mut it = self;
        let mut visit = f;
        let ghost s = self.pending();
        let ghost by_run = self.detached() && callable_on_mut(f, s);
        let ghost mut n: int = 0;
        let ghost mut seen: Seq<&Self::Item> = Seq::empty();
        proof {
            lemma_skip_step(s, 0);
        }
        loop
            invariant
                it.inv(),
                it.exact(),
                it.lends() == self.lends(),
                visit == f,
                s == self.pending(),
                0 <= n <= s.len(),
                it.pending().len() == s.len() - n,
                self.detached() ==> it.detached() && it.pending() == s.skip(n),
                by_run ==> self.detached() && callable_on_mut(f, s),
                !by_run ==> total_mut_on(f, self.lends()),
                self.detached() ==> forall|j: int| 0 <= j < n ==> visits_mut(f, #[trigger] s[j]),
                seen.len() == n,
                all_of(seen, self.lends()),
                visits_all_mut(f, seen),
            decreases s.len() - n,
        {
            proof {
                lemma_skip_step(s, n);
            }
            match it.next_mut() {
                Some(x) => {
                    let ghost lent = x;
                    proof {
                        if self.detached() {
                            assert(&*lent == s[n]);
                        }
                    }
                    visit(x);
                    proof {
                        assert(visits_mut(f, &*lent));
                        let longer = seen.push(&*lent);
                        assert forall|j: int| 0 <= j < longer.len() implies visits_mut(
                            f,
                            #[trigger] longer[j],
                        ) && self.lends()(longer[j]) by {
                            if j < seen.len() {
                                assert(longer[j] == seen[j]);
                            }
                        }
                        seen = longer;
                        n = n + 1;
                    }
                },
                None => {
                    return ;
                },
            }
        }
    }
}

/// A cursor that can be driven from both ends and lends out its current
/// element mutably.
pub trait DoubleEndedStreamingIteratorMut: DoubleEndedStreamingIterator + StreamingIteratorMut {
    /// Moves the cursor onto the last of the elements still to come and
    /// returns a mutable reference to it.
    fn next_back_mut(&mut self) -> (r: Option<&mut Self::Item>)
        requires
            (*old(self)).inv(),
        ensures
            (*final(self)).inv(),
            (*old(self)).detached() ==> (*final(self)).detached(),
            (*final(self)).lends() == (*old(self)).lends(),
            (*old(self)).exact() ==> (*final(self)).exact() && (*final(self)).pending().len()
                == before_last((*old(self)).pending()).len(),
            match r {
                Some(x) => (*final(self)).current() == Some(&*final(x)) && (*old(self)).lends()(&*x),
                None => (*final(self)).current() is None,
            },
            (*old(self)).exact() ==> (match r {
                Some(x) => (*old(self)).pending().len() > 0 && &*x == (*old(self)).pending().last(),
                None => (*old(self)).pending().len() == 0,
            }),
            (*old(self)).exact() && (*old(self)).detached() ==> (*final(self)).pending() == before_last(
                (*old(self)).pending(),
            ),
    {
        self.advance_back();
        (*self).get_mut()
    }

    /// Consumes the cursor, combining the elements still to come into one
    /// value, back to front, each lent out mutably.
    ///
    /// The closure must be one that may be called all along the run, as for
    /// `fold_mut`.
    fn rfold_mut<Acc, Fold>(self, init: Acc, f: Fold) -> (r: Acc) where
        Self: Sized,
        Fold: FnMut(Acc, &mut Self::Item) -> Acc,

        requires
            self.inv(),
            self.exact(),
            (self.detached() && fold_ready_mut(f, self.pending().reverse(), init)) || fold_ready_mut_on(
                f,
                self.lends(),
                self.pending().len(),
                init,
            ),
        ensures
            self.detached() ==> folds_mut_to(f, self.pending().reverse(), init, r),
            folds_mut_over(f, self.lends(), self.pending().len(), init, r),
    {
        let mut it = self;
        let mut step = f;
        let mut acc = init;
        let ghost s = self.pending();
        let ghost rs = s.reverse();
        let ghost by_run = self.detached() && fold_ready_mut(f, rs, init);
        let ghost mut n: int = 0;
        let ghost mut seen: Seq<&Self::Item> = Seq::empty();
        proof {
            lemma_take_step(s, 0);
            lemma_skip_step(rs, 0);
        }
        loop
            invariant
                it.inv(),
                it.exact(),
                it.lends() == self.lends(),
                step == f,
                s == self.pending(),
                rs == s.reverse(),
                0 <= n <= s.len(),
                it.pending().len() == s.len() - n,
                self.detached() ==> it.detached() && it.pending() == s.take(s.len() - n),
                by_run ==> self.detached() && fold_ready_mut(f, rs.skip(n), acc),
                !by_run ==> fold_ready_mut_on(f, self.lends(), (s.len() - n) as nat, acc),
                seen.len() == n,
                all_of(seen, self.lends()),
                folds_mut_to(f, seen, init, acc),
                self.detached() ==> forall|out: Acc|
                    folds_mut_to(f, rs.skip(n), acc, out) ==> folds_mut_to(f, rs, init, out),
            decreases s.len() - n,
        {
            proof {
                lemma_take_step(s, n);
                lemma_skip_step(rs, n);
            }
            match it.next_back_mut() {
                Some(x) => {
                    let ghost prev = acc;
                    let ghost lent = x;
                    proof {
                        if self.detached() {
                            assert(&*lent == rs.skip(n).first());
                        }
                    }
                    acc = step(acc, x);
                    proof {
                        assert(lends_to(f, prev, &*lent, acc));
                        lemma_folds_mut_to_push(f, seen, &*lent, init, prev, acc);
                        let longer = seen.push(&*lent);
                        assert forall|j: int| 0 <= j < longer.len() implies self.lends()(#[trigger] longer[j]) by {
                            if j < seen.len() {
                                assert(longer[j] == seen[j]);
                            }
                        }
                        seen = longer;
                        if self.detached() {
                            assert forall|out: Acc|
                                folds_mut_to(f, rs.skip(n + 1), acc, out) implies folds_mut_to(
                                f,
                                rs,
                                init,
                                out,
                            ) by {
                                assert(folds_mut_to(f, rs.skip(n), prev, out));
                            }
                        }
                        n = n + 1;
                    }
                },
                None => {
                    assert(self.detached() ==> folds_mut_to(f, rs.skip(n), acc, acc));
                    return acc;
                },
            }
        }
    }
}

impl<'a, I: ?Sized + StreamingIterator> StreamingIterator for &'a mut I {
    type Item = I::Item;

    open spec fn inv(&self) -> bool {
        (**self).inv()
    }

    open spec fn exact(&self) -> bool {
        (**self).exact()
    }

    open spec fn current(&self) -> Option<&Self::Item> {
        (**self).current()
    }

    open spec fn pending(&self) -> Seq<&Self::Item> {
        (**self).pending()
    }

    open spec fn detached(&self) -> bool {
        (**self).detached()
    }

    open spec fn lends(&self) -> spec_fn(&Self::Item) -> bool {
        (**self).lends()
    }

    fn advance(&mut self) {
        proof {
            assert((*self).detached() == (**self).detached());
            assert((*self).lends() == (**self).lends());
        }
        (**self).advance()
    }

    fn is_done(&self) -> (r: bool) {
        (**self).is_done()
    }

    fn get(&self) -> (r: Option<&Self::Item>) {
        (**self).get()
    }

    fn size_hint(&self) -> (r: (usize, Option<usize>))
        ensures
            call_ensures(I::size_hint, (&*old(*self),), r),
    {
        (**self).size_hint()
    }

    fn next(&mut self) -> (r: Option<&Self::Item>) {
        proof {
            assert((*self).detached() == (**self).detached());
            assert((*self).lends() == (**self).lends());
        }
        (**self).next()
    }
}

impl<I: ?Sized + StreamingIterator> StreamingIterator for Box<I> {
    type Item = I::Item;

    open spec fn inv(&self) -> bool {
        (**self).inv()
    }

    open spec fn exact(&self) -> bool {
        (**self).exact()
    }

    open spec fn current(&self) -> Option<&Self::Item> {
        (**self).current()
    }

    open spec fn pending(&self) -> Seq<&Self::Item> {
        (**self).pending()
    }

    open spec fn detached(&self) -> bool {
        (**self).detached()
    }

    open spec fn lends(&self) -> spec_fn(&Self::Item) -> bool {
        (**self).lends()
    }

    fn advance(&mut self) {
        proof {
            assert((*self).detached() == (**self).detached());
            assert((*self).lends() == (**self).lends());
        }
        (**self).advance()
    }

    fn is_done(&self) -> (r: bool) {
        (**self).is_done()
    }

    fn get(&self) -> (r: Option<&Self::Item>) {
        (**self).get()
    }

    fn size_hint(&self) -> (r: (usize, Option<usize>))
        ensures
            call_ensures(I::size_hint, (&**self,), r),
    {
        (**self).size_hint()
    }

    fn next(&mut self) -> (r: Option<&Self::Item>) {
        proof {
            assert((*self).detached() == (**self).detached());
            assert((*self).lends() == (**self).lends());
        }
        (**self).next()
    }
}

impl<'a, I: ?Sized + StreamingIteratorMut> StreamingIteratorMut for &'a mut I {
    fn get_mut(&mut self) -> (r: Option<&mut Self::Item>) {
        (**self).get_mut()
    }

    fn next_mut(&mut self) -> (r: Option<&mut Self::Item>) {
        (**self).next_mut()
    }
}

impl<I: ?Sized + StreamingIteratorMut> StreamingIteratorMut for Box<I> {
    fn get_mut(&mut self) -> (r: Option<&mut Self::Item>) {
        (**self).get_mut()
    }

    fn next_mut(&mut self) -> (r: Option<&mut Self::Item>) {
        (**self).next_mut()
    }
}

/// Folds the elements that `it` has still to come into `acc`, front to back,
/// and leaves `it` at its end.
pub fn fold_rest<I, B, F>(it: &mut I, acc: B, f: &mut F) -> (r: B) where
    I: StreamingIterator,
    F: FnMut(B, &I::Item) -> B,

    requires
        (*old(it)).inv(),
        (*old(it)).exact(),
        fold_ready(*old(f), (*old(it)).pending(), acc),
    ensures
        (*final(it)).inv(),
        (*final(it)).exact(),
        (*final(it)).pending().len() == 0,
        *final(f) == *old(f),
        folds_to(*old(f), (*old(it)).pending(), acc, r),
{
    let mut cur = acc;
    let ghost s = (*it).pending();
    let ghost mut n: int = 0;
    proof {
        lemma_skip_step(s, 0);
    }
    loop
        invariant
            (*it).inv(),
            (*it).exact(),
            *f == *old(f),
            fold_ready(*f, s.skip(n), cur),
            s == (*old(it)).pending(),
            0 <= n <= s.len(),
            (*it).pending() == s.skip(n),
            forall|out: B| folds_to(*f, s.skip(n), cur, out) ==> folds_to(*f, s, acc, out),
        decreases s.len() - n,
    {
        proof {
            lemma_skip_step(s, n);
        }
        match it.next() {
            Some(x) => {
                let ghost prev = cur;
                cur = f(cur, x);
                proof {
                    assert forall|out: B| folds_to(*f, s.skip(n + 1), cur, out) implies folds_to(
                        *f,
                        s,
                        acc,
                        out,
                    ) by {
                        assert(call_ensures(*f, (prev, s.skip(n).first()), cur));
                        assert(folds_to(*f, s.skip(n), prev, out));
                    }
                    n = n + 1;
                }
            },
            None => {
                assert(folds_to(*f, s.skip(n), cur, cur));
                return cur;
            },
        }
    }
}

/// Folds the elements that `it` has still to come into `acc`, back to front,
/// and leaves `it` at its end.
pub fn rfold_rest<I, B, F>(it: &mut I, acc: B, f: &mut F) -> (r: B) where
    I: DoubleEndedStreamingIterator,
    F: FnMut(B, &I::Item) -> B,

    requires
        (*old(it)).inv(),
        (*old(it)).exact(),
        fold_ready(*old(f), (*old(it)).pending().reverse(), acc),
    ensures
        (*final(it)).inv(),
        (*final(it)).exact(),
        (*final(it)).pending().len() == 0,
        *final(f) == *old(f),
        folds_to(*old(f), (*old(it)).pending().reverse(), acc, r),
{
    let mut cur = acc;
    let ghost s = (*it).pending();
    let ghost rs = (*it).pending().reverse();
    let ghost mut n: int = 0;
    proof {
        lemma_take_step(s, 0);
        lemma_skip_step(rs, 0);
    }
    loop
        invariant
            (*it).inv(),
            (*it).exact(),
            *f == *old(f),
            fold_ready(*f, rs.skip(n), cur),
            s == (*old(it)).pending(),
            rs == s.reverse(),
            0 <= n <= s.len(),
            (*it).pending() == s.take(s.len() - n),
            forall|out: B| folds_to(*f, rs.skip(n), cur, out) ==> folds_to(*f, rs, acc, out),
        decreases s.len() - n,
    {
        proof {
            lemma_take_step(s, n);
            lemma_skip_step(rs, n);
        }
        match it.next_back() {
            Some(x) => {
                let ghost prev = cur;
                cur = f(cur, x);
                proof {
                    assert forall|out: B| folds_to(*f, rs.skip(n + 1), cur, out) implies folds_to(
                        *f,
                        rs,
                        acc,
                        out,
                    ) by {
                        assert(call_ensures(*f, (prev, rs.skip(n).first()), cur));
                        assert(folds_to(*f, rs.skip(n), prev, out));
                    }
                    n = n + 1;
                }
            },
            None => {
                assert(folds_to(*f, rs.skip(n), cur, cur));
                return cur;
            },
        }
    }
}

/// Folds the elements that `it` has still to come into `acc`, front to back,
/// each lent out mutably, and leaves `it` at its end.
pub fn fold_rest_mut<I, B, F>(it: &mut I, acc: B, f: &mut F) -> (r: B) where
    I: StreamingIteratorMut,
    F: FnMut(B, &mut I::Item) -> B,

    requires
        (*old(it)).inv(),
        (*old(it)).exact(),
        ((*old(it)).detached() && fold_ready_mut(*old(f), (*old(it)).pending(), acc))
            || fold_ready_mut_on(*old(f), (*old(it)).lends(), (*old(it)).pending().len(), acc),
    ensures
        (*final(it)).inv(),
        (*final(it)).exact(),
        (*final(it)).pending().len() == 0,
        (*final(it)).lends() == (*old(it)).lends(),
        *final(f) == *old(f),
        (*old(it)).detached() ==> folds_mut_to(*old(f), (*old(it)).pending(), acc, r),
        folds_mut_over(*old(f), (*old(it)).lends(), (*old(it)).pending().len(), acc, r),
{
    let mut cur = acc;
    let ghost s = (*it).pending();
    let ghost by_run = (*old(it)).detached() && fold_ready_mut(*f, s, acc);
    let ghost mut n: int = 0;
    let ghost mut seen: Seq<&I::Item> = Seq::empty();
    proof {
        lemma_skip_step(s, 0);
    }
    loop
        invariant
            (*it).inv(),
            (*it).exact(),
            (*it).lends() == (*old(it)).lends(),
            *f == *old(f),
            s == (*old(it)).pending(),
            0 <= n <= s.len(),
            (*it).pending().len() == s.len() - n,
            (*old(it)).detached() ==> (*it).detached() && (*it).pending() == s.skip(n),
            by_run ==> (*old(it)).detached() && fold_ready_mut(*f, s.skip(n), cur),
            !by_run ==> fold_ready_mut_on(*f, (*old(it)).lends(), (s.len() - n) as nat, cur),
            seen.len() == n,
            all_of(seen, (*old(it)).lends()),
            folds_mut_to(*f, seen, acc, cur),
            (*old(it)).detached() ==> forall|out: B|
                folds_mut_to(*f, s.skip(n), cur, out) ==> folds_mut_to(*f, s, acc, out),
        decreases s.len() - n,
    {
        proof {
            lemma_skip_step(s, n);
        }
        match it.next_mut() {
            Some(x) => {
                let ghost prev = cur;
                let ghost lent = x;
                proof {
                    if (*old(it)).detached() {
                        assert(&*lent == s.skip(n).first());
                    }
                }
                cur = f(cur, x);
                proof {
                    assert(lends_to(*f, prev, &*lent, cur));
                    lemma_folds_mut_to_push(*f, seen, &*lent, acc, prev, cur);
                    let longer = seen.push(&*lent);
                    assert forall|j: int| 0 <= j < longer.len() implies (*old(it)).lends()(#[trigger] longer[j]) by {
                        if j < seen.len() {
                            assert(longer[j] == seen[j]);
                        }
                    }
                    seen = longer;
                    if (*old(it)).detached() {
                        assert forall|out: B|
                            folds_mut_to(*f, s.skip(n + 1), cur, out) implies folds_mut_to(
                            *f,
                            s,
                            acc,
                            out,
                        ) by {
                            assert(folds_mut_to(*f, s.skip(n), prev, out));
                        }
                    }
                    n = n + 1;
                }
            },
            None => {
                assert((*old(it)).detached() ==> folds_mut_to(*f, s.skip(n), cur, cur));
                return cur;
            },
        }
    }
}

/// Folds the elements that `it` has still to come into `acc`, back to front,
/// each lent out mutably, and leaves `it` at its end.
pub fn rfold_rest_mut<I, B, F>(it: &mut I, acc: B, f: &mut F) -> (r: B) where
    I: DoubleEndedStreamingIteratorMut,
    F: FnMut(B, &mut I::Item) -> B,

    requires
        (*old(it)).inv(),
        (*old(it)).exact(),
        ((*old(it)).detached() && fold_ready_mut(*old(f), (*old(it)).pending().reverse(), acc))
            || fold_ready_mut_on(*old(f), (*old(it)).lends(), (*old(it)).pending().len(), acc),
    ensures
        (*final(it)).inv(),
        (*final(it)).exact(),
        (*final(it)).pending().len() == 0,
        (*final(it)).lends() == (*old(it)).lends(),
        *final(f) == *old(f),
        (*old(it)).detached() ==> folds_mut_to(*old(f), (*old(it)).pending().reverse(), acc, r),
        folds_mut_over(*old(f), (*old(it)).lends(), (*old(it)).pending().len(), acc, r),
{
    let mut cur = acc;
    let ghost s = (*it).pending();
    let ghost rs = s.reverse();
    let ghost by_run = (*old(it)).detached() && fold_ready_mut(*f, rs, acc);
    let ghost mut n: int = 0;
    let ghost mut seen: Seq<&I::Item> = Seq::empty();
    proof {
        lemma_take_step(s, 0);
        lemma_skip_step(rs, 0);
    }
    loop
        invariant
            (*it).inv(),
            (*it).exact(),
            (*it).lends() == (*old(it)).lends(),
            *f == *old(f),
            s == (*old(it)).pending(),
            rs == s.reverse(),
            0 <= n <= s.len(),
            (*it).pending().len() == s.len() - n,
            (*old(it)).detached() ==> (*it).detached() && (*it).pending() == s.take(s.len() - n),
            by_run ==> (*old(it)).detached() && fold_ready_mut(*f, rs.skip(n), cur),
            !by_run ==> fold_ready_mut_on(*f, (*old(it)).lends(), (s.len() - n) as nat, cur),
            seen.len() == n,
            all_of(seen, (*old(it)).lends()),
            folds_mut_to(*f, seen, acc, cur),
            (*old(it)).detached() ==> forall|out: B|
                folds_mut_to(*f, rs.skip(n), cur, out) ==> folds_mut_to(*f, rs, acc, out),
        decreases s.len() - n,
    {
        proof {
            lemma_take_step(s, n);
            lemma_skip_step(rs, n);
        }
        match it.next_back_mut() {
            Some(x) => {
                let ghost prev = cur;
                let ghost lent = x;
                proof {
                    if (*old(it)).detached() {
                        assert(&*lent == rs.skip(n).first());
                    }
                }
                cur = f(cur, x);
                proof {
                    assert(lends_to(*f, prev, &*lent, cur));
                    lemma_folds_mut_to_push(*f, seen, &*lent, acc, prev, cur);
                    let longer = seen.push(&*lent);
                    assert forall|j: int| 0 <= j < longer.len() implies (*old(it)).lends()(#[trigger] longer[j]) by {
                        if j < seen.len() {
                            assert(longer[j] == seen[j]);
                        }
                    }
                    seen = longer;
                    if (*old(it)).detached() {
                        assert forall|out: B|
                            folds_mut_to(*f, rs.skip(n + 1), cur, out) implies folds_mut_to(
                            *f,
                            rs,
                            acc,
                            out,
                        ) by {
                            assert(folds_mut_to(*f, rs.skip(n), prev, out));
                        }
                    }
                    n = n + 1;
                }
            },
            None => {
                assert((*old(it)).detached() ==> folds_mut_to(*f, rs.skip(n), cur, cur));
                return cur;
            },
        }
    }
}

} // verus!
