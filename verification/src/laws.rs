//! What holds of the cursors whatever they run over: the laws that the
//! contracts of the single operations add up to.

use vstd::prelude::*;
use crate::model::{
    accepted_by, accepts, all_of, fold_ready, fold_ready_mut_on, folds_mut_over, folds_mut_to,
    folds_to, lemma_reverse_concat, lemma_reverse_step, made_fold_ready, step_front, total,
    total_fold, total_fold_owned,
};
use crate::adapters::chain::Chain;
use crate::adapters::filter::Filter;
use crate::adapters::fuse::Fuse;
use crate::adapters::rev::Rev;
use crate::slice::{window_count, windows};
use crate::traits::{DoubleEndedStreamingIterator, StreamingIterator};

verus! {

/// The element that a cursor stands on after `k + 1` steps forward over
/// `s`.
pub open spec fn slot_after<T>(s: Seq<T>, k: int) -> Option<T> {
    if 0 <= k < s.len() {
        Some(s[k])
    } else {
        None
    }
}

/// The elements still to come after `k` steps forward over `s`.
pub open spec fn rest_after<T>(s: Seq<T>, k: int) -> Seq<T> {
    if 0 <= k < s.len() {
        s.skip(k)
    } else {
        Seq::empty()
    }
}

/// A cursor over `n` elements stands on an element after each of its first
/// `n` steps, on each element in turn, and on nothing after every later
/// step.
///
/// `slots[i]` is what the cursor stands on after step `i + 1`, and
/// `rests[i]` what it has to come after `i` steps, for any run of steps
/// each of which is a step in the sense of `advance`.
pub proof fn law_steps<T>(s: Seq<T>, slots: Seq<Option<T>>, rests: Seq<Seq<T>>)
    requires
        rests.len() == slots.len() + 1,
        rests[0] == s,
        forall|i: int|
            0 <= i < slots.len() ==> step_front(#[trigger] rests[i], slots[i], rests[i + 1]),
    ensures
        forall|i: int| 0 <= i < slots.len() ==> #[trigger] slots[i] == slot_after(s, i),
        forall|i: int| 0 <= i < rests.len() ==> #[trigger] rests[i] == rest_after(s, i),
        forall|i: int| 0 <= i < slots.len() ==> (#[trigger] slots[i] is Some <==> i < s.len()),
    decreases slots.len(),
{
    assert(rest_after(s, 0) =~= s);
    if slots.len() > 0 {
        let n = slots.len() - 1;
        law_steps(s, slots.take(n), rests.take(n + 1));
        assert(rests[n] == rests.take(n + 1)[n]);
        assert(rests[n] == rest_after(s, n));
        assert(step_front(rests[n], slots[n], rests[n + 1]));
        assert(rests[n + 1] =~= rest_after(s, n + 1));
        assert forall|i: int| 0 <= i < slots.len() implies #[trigger] slots[i] == slot_after(
            s,
            i,
        ) by {
            if i < n {
                assert(slots[i] == slots.take(n)[i]);
            }
        }
        assert forall|i: int| 0 <= i < rests.len() implies #[trigger] rests[i] == rest_after(
            s,
            i,
        ) by {
            if i <= n {
                assert(rests[i] == rests.take(n + 1)[i]);
            }
        }
    }
}

/// A fused cursor that stands on nothing after a step is spent, and a
/// spent cursor stands on nothing: so, with `Fuse::advance` keeping a spent
/// cursor spent, once a step has led to nothing every later one does.
pub proof fn law_fuse_spent<I: StreamingIterator>(it: Fuse<I>)
    requires
        it.spent(),
    ensures
        it.current() is None,
{
    it.lemma_unfold();
}

/// Reversing a cursor twice gives a cursor over the same elements in the
/// same order, standing where the cursor stands.
pub proof fn law_rev_rev<I: DoubleEndedStreamingIterator>(it: I, twice: Rev<Rev<I>>)
    requires
        twice.inner().inner() == it,
    ensures
        twice.pending() == it.pending(),
        twice.current() == it.current(),
        twice.inv() == it.inv(),
        twice.exact() == it.exact(),
{
    twice.lemma_unfold();
    twice.inner().lemma_unfold();
    lemma_reverse_step(it.pending());
}

/// A filter whose predicate answers `false` on no element to come runs
/// over the very elements of the cursor it wraps, and stands where that
/// one stands.
pub proof fn law_filter_true<I: StreamingIterator, F: FnMut(&I::Item) -> bool>(it: Filter<I, F>)
    requires
        forall|j: int|
            0 <= j < it.inner().pending().len() ==> accepts(
                it.predicate(),
                #[trigger] it.inner().pending()[j],
            ),
    ensures
        it.pending() == it.inner().pending(),
        it.current() == it.inner().current(),
{
    it.lemma_unfold();
    lemma_filter_keeps_all(it.inner().pending(), accepted_by(it.predicate()));
}

/// `filter` keeps all of a sequence whose elements all satisfy the
/// predicate.
pub proof fn lemma_filter_keeps_all<T>(s: Seq<T>, p: spec_fn(T) -> bool)
    requires
        forall|j: int| 0 <= j < s.len() ==> p(#[trigger] s[j]),
    ensures
        s.filter(p) == s,
    decreases s.len(),
{
    reveal(Seq::filter);
    if s.len() > 0 {
        lemma_filter_keeps_all(s.drop_last(), p);
        assert(s.drop_last().push(s.last()) =~= s);
    }
}

/// Folding with a closure that adds one to its accumulator for each
/// element counts the elements: `count` is this fold from zero.
pub proof fn law_count_fold<T: ?Sized, F: FnMut(usize, &T) -> usize>(
    f: F,
    s: Seq<&T>,
    init: usize,
    out: usize,
)
    requires
        forall|acc: usize, x: &T, r: usize| #[trigger]
            call_ensures(f, (acc, x), r) ==> r == acc + 1,
        folds_to(f, s, init, out),
    ensures
        out == init + s.len(),
    decreases s.len(),
{
    if s.len() > 0 {
        let mid = choose|mid: usize| #[trigger]
            call_ensures(f, (init, s.first()), mid) && folds_to(f, s.drop_first(), mid, out);
        law_count_fold(f, s.drop_first(), mid, out);
    }
}

/// A chain of two cursors has the elements of the first and then those of
/// the second to come: as many as the two together. Driven from the back,
/// by way of `rev`, it has those of the second, reversed, and then those
/// of the first, reversed.
pub proof fn law_chain<A, B>(chain: Chain<A, B>, back: Rev<Chain<A, B>>) where
    A: DoubleEndedStreamingIterator,
    B: DoubleEndedStreamingIterator<Item = A::Item>,

    requires
        back.inner() == chain,
    ensures
        chain.pending() == chain.first().pending() + chain.second().pending(),
        chain.pending().len() == chain.first().pending().len() + chain.second().pending().len(),
        back.pending() == chain.second().pending().reverse() + chain.first().pending().reverse(),
{
    chain.lemma_unfold();
    back.lemma_unfold();
    lemma_reverse_concat(chain.first().pending(), chain.second().pending());
}

/// A run of `len` elements has `len - size + 1` windows of `size`
/// elements, or none where it is shorter than that. Each window has `size`
/// elements, and all but the first of them are all but the last of the
/// next window.
pub proof fn law_windows<T>(buf: Seq<T>, size: int)
    requires
        size > 0,
    ensures
        windows(buf, 0, buf.len() as int, size).len() == window_count(buf.len() as int, size),
        buf.len() >= size ==> windows(buf, 0, buf.len() as int, size).len() == buf.len() - size
            + 1,
        buf.len() < size ==> windows(buf, 0, buf.len() as int, size).len() == 0,
        forall|k: int|
            0 <= k < windows(buf, 0, buf.len() as int, size).len() ==> (#[trigger] windows(
                buf,
                0,
                buf.len() as int,
                size,
            )[k]).len() == size,
        forall|k: int|
            0 <= k && k + 1 < windows(buf, 0, buf.len() as int, size).len() ==> (#[trigger] windows(
                buf,
                0,
                buf.len() as int,
                size,
            )[k]).skip(1) == windows(buf, 0, buf.len() as int, size)[k + 1].take(size - 1),
{
    let w = windows(buf, 0, buf.len() as int, size);
    assert forall|k: int| 0 <= k && k + 1 < w.len() implies (#[trigger] w[k]).skip(1) == w[k
        + 1].take(size - 1) by {
        assert(w[k].skip(1) =~= w[k + 1].take(size - 1));
    }
}

/// `f` may be called wherever `pre` holds, and returns what `g` says.
pub open spec fn described_by<'a, T: ?Sized, B, F: FnMut(B, &T) -> B>(
    f: F,
    pre: spec_fn(B, &'a T) -> bool,
    g: spec_fn(B, &'a T) -> B,
) -> bool {
    &&& forall|acc: B, x: &'a T| pre(acc, x) ==> #[trigger] call_requires(f, (acc, x))
    &&& forall|acc: B, x: &'a T, r: B| #[trigger] call_ensures(f, (acc, x), r) ==> r == g(acc, x)
}

/// What folding `s` with the function `g` from `init`, front to back, gives.
pub open spec fn run_of<'a, T: ?Sized, B>(g: spec_fn(B, &'a T) -> B, s: Seq<&'a T>, init: B) -> B
    decreases s.len(),
{
    if s.len() == 0 {
        init
    } else {
        run_of(g, s.drop_first(), g(init, s.first()))
    }
}

/// `pre` holds all along a fold of `s` with the function `g` from `init`.
pub open spec fn allowed_along<'a, T: ?Sized, B>(
    pre: spec_fn(B, &'a T) -> bool,
    g: spec_fn(B, &'a T) -> B,
    s: Seq<&'a T>,
    init: B,
) -> bool
    decreases s.len(),
{
    s.len() == 0 || (pre(init, s.first()) && allowed_along(
        pre,
        g,
        s.drop_first(),
        g(init, s.first()),
    ))
}

/// A closure that is described by `pre` and `g` may be called all along a
/// fold on which `pre` holds, and the fold gives what the fold with `g`
/// gives.
pub proof fn law_fold_described<'a, T: ?Sized, B, F: FnMut(B, &T) -> B>(
    f: F,
    pre: spec_fn(B, &'a T) -> bool,
    g: spec_fn(B, &'a T) -> B,
    s: Seq<&'a T>,
    init: B,
)
    requires
        described_by(f, pre, g),
        allowed_along(pre, g, s, init),
    ensures
        fold_ready(f, s, init),
        forall|out: B| folds_to(f, s, init, out) ==> out == run_of(g, s, init),
    decreases s.len(),
{
    if s.len() > 0 {
        law_fold_described(f, pre, g, s.drop_first(), g(init, s.first()));
        assert forall|out: B| folds_to(f, s, init, out) implies out == run_of(g, s, init) by {
            let mid = choose|mid: B| #[trigger]
                call_ensures(f, (init, s.first()), mid) && folds_to(f, s.drop_first(), mid, out);
            assert(mid == g(init, s.first()));
        }
    }
}

/// A closure that may be called on everything may be called all along any
/// fold.
pub proof fn law_fold_total<T: ?Sized, B, F: FnMut(B, &T) -> B>(f: F, s: Seq<&T>, init: B)
    requires
        total_fold(f),
    ensures
        fold_ready(f, s, init),
    decreases s.len(),
{
    if s.len() > 0 {
        assert forall|mid: B| #[trigger] call_ensures(f, (init, s.first()), mid) implies fold_ready(
            f,
            s.drop_first(),
            mid,
        ) by {
            law_fold_total(f, s.drop_first(), mid);
        }
    }
}

/// Closures that may be called on everything may be called all along any
/// such fold.
pub proof fn law_fold_made_total<
    T: ?Sized,
    U,
    B,
    M: FnMut(&T) -> Option<U>,
    F: FnMut(B, U) -> B,
>(make: M, f: F, s: Seq<&T>, init: B)
    requires
        total(make),
        total_fold_owned(f),
    ensures
        made_fold_ready(make, f, s, init),
    decreases s.len(),
{
    if s.len() > 0 {
        law_fold_made_total(make, f, s.drop_first(), init);
        assert forall|y: U, mid: B|
            call_ensures(make, (s.first(),), Some(y)) && #[trigger] call_ensures(
                f,
                (init, y),
                mid,
            ) implies made_fold_ready(make, f, s.drop_first(), mid) by {
            law_fold_made_total(make, f, s.drop_first(), mid);
        }
    }
}

/// `g` applied `n` times, first to `init`.
pub open spec fn applied<B>(g: spec_fn(B) -> B, n: nat, init: B) -> B
    decreases n,
{
    if n == 0 {
        init
    } else {
        applied(g, (n - 1) as nat, g(init))
    }
}

/// A fold with a closure that returns what `g` makes of its accumulator,
/// whatever the element lent to it, gives `g` applied once for each
/// element: the closure has been called as often as there were elements.
pub proof fn law_fold_mut_counts<'a, T: ?Sized, B, F: FnMut(B, &mut T) -> B>(
    f: F,
    g: spec_fn(B) -> B,
    p: spec_fn(&'a T) -> bool,
    n: nat,
    init: B,
    out: B,
)
    requires
        forall|acc: B, x: &mut T, r: B| #[trigger] call_ensures(f, (acc, x), r) ==> r == g(acc),
        folds_mut_over(f, p, n, init, out),
    ensures
        out == applied(g, n, init),
{
    let s = choose|s: Seq<&'a T>|
        s.len() == n && all_of(s, p) && #[trigger] folds_mut_to(f, s, init, out);
    lemma_fold_mut_applied(f, g, s, init, out);
}

/// A fold of `s` with a closure that returns what `g` makes of its
/// accumulator gives `g` applied once for each element of `s`.
pub proof fn lemma_fold_mut_applied<T: ?Sized, B, F: FnMut(B, &mut T) -> B>(
    f: F,
    g: spec_fn(B) -> B,
    s: Seq<&T>,
    init: B,
    out: B,
)
    requires
        forall|acc: B, x: &mut T, r: B| #[trigger] call_ensures(f, (acc, x), r) ==> r == g(acc),
        folds_mut_to(f, s, init, out),
    ensures
        out == applied(g, s.len(), init),
    decreases s.len(),
{
    if s.len() > 0 {
        let (x, mid) = choose|x: &mut T, mid: B| #[trigger]
            call_ensures(f, (init, x), mid) && &*x == s.first() && folds_mut_to(
                f,
                s.drop_first(),
                mid,
                out,
            );
        lemma_fold_mut_applied(f, g, s.drop_first(), mid, out);
    }
}

/// `pre` holds of `init` and of what `g` makes of it, `n` times over.
pub open spec fn allowed_for<B>(pre: spec_fn(B) -> bool, g: spec_fn(B) -> B, n: nat, init: B) -> bool
    decreases n,
{
    n == 0 || (pre(init) && allowed_for(pre, g, (n - 1) as nat, g(init)))
}

/// A closure that may be called on an accumulator of which `pre` holds and
/// an element of which `p` holds, and that returns what `g` makes of its
/// accumulator, may be called all along a fold of `n` elements of which `p`
/// holds, where `pre` holds all along.
pub proof fn law_fold_mut_ready<'a, T: ?Sized, B, F: FnMut(B, &mut T) -> B>(
    f: F,
    pre: spec_fn(B) -> bool,
    g: spec_fn(B) -> B,
    p: spec_fn(&'a T) -> bool,
    n: nat,
    init: B,
)
    requires
        forall|acc: B, x: &mut T| pre(acc) && p(&*x) ==> #[trigger] call_requires(f, (acc, x)),
        forall|acc: B, x: &mut T, r: B| #[trigger] call_ensures(f, (acc, x), r) ==> r == g(acc),
        allowed_for(pre, g, n, init),
    ensures
        fold_ready_mut_on(f, p, n, init),
    decreases n,
{
    if n > 0 {
        law_fold_mut_ready(f, pre, g, p, (n - 1) as nat, g(init));
    }
}

} // verus!
