//! The mathematical vocabulary of the library: what a cursor is taken to be
//! (a finite sequence of elements that are still to come), and what the
//! closures handed to adapters and algorithms are assumed to do.

use vstd::prelude::*;

verus! {

// Steps over a sequence.

/// The element a cursor reaches by one step forward over `s`.
pub open spec fn first_of<T>(s: Seq<T>) -> Option<T> {
    if s.len() > 0 {
        Some(s.first())
    } else {
        None
    }
}

/// The elements still to come after one step forward over `s`.
pub open spec fn after_first<T>(s: Seq<T>) -> Seq<T> {
    if s.len() > 0 {
        s.drop_first()
    } else {
        s
    }
}

/// The element a cursor reaches by one step backward over `s`.
pub open spec fn last_of<T>(s: Seq<T>) -> Option<T> {
    if s.len() > 0 {
        Some(s.last())
    } else {
        None
    }
}

/// The elements still to come after one step backward over `s`.
pub open spec fn before_last<T>(s: Seq<T>) -> Seq<T> {
    if s.len() > 0 {
        s.drop_last()
    } else {
        s
    }
}

/// The content of `o`, by reference.
pub open spec fn as_ref_of<'a, T>(o: Option<T>) -> Option<&'a T> {
    match o {
        Some(x) => Some(&x),
        None => None,
    }
}

/// One step forward over `before` leaves the cursor on `slot`, with `after`
/// still to come.
pub open spec fn step_front<T>(before: Seq<T>, slot: Option<T>, after: Seq<T>) -> bool {
    &&& slot == first_of(before)
    &&& after == after_first(before)
}

/// One step backward over `before` leaves the cursor on `slot`, with `after`
/// still to come.
pub open spec fn step_back<T>(before: Seq<T>, slot: Option<T>, after: Seq<T>) -> bool {
    &&& slot == last_of(before)
    &&& after == before_last(before)
}

/// The cursor stands on element `k` of `s`: `slot` is that element and
/// `after` is what follows it.
pub open spec fn stands_at<T>(s: Seq<T>, k: int, slot: Option<T>, after: Seq<T>) -> bool {
    &&& 0 <= k < s.len()
    &&& slot == Some(s[k])
    &&& after == s.skip(k + 1)
}

/// The cursor stands on element `k` of `s`, reached from the back: `slot`
/// is that element and `after` is what comes before it.
pub open spec fn stands_at_back<T>(s: Seq<T>, k: int, slot: Option<T>, after: Seq<T>) -> bool {
    &&& 0 <= k < s.len()
    &&& slot == Some(s[k])
    &&& after == s.take(k)
}

/// The cursor has run off the end: it stands on nothing and nothing is to
/// come.
pub open spec fn drained<T>(slot: Option<T>, after: Seq<T>) -> bool {
    &&& slot is None
    &&& after.len() == 0
}

/// One step forward over what is left after `n` steps leaves what is left
/// after `n + 1` steps.
pub proof fn lemma_skip_step<T>(s: Seq<T>, n: int)
    requires
        0 <= n <= s.len(),
    ensures
        n < s.len() ==> first_of(s.skip(n)) == Some(s[n]) && after_first(s.skip(n)) == s.skip(
            n + 1,
        ),
        n == s.len() ==> first_of(s.skip(n)) is None && after_first(s.skip(n)) == s.skip(n)
            && s.skip(n).len() == 0,
        s.skip(0) == s,
{
    if n < s.len() {
        assert(s.skip(n).drop_first() =~= s.skip(n + 1));
    }
    assert(s.skip(0) =~= s);
}

/// One step backward over what is left after `n` steps backward leaves what
/// is left after `n + 1` of them; the elements met on the way are those of
/// the reversed sequence.
pub proof fn lemma_take_step<T>(s: Seq<T>, n: int)
    requires
        0 <= n <= s.len(),
    ensures
        n < s.len() ==> last_of(s.take(s.len() - n)) == Some(s.reverse()[n]) && before_last(
            s.take(s.len() - n),
        ) == s.take(s.len() - (n + 1)),
        n == s.len() ==> last_of(s.take(s.len() - n)) is None && before_last(s.take(s.len() - n))
            == s.take(s.len() - n) && s.take(s.len() - n).len() == 0,
        s.take(s.len() as int) == s,
        s.reverse().len() == s.len(),
{
    if n < s.len() {
        assert(s.take(s.len() - n).drop_last() =~= s.take(s.len() - (n + 1)));
    }
    assert(s.take(s.len() as int) =~= s);
}

/// A step from one end of a sequence is a step from the other end of the
/// reversed sequence.
pub proof fn lemma_reverse_step<T>(s: Seq<T>)
    ensures
        first_of(s.reverse()) == last_of(s),
        after_first(s.reverse()) == before_last(s).reverse(),
        last_of(s.reverse()) == first_of(s),
        before_last(s.reverse()) == after_first(s).reverse(),
        s.reverse().reverse() == s,
        s.reverse().len() == s.len(),
{
    assert(after_first(s.reverse()) =~= before_last(s).reverse());
    assert(before_last(s.reverse()) =~= after_first(s).reverse());
    assert(s.reverse().reverse() =~= s);
}

/// Reversed, a sequence begins with its last element, and goes on with
/// the rest of it, reversed.
pub proof fn lemma_reverse_last<T>(s: Seq<T>)
    requires
        s.len() > 0,
    ensures
        s.reverse().len() == s.len(),
        s.reverse().first() == s.last(),
        s.reverse().drop_first() == s.drop_last().reverse(),
        s.drop_last().push(s.last()) == s,
{
    assert(s.reverse().drop_first() =~= s.drop_last().reverse());
    assert(s.drop_last().push(s.last()) =~= s);
}

/// Reversed, `a + b` is `b` reversed and then `a` reversed.
pub proof fn lemma_reverse_concat<T>(a: Seq<T>, b: Seq<T>)
    ensures
        (a + b).reverse() == b.reverse() + a.reverse(),
{
    assert((a + b).reverse() =~= b.reverse() + a.reverse());
}

// Parts of a sequence.

/// What is left of `s` after `n` elements have been passed over, or nothing
/// where it has no more than `n`.
pub open spec fn skipped<T>(s: Seq<T>, n: nat) -> Seq<T> {
    if n <= s.len() {
        s.skip(n as int)
    } else {
        Seq::empty()
    }
}

/// The first `n` elements of `s`, or all of it where it has no more than `n`.
pub open spec fn taken<T>(s: Seq<T>, n: nat) -> Seq<T> {
    if n <= s.len() {
        s.take(n as int)
    } else {
        s
    }
}

/// One step forward over the first `n` of `s` is one step forward over `s`,
/// of which the first `n - 1` are then left.
pub proof fn lemma_taken_step<T>(s: Seq<T>, n: nat)
    ensures
        n > 0 ==> first_of(taken(s, n)) == first_of(s) && after_first(taken(s, n)) == taken(
            after_first(s),
            (n - 1) as nat,
        ),
        n == 0 ==> taken(s, n).len() == 0,
        taken(s, n).len() <= n,
        taken(s, n).len() <= s.len(),
        n >= s.len() ==> taken(s, n) == s,
{
    if n > 0 {
        assert(after_first(taken(s, n)) =~= taken(after_first(s), (n - 1) as nat));
    }
}

/// The longest run of elements at the front of `s` that all satisfy `p`.
pub open spec fn prefix_while<T>(s: Seq<T>, p: spec_fn(T) -> bool) -> Seq<T>
    decreases s.len(),
{
    if s.len() == 0 || !p(s.first()) {
        Seq::empty()
    } else {
        seq![s.first()] + prefix_while(s.drop_first(), p)
    }
}

/// What follows the longest run of elements at the front of `s` that all
/// satisfy `p`.
pub open spec fn suffix_after<T>(s: Seq<T>, p: spec_fn(T) -> bool) -> Seq<T>
    decreases s.len(),
{
    if s.len() == 0 || !p(s.first()) {
        s
    } else {
        suffix_after(s.drop_first(), p)
    }
}

/// `prefix_while` and `suffix_after` part the sequence in two.
pub proof fn lemma_prefix_suffix<T>(s: Seq<T>, p: spec_fn(T) -> bool)
    ensures
        prefix_while(s, p) + suffix_after(s, p) == s,
        prefix_while(s, p).len() <= s.len(),
        suffix_after(s, p).len() <= s.len(),
        s.len() > 0 && p(s.first()) ==> first_of(prefix_while(s, p)) == Some(s.first())
            && after_first(prefix_while(s, p)) == prefix_while(s.drop_first(), p),
    decreases s.len(),
{
    if s.len() == 0 || !p(s.first()) {
        assert(prefix_while(s, p) + suffix_after(s, p) =~= s);
    } else {
        lemma_prefix_suffix(s.drop_first(), p);
        let a = prefix_while(s.drop_first(), p);
        let b = suffix_after(s.drop_first(), p);
        assert((seq![s.first()] + a) + b =~= seq![s.first()] + (a + b));
        assert(seq![s.first()] + s.drop_first() =~= s);
        assert((seq![s.first()] + a).drop_first() =~= a);
    }
}

/// What `suffix_after` leaves of a sequence, told from its first element.
pub proof fn lemma_suffix_after_front<T>(s: Seq<T>, p: spec_fn(T) -> bool)
    ensures
        s.len() == 0 ==> suffix_after(s, p).len() == 0,
        s.len() > 0 && p(s.first()) ==> suffix_after(s, p) == suffix_after(s.drop_first(), p),
        s.len() > 0 && !p(s.first()) ==> first_of(suffix_after(s, p)) == Some(s.first())
            && after_first(suffix_after(s, p)) == s.drop_first(),
{
}

/// What `filter` keeps of a sequence, told from its first element.
pub proof fn lemma_filter_front<T>(s: Seq<T>, p: spec_fn(T) -> bool)
    requires
        s.len() > 0,
    ensures
        p(s.first()) ==> s.filter(p) == seq![s.first()] + s.drop_first().filter(p),
        p(s.first()) ==> first_of(s.filter(p)) == Some(s.first()) && after_first(s.filter(p))
            == s.drop_first().filter(p),
        !p(s.first()) ==> s.filter(p) == s.drop_first().filter(p),
{
    assert(seq![s.first()] + s.drop_first() =~= s);
    s.drop_first().lemma_filter_prepend(s.first(), p);
    let rest = s.drop_first().filter(p);
    assert(Seq::<T>::empty() + rest =~= rest);
    assert((seq![s.first()] + rest).drop_first() =~= rest);
}

/// What `filter` keeps of a sequence, told from its last element.
pub proof fn lemma_filter_back<T>(s: Seq<T>, p: spec_fn(T) -> bool)
    requires
        s.len() > 0,
    ensures
        p(s.last()) ==> s.filter(p) == s.drop_last().filter(p).push(s.last()),
        p(s.last()) ==> last_of(s.filter(p)) == Some(s.last()) && before_last(s.filter(p))
            == s.drop_last().filter(p),
        !p(s.last()) ==> s.filter(p) == s.drop_last().filter(p),
{
    reveal(Seq::filter);
    let rest = s.drop_last().filter(p);
    assert(rest.push(s.last()).drop_last() =~= rest);
}

/// `filter` keeps nothing of an empty sequence.
pub proof fn lemma_filter_empty<T>(s: Seq<T>, p: spec_fn(T) -> bool)
    requires
        s.len() == 0,
    ensures
        s.filter(p).len() == 0,
{
    reveal(Seq::filter);
}

// What closures do.

/// `f` may be called on every element.
pub open spec fn total<T: ?Sized, R, F: FnMut(&T) -> R>(f: F) -> bool {
    forall|x: &T| #[trigger] call_requires(f, (x,))
}

/// `f` may be called on each element of `s`.
pub open spec fn callable_on<T: ?Sized, R, F: FnMut(&T) -> R>(f: F, s: Seq<&T>) -> bool {
    forall|j: int| 0 <= j < s.len() ==> call_requires(f, (#[trigger] s[j],))
}

/// `f` may be called on whatever a cursor comes to: on everything, or,
/// where `known` says that the cursor comes to the elements of `s` and to
/// no others, on each of these.
pub open spec fn callable_along<T: ?Sized, R, F: FnMut(&T) -> R>(
    f: F,
    known: bool,
    s: Seq<&T>,
) -> bool {
    total(f) || (known && callable_on(f, s))
}

/// `f` may be called on every mutable borrow of an element.
pub open spec fn total_mut<T: ?Sized, R, F: FnMut(&mut T) -> R>(f: F) -> bool {
    forall|x: &mut T| #[trigger] call_requires(f, (x,))
}

/// `f` gives at most one result for each element.
pub open spec fn functional<T: ?Sized, R, F: FnMut(&T) -> R>(f: F) -> bool {
    forall|x: &T, a: R, b: R|
        #![trigger call_ensures(f, (x,), a), call_ensures(f, (x,), b)]
        call_ensures(f, (x,), a) && call_ensures(f, (x,), b) ==> a == b
}

/// The result of `f` on `x`, for a `functional` closure.
pub open spec fn image<T: ?Sized, R, F: FnMut(&T) -> R>(f: F, x: &T) -> R {
    choose|r: R| call_ensures(f, (x,), r)
}

/// The result of a functional closure is what `image` says.
pub proof fn lemma_image<T: ?Sized, R, F: FnMut(&T) -> R>(f: F, x: &T, v: R)
    requires
        functional(f),
        call_ensures(f, (x,), v),
    ensures
        v == image(f, x),
{
}

/// Whether the predicate `f` keeps `x`: it cannot answer `false` on it. Of a
/// predicate that answers in one way only, this is the answer it gives.
pub open spec fn accepts<T: ?Sized, F: FnMut(&T) -> bool>(f: F, x: &T) -> bool {
    !call_ensures(f, (x,), false)
}

/// `accepts` as a function of the element alone.
pub open spec fn accepted_by<'a, T: ?Sized, F: FnMut(&T) -> bool>(f: F) -> spec_fn(&'a T) -> bool {
    |x: &'a T| accepts(f, x)
}

/// The answer of a functional predicate is what `accepts` says.
pub proof fn lemma_accepts<T: ?Sized, F: FnMut(&T) -> bool>(f: F, x: &T, v: bool)
    requires
        functional(f),
        call_ensures(f, (x,), v),
    ensures
        v == accepts(f, x),
        v == accepted_by(f)(x),
{
    if !accepts(f, x) {
        assert(call_ensures(f, (x,), false));
    }
}

/// Every element of `s` makes the predicate `f` answer `v`.
pub open spec fn answers_all<T: ?Sized, F: FnMut(&T) -> bool>(f: F, s: Seq<&T>, v: bool) -> bool {
    forall|j: int| 0 <= j < s.len() ==> call_ensures(f, (#[trigger] s[j],), v)
}

/// `k` is the first place in `s` where the predicate `f` answers `v`.
pub open spec fn answers_first_at<T: ?Sized, F: FnMut(&T) -> bool>(
    f: F,
    s: Seq<&T>,
    k: int,
    v: bool,
) -> bool {
    &&& 0 <= k < s.len()
    &&& call_ensures(f, (s[k],), v)
    &&& forall|j: int| 0 <= j < k ==> call_ensures(f, (#[trigger] s[j],), !v)
}

/// `k` is the last place in `s` where the predicate `f` answers `v`.
pub open spec fn answers_last_at<T: ?Sized, F: FnMut(&T) -> bool>(
    f: F,
    s: Seq<&T>,
    k: int,
    v: bool,
) -> bool {
    &&& 0 <= k < s.len()
    &&& call_ensures(f, (s[k],), v)
    &&& forall|j: int| k < j < s.len() ==> call_ensures(f, (#[trigger] s[j],), !v)
}

/// `f` makes nothing of any of the first `k` elements of `s`.
pub open spec fn answers_none_before<T: ?Sized, R, F: FnMut(&T) -> Option<R>>(
    f: F,
    s: Seq<&T>,
    k: int,
) -> bool {
    forall|j: int| 0 <= j < k && j < s.len() ==> call_ensures(f, (#[trigger] s[j],), None::<R>)
}

/// `f` makes nothing of any element of `s` after the first `k`.
pub open spec fn answers_none_from<T: ?Sized, R, F: FnMut(&T) -> Option<R>>(
    f: F,
    s: Seq<&T>,
    k: int,
) -> bool {
    forall|j: int| 0 <= j && k <= j < s.len() ==> call_ensures(f, (#[trigger] s[j],), None::<R>)
}

/// `f` has been called on every element of `s`, and has returned.
pub open spec fn visits_all<T: ?Sized, F: FnMut(&T)>(f: F, s: Seq<&T>) -> bool {
    forall|j: int| 0 <= j < s.len() ==> call_ensures(f, (#[trigger] s[j],), ())
}

/// `f` has been called on a mutable borrow of `e`, as it stands, and has
/// returned.
pub open spec fn visits_mut<T: ?Sized, F: FnMut(&mut T)>(f: F, e: &T) -> bool {
    exists|x: &mut T| #[trigger] call_ensures(f, (x,), ()) && &*x == e
}

/// `f` has been called on a mutable borrow of `e`, as it stands, and has
/// returned `y`.
pub open spec fn makes_of_mut<T: ?Sized, R, F: FnMut(&mut T) -> R>(f: F, e: &T, y: R) -> bool {
    exists|x: &mut T| #[trigger] call_ensures(f, (x,), y) && &*x == e
}

/// `f` has been called on a mutable borrow of every element of `s`, as it
/// stands in `s`, and has returned.
pub open spec fn visits_all_mut<T: ?Sized, F: FnMut(&mut T)>(f: F, s: Seq<&T>) -> bool {
    forall|j: int| 0 <= j < s.len() ==> visits_mut(f, #[trigger] s[j])
}

/// `f` may be called on every element.
pub open spec fn total_ref<T: ?Sized, R: ?Sized, F: Fn(&T) -> &R>(f: F) -> bool {
    forall|x: &T| #[trigger] call_requires(f, (x,))
}

/// `f` may be called on the element that a cursor stands on and on
/// whatever it comes to: on everything, or, where `known` says that the
/// cursor comes to the elements of `s` and to no others, on `slot` and on
/// each of these.
pub open spec fn callable_along_ref<T: ?Sized, R: ?Sized, F: Fn(&T) -> &R>(
    f: F,
    known: bool,
    slot: Option<&T>,
    s: Seq<&T>,
) -> bool {
    total_ref(f) || {
        &&& known
        &&& slot matches Some(x) ==> call_requires(f, (x,))
        &&& forall|j: int| 0 <= j < s.len() ==> call_requires(f, (#[trigger] s[j],))
    }
}

/// `f` gives at most one result for each element.
pub open spec fn functional_ref<T: ?Sized, R: ?Sized, F: Fn(&T) -> &R>(f: F) -> bool {
    forall|x: &T, a: &R, b: &R|
        #![trigger call_ensures(f, (x,), a), call_ensures(f, (x,), b)]
        call_ensures(f, (x,), a) && call_ensures(f, (x,), b) ==> a == b
}

/// The part of `x` that `f` picks, for a `functional_ref` closure.
pub open spec fn image_ref<'a, T: ?Sized, R: ?Sized, F: Fn(&T) -> &R>(f: F, x: &T) -> &'a R {
    choose|r: &R| call_ensures(f, (x,), r)
}

/// The part of `x` that `f` picks, where `f` may pick only one, is what
/// `image_ref` says.
pub proof fn lemma_image_ref<T: ?Sized, R: ?Sized, F: Fn(&T) -> &R>(f: F, x: &T, v: &R)
    requires
        functional_ref(f),
        call_ensures(f, (x,), v),
    ensures
        v == image_ref(f, x),
{
}

// Images of a sequence.

/// The images under `f` of the elements of `s`, in order.
pub open spec fn mapped<'a, T: ?Sized, R, F: FnMut(&T) -> R>(f: F, s: Seq<&T>) -> Seq<&'a R> {
    Seq::new(s.len(), |k: int| &image(f, s[k]))
}

/// The parts that `f` picks of the elements of `s`, in order.
pub open spec fn mapped_ref<'a, T: ?Sized, R: ?Sized, F: Fn(&T) -> &R>(f: F, s: Seq<&T>) -> Seq<
    &'a R,
> {
    Seq::new(s.len(), |k: int| image_ref(f, s[k]))
}

/// The images under `f` of those elements of `s` for which it gives one, in
/// order.
pub open spec fn filter_mapped<'a, T: ?Sized, R, F: FnMut(&T) -> Option<R>>(
    f: F,
    s: Seq<&T>,
) -> Seq<&'a R>
    decreases s.len(),
{
    if s.len() == 0 {
        Seq::empty()
    } else {
        match image(f, s.first()) {
            Some(y) => seq![&y] + filter_mapped(f, s.drop_first()),
            None => filter_mapped(f, s.drop_first()),
        }
    }
}

/// `filter_mapped` gives no more images than there are elements.
pub proof fn lemma_filter_mapped_len<T: ?Sized, R, F: FnMut(&T) -> Option<R>>(f: F, s: Seq<&T>)
    ensures
        filter_mapped::<T, R, F>(f, s).len() <= s.len(),
    decreases s.len(),
{
    if s.len() > 0 {
        lemma_filter_mapped_len(f, s.drop_first());
    }
}

/// What `filter_mapped` gives for a sequence, told from its first element.
pub proof fn lemma_filter_mapped_front<T: ?Sized, R, F: FnMut(&T) -> Option<R>>(f: F, s: Seq<&T>)
    requires
        s.len() > 0,
    ensures
        image(f, s.first()) matches Some(y) ==> first_of(filter_mapped(f, s)) == Some(&y)
            && after_first(filter_mapped(f, s)) == filter_mapped(f, s.drop_first()),
        image(f, s.first()) is None ==> filter_mapped(f, s) == filter_mapped(f, s.drop_first()),
{
    match image(f, s.first()) {
        Some(y) => {
            let rest = filter_mapped::<T, R, F>(f, s.drop_first());
            assert((seq![&y] + rest).drop_first() =~= rest);
        },
        None => {},
    }
}

/// What `filter_mapped` gives for a sequence, told from its last element.
pub proof fn lemma_filter_mapped_back<T: ?Sized, R, F: FnMut(&T) -> Option<R>>(f: F, s: Seq<&T>)
    requires
        s.len() > 0,
    ensures
        image(f, s.last()) matches Some(y) ==> filter_mapped(f, s) == filter_mapped(
            f,
            s.drop_last(),
        ).push(&y) && last_of(filter_mapped(f, s)) == Some(&y) && before_last(filter_mapped(f, s))
            == filter_mapped(f, s.drop_last()),
        image(f, s.last()) is None ==> filter_mapped(f, s) == filter_mapped(f, s.drop_last()),
    decreases s.len(),
{
    let all = filter_mapped::<T, R, F>(f, s);
    let init = filter_mapped::<T, R, F>(f, s.drop_last());
    if s.len() == 1 {
        assert(s.drop_first() =~= s.drop_last());
        assert(s.first() == s.last());
        match image(f, s.last()) {
            Some(y) => {
                assert(all =~= init.push(&y));
                assert(init.push(&y).drop_last() =~= init);
            },
            None => {},
        }
    } else {
        lemma_filter_mapped_back(f, s.drop_first());
        assert(s.drop_first().drop_last() =~= s.drop_last().drop_first());
        assert(s.drop_first().last() == s.last());
        assert(s.drop_last().first() == s.first());
        let mid = filter_mapped::<T, R, F>(f, s.drop_first().drop_last());
        match image(f, s.last()) {
            Some(y) => {
                match image(f, s.first()) {
                    Some(x) => {
                        assert(all =~= (seq![&x] + mid).push(&y));
                    },
                    None => {},
                }
                assert(all =~= init.push(&y));
                assert(init.push(&y).drop_last() =~= init);
            },
            None => {},
        }
    }
}

// Folds.

/// `f` may be called on every accumulator and element.
pub open spec fn total_fold<T: ?Sized, B, F: FnMut(B, &T) -> B>(f: F) -> bool {
    forall|acc: B, x: &T| #[trigger] call_requires(f, (acc, x))
}

/// `f` may be called all along a fold of `s` from `init`, front to back:
/// on `init` and the first element, and on whatever it returns there and
/// the next element, and so on.
pub open spec fn fold_ready<T: ?Sized, B, F: FnMut(B, &T) -> B>(f: F, s: Seq<&T>, init: B) -> bool
    decreases s.len(),
{
    s.len() == 0 || {
        &&& call_requires(f, (init, s.first()))
        &&& forall|mid: B| #[trigger]
            call_ensures(f, (init, s.first()), mid) ==> fold_ready(f, s.drop_first(), mid)
    }
}

/// A closure that may be called all along a fold of `a + b` may be called
/// all along a fold of `a`, and from wherever that ends all along a fold of
/// `b`.
pub proof fn lemma_fold_ready_split<T: ?Sized, B, F: FnMut(B, &T) -> B>(
    f: F,
    a: Seq<&T>,
    b: Seq<&T>,
    init: B,
)
    requires
        fold_ready(f, a + b, init),
    ensures
        fold_ready(f, a, init),
        forall|mid: B| folds_to(f, a, init, mid) ==> fold_ready(f, b, mid),
    decreases a.len(),
{
    if a.len() == 0 {
        assert(a + b =~= b);
    } else {
        assert((a + b).drop_first() =~= a.drop_first() + b);
        assert((a + b).first() == a.first());
        assert forall|m: B| #[trigger] call_ensures(f, (init, a.first()), m) implies fold_ready(
            f,
            a.drop_first(),
            m,
        ) && (forall|mid: B| folds_to(f, a.drop_first(), m, mid) ==> fold_ready(f, b, mid)) by {
            lemma_fold_ready_split(f, a.drop_first(), b, m);
        }
    }
}

/// Folding `s` with `f` from `init`, front to back, can give `out`.
pub open spec fn folds_to<T: ?Sized, B, F: FnMut(B, &T) -> B>(
    f: F,
    s: Seq<&T>,
    init: B,
    out: B,
) -> bool
    decreases s.len(),
{
    if s.len() == 0 {
        out == init
    } else {
        exists|mid: B| #[trigger]
            call_ensures(f, (init, s.first()), mid) && folds_to(f, s.drop_first(), mid, out)
    }
}

/// Folding `a` and then, from where that ended, `b`, is folding `a + b`.
pub proof fn lemma_folds_to_concat<T: ?Sized, B, F: FnMut(B, &T) -> B>(
    f: F,
    a: Seq<&T>,
    b: Seq<&T>,
    init: B,
    mid: B,
    out: B,
)
    requires
        folds_to(f, a, init, mid),
        folds_to(f, b, mid, out),
    ensures
        folds_to(f, a + b, init, out),
    decreases a.len(),
{
    if a.len() == 0 {
        assert(a + b =~= b);
    } else {
        let m = choose|m: B| #[trigger]
            call_ensures(f, (init, a.first()), m) && folds_to(f, a.drop_first(), m, mid);
        lemma_folds_to_concat(f, a.drop_first(), b, m, mid, out);
        assert((a + b).drop_first() =~= a.drop_first() + b);
        assert((a + b).first() == a.first());
    }
}

/// `p` holds of every element of `s`.
pub open spec fn all_of<T>(s: Seq<T>, p: spec_fn(T) -> bool) -> bool {
    forall|j: int| 0 <= j < s.len() ==> p(#[trigger] s[j])
}

/// Folding `s` with `f` from `init`, front to back, each element lent out
/// mutably as it stands in `s`, can give `out`.
pub open spec fn folds_mut_to<T: ?Sized, B, F: FnMut(B, &mut T) -> B>(
    f: F,
    s: Seq<&T>,
    init: B,
    out: B,
) -> bool
    decreases s.len(),
{
    if s.len() == 0 {
        out == init
    } else {
        exists|x: &mut T, mid: B| #[trigger]
            call_ensures(f, (init, x), mid) && &*x == s.first() && folds_mut_to(
                f,
                s.drop_first(),
                mid,
                out,
            )
    }
}

/// `f` may be called all along a fold of `s` from `init`, front to back,
/// each element lent out mutably as it stands in `s`.
pub open spec fn fold_ready_mut<T: ?Sized, B, F: FnMut(B, &mut T) -> B>(
    f: F,
    s: Seq<&T>,
    init: B,
) -> bool
    decreases s.len(),
{
    s.len() == 0 || {
        &&& forall|x: &mut T| &*x == s.first() ==> #[trigger] call_requires(f, (init, x))
        &&& forall|x: &mut T, mid: B|
            &*x == s.first() && #[trigger] call_ensures(f, (init, x), mid) ==> fold_ready_mut(
                f,
                s.drop_first(),
                mid,
            )
    }
}

/// A closure that may be called all along a fold of `a + b`, each element
/// lent out mutably, may be called all along such a fold of `a`, and from
/// wherever that ends all along such a fold of `b`.
pub proof fn lemma_fold_ready_mut_split<T: ?Sized, B, F: FnMut(B, &mut T) -> B>(
    f: F,
    a: Seq<&T>,
    b: Seq<&T>,
    init: B,
)
    requires
        fold_ready_mut(f, a + b, init),
    ensures
        fold_ready_mut(f, a, init),
        forall|mid: B| folds_mut_to(f, a, init, mid) ==> fold_ready_mut(f, b, mid),
    decreases a.len(),
{
    if a.len() == 0 {
        assert(a + b =~= b);
    } else {
        assert((a + b).drop_first() =~= a.drop_first() + b);
        assert((a + b).first() == a.first());
        assert forall|x: &mut T, m: B|
            &*x == a.first() && #[trigger] call_ensures(f, (init, x), m) implies fold_ready_mut(
            f,
            a.drop_first(),
            m,
        ) && (forall|mid: B| folds_mut_to(f, a.drop_first(), m, mid) ==> fold_ready_mut(f, b, mid)) by {
            lemma_fold_ready_mut_split(f, a.drop_first(), b, m);
        }
    }
}

/// `f` has been called on `acc` and a mutable borrow of `e`, as it stands,
/// and has returned `out`.
pub open spec fn lends_to<T: ?Sized, B, F: FnMut(B, &mut T) -> B>(f: F, acc: B, e: &T, out: B) -> bool {
    exists|x: &mut T| #[trigger] call_ensures(f, (acc, x), out) && &*x == e
}

/// Folding `s` and then lending out `e` is folding `s` with `e` behind it.
pub proof fn lemma_folds_mut_to_push<T: ?Sized, B, F: FnMut(B, &mut T) -> B>(
    f: F,
    s: Seq<&T>,
    e: &T,
    init: B,
    mid: B,
    out: B,
)
    requires
        folds_mut_to(f, s, init, mid),
        lends_to(f, mid, e, out),
    ensures
        folds_mut_to(f, s.push(e), init, out),
{
    let one = seq![e];
    assert(one.drop_first() =~= Seq::<&T>::empty());
    assert(folds_mut_to(f, one.drop_first(), out, out));
    assert(folds_mut_to(f, one, mid, out));
    lemma_folds_mut_to_concat(f, s, one, init, mid, out);
    assert(s + one =~= s.push(e));
}

/// Folding some `n` elements of which `p` holds with `f` from `init`, each
/// lent out mutably, can give `out`: `f` has been called `n` times, each
/// time on what it returned the time before.
pub open spec fn folds_mut_over<'a, T: ?Sized, B, F: FnMut(B, &mut T) -> B>(
    f: F,
    p: spec_fn(&'a T) -> bool,
    n: nat,
    init: B,
    out: B,
) -> bool {
    exists|s: Seq<&'a T>| s.len() == n && all_of(s, p) && #[trigger] folds_mut_to(f, s, init, out)
}

/// Folds over `n` and then over `m` elements are a fold over `n + m`.
pub proof fn lemma_folds_mut_over_concat<'a, T: ?Sized, B, F: FnMut(B, &mut T) -> B>(
    f: F,
    p: spec_fn(&'a T) -> bool,
    n: nat,
    m: nat,
    init: B,
    mid: B,
    out: B,
)
    requires
        folds_mut_over(f, p, n, init, mid),
        folds_mut_over(f, p, m, mid, out),
    ensures
        folds_mut_over(f, p, n + m, init, out),
{
    let a = choose|s: Seq<&'a T>|
        s.len() == n && all_of(s, p) && #[trigger] folds_mut_to(f, s, init, mid);
    let b = choose|s: Seq<&'a T>|
        s.len() == m && all_of(s, p) && #[trigger] folds_mut_to(f, s, mid, out);
    lemma_folds_mut_to_concat(f, a, b, init, mid, out);
    assert((a + b).len() == n + m);
    assert(all_of(a + b, p)) by {
        assert forall|j: int| 0 <= j < (a + b).len() implies p(#[trigger] (a + b)[j]) by {
            if j < a.len() {
                assert((a + b)[j] == a[j]);
            } else {
                assert((a + b)[j] == b[j - a.len()]);
            }
        }
    }
}

/// `f` may be called all along a fold of `n` elements of which `p` holds,
/// whichever they are, from `init`, each lent out mutably.
pub open spec fn fold_ready_mut_on<'a, T: ?Sized, B, F: FnMut(B, &mut T) -> B>(
    f: F,
    p: spec_fn(&'a T) -> bool,
    n: nat,
    init: B,
) -> bool
    decreases n,
{
    n == 0 || {
        &&& forall|x: &mut T| p(&*x) ==> #[trigger] call_requires(f, (init, x))
        &&& forall|x: &mut T, mid: B|
            p(&*x) && #[trigger] call_ensures(f, (init, x), mid) ==> fold_ready_mut_on(
                f,
                p,
                (n - 1) as nat,
                mid,
            )
    }
}

/// A closure that may be called all along a fold of as many elements as `s`
/// has, whichever they are, may be called all along a fold of `s`.
pub proof fn lemma_fold_ready_mut_on_seq<'a, T: ?Sized, B, F: FnMut(B, &mut T) -> B>(
    f: F,
    p: spec_fn(&'a T) -> bool,
    s: Seq<&'a T>,
    init: B,
)
    requires
        fold_ready_mut_on(f, p, s.len(), init),
        all_of(s, p),
    ensures
        fold_ready_mut(f, s, init),
    decreases s.len(),
{
    if s.len() > 0 {
        assert(p(s[0]));
        assert forall|x: &mut T, mid: B|
            &*x == s.first() && #[trigger] call_ensures(f, (init, x), mid) implies fold_ready_mut(
            f,
            s.drop_first(),
            mid,
        ) by {
            assert forall|j: int| 0 <= j < s.drop_first().len() implies p(
                #[trigger] s.drop_first()[j],
            ) by {
                assert(s.drop_first()[j] == s[j + 1]);
            }
            lemma_fold_ready_mut_on_seq(f, p, s.drop_first(), mid);
        }
    }
}

/// A closure that may be called all along a fold of `n + m` elements may be
/// called all along a fold of `n`, and from wherever that ends all along a
/// fold of `m`.
pub proof fn lemma_fold_ready_mut_on_split<'a, T: ?Sized, B, F: FnMut(B, &mut T) -> B>(
    f: F,
    p: spec_fn(&'a T) -> bool,
    n: nat,
    m: nat,
    init: B,
)
    requires
        fold_ready_mut_on(f, p, n + m, init),
    ensures
        fold_ready_mut_on(f, p, n, init),
        forall|mid: B| folds_mut_over(f, p, n, init, mid) ==> fold_ready_mut_on(f, p, m, mid),
    decreases n,
{
    if n == 0 {
        assert forall|mid: B| folds_mut_over(f, p, n, init, mid) implies fold_ready_mut_on(
            f,
            p,
            m,
            mid,
        ) by {
            let s = choose|s: Seq<&'a T>|
                s.len() == n && all_of(s, p) && #[trigger] folds_mut_to(f, s, init, mid);
            assert(mid == init);
        }
    } else {
        assert forall|x: &mut T, m1: B|
            p(&*x) && #[trigger] call_ensures(f, (init, x), m1) implies fold_ready_mut_on(
            f,
            p,
            (n - 1) as nat,
            m1,
        ) by {
            assert((n + m - 1) as nat == (n - 1) as nat + m);
            lemma_fold_ready_mut_on_split(f, p, (n - 1) as nat, m, m1);
        }
        assert forall|mid: B| folds_mut_over(f, p, n, init, mid) implies fold_ready_mut_on(
            f,
            p,
            m,
            mid,
        ) by {
            let s = choose|s: Seq<&'a T>|
                s.len() == n && all_of(s, p) && #[trigger] folds_mut_to(f, s, init, mid);
            let (x, m1) = choose|x: &mut T, m1: B| #[trigger]
                call_ensures(f, (init, x), m1) && &*x == s.first() && folds_mut_to(
                    f,
                    s.drop_first(),
                    m1,
                    mid,
                );
            assert(p(s[0]));
            assert forall|j: int| 0 <= j < s.drop_first().len() implies p(
                #[trigger] s.drop_first()[j],
            ) by {
                assert(s.drop_first()[j] == s[j + 1]);
            }
            assert(folds_mut_over(f, p, (n - 1) as nat, m1, mid));
            assert((n + m - 1) as nat == (n - 1) as nat + m);
            lemma_fold_ready_mut_on_split(f, p, (n - 1) as nat, m, m1);
        }
    }
}

/// A closure that may be called all along a fold of `n` elements of which
/// `p` holds may be called all along one of `n` elements of which `q`
/// holds, where `p` holds wherever `q` does.
pub proof fn lemma_fold_ready_mut_on_narrow<'a, T: ?Sized, B, F: FnMut(B, &mut T) -> B>(
    f: F,
    p: spec_fn(&'a T) -> bool,
    q: spec_fn(&'a T) -> bool,
    n: nat,
    init: B,
)
    requires
        fold_ready_mut_on(f, p, n, init),
        forall|x: &'a T| #[trigger] q(x) ==> p(x),
    ensures
        fold_ready_mut_on(f, q, n, init),
    decreases n,
{
    if n > 0 {
        assert forall|x: &mut T, mid: B|
            q(&*x) && #[trigger] call_ensures(f, (init, x), mid) implies fold_ready_mut_on(
            f,
            q,
            (n - 1) as nat,
            mid,
        ) by {
            lemma_fold_ready_mut_on_narrow(f, p, q, (n - 1) as nat, mid);
        }
    }
}

/// A fold over `n` elements of which `q` holds is one over `n` elements of
/// which `p` holds, where `p` holds wherever `q` does.
pub proof fn lemma_folds_mut_over_widen<'a, T: ?Sized, B, F: FnMut(B, &mut T) -> B>(
    f: F,
    p: spec_fn(&'a T) -> bool,
    q: spec_fn(&'a T) -> bool,
    n: nat,
    init: B,
    out: B,
)
    requires
        folds_mut_over(f, q, n, init, out),
        forall|x: &'a T| #[trigger] q(x) ==> p(x),
    ensures
        folds_mut_over(f, p, n, init, out),
{
    let s = choose|s: Seq<&'a T>|
        s.len() == n && all_of(s, q) && #[trigger] folds_mut_to(f, s, init, out);
    assert(all_of(s, p));
}

/// `f` may be called on a mutable borrow of each element of `s`, as it
/// stands in `s`.
pub open spec fn callable_on_mut<T: ?Sized, R, F: FnMut(&mut T) -> R>(f: F, s: Seq<&T>) -> bool {
    forall|j: int, x: &mut T|
        0 <= j < s.len() && &*x == #[trigger] s[j] ==> #[trigger] call_requires(f, (x,))
}

/// `f` may be called on a mutable borrow of whatever a cursor comes to: on
/// everything, or, where `known` says that the cursor comes to the elements
/// of `s`, as they stand there, and to no others, on each of these.
pub open spec fn callable_along_mut<T: ?Sized, R, F: FnMut(&mut T) -> R>(
    f: F,
    known: bool,
    s: Seq<&T>,
) -> bool {
    total_mut(f) || (known && callable_on_mut(f, s))
}

/// `f` may be called on a mutable borrow of every element of which `p`
/// holds.
pub open spec fn total_mut_on<'a, T: ?Sized, R, F: FnMut(&mut T) -> R>(
    f: F,
    p: spec_fn(&'a T) -> bool,
) -> bool {
    forall|x: &mut T| p(&*x) ==> #[trigger] call_requires(f, (x,))
}

/// `f` has been called on mutable borrows of some `n` elements of which `p`
/// holds, and has returned each time.
pub open spec fn visits_mut_over<'a, T: ?Sized, F: FnMut(&mut T)>(
    f: F,
    p: spec_fn(&'a T) -> bool,
    n: nat,
) -> bool {
    exists|s: Seq<&'a T>| s.len() == n && all_of(s, p) && #[trigger] visits_all_mut(f, s)
}

/// Folding `a` and then, from where that ended, `b`, each element lent out
/// mutably, is folding `a + b` in that way.
pub proof fn lemma_folds_mut_to_concat<T: ?Sized, B, F: FnMut(B, &mut T) -> B>(
    f: F,
    a: Seq<&T>,
    b: Seq<&T>,
    init: B,
    mid: B,
    out: B,
)
    requires
        folds_mut_to(f, a, init, mid),
        folds_mut_to(f, b, mid, out),
    ensures
        folds_mut_to(f, a + b, init, out),
    decreases a.len(),
{
    if a.len() == 0 {
        assert(a + b =~= b);
    } else {
        let (x, m) = choose|x: &mut T, m: B| #[trigger]
            call_ensures(f, (init, x), m) && &*x == a.first() && folds_mut_to(
                f,
                a.drop_first(),
                m,
                mid,
            );
        lemma_folds_mut_to_concat(f, a.drop_first(), b, m, mid, out);
        assert((a + b).drop_first() =~= a.drop_first() + b);
        assert((a + b).first() == a.first());
    }
}

/// `f` may be called on every accumulator and value.
pub open spec fn total_fold_owned<U, B, F: FnMut(B, U) -> B>(f: F) -> bool {
    forall|acc: B, y: U| #[trigger] call_requires(f, (acc, y))
}

/// `make` and `f` may be called all along a fold of what `make` makes of
/// the elements of `s`, from `init`, front to back.
pub open spec fn made_fold_ready<T: ?Sized, U, B, M: FnMut(&T) -> Option<U>, F: FnMut(B, U) -> B>(
    make: M,
    f: F,
    s: Seq<&T>,
    init: B,
) -> bool
    decreases s.len(),
{
    s.len() == 0 || {
        &&& call_requires(make, (s.first(),))
        &&& call_ensures(make, (s.first(),), None::<U>) ==> made_fold_ready(
            make,
            f,
            s.drop_first(),
            init,
        )
        &&& forall|y: U| #[trigger]
            call_ensures(make, (s.first(),), Some(y)) ==> call_requires(f, (init, y))
        &&& forall|y: U, mid: B|
            call_ensures(make, (s.first(),), Some(y)) && #[trigger] call_ensures(f, (init, y), mid)
                ==> made_fold_ready(make, f, s.drop_first(), mid)
    }
}

/// Folding with `f` from `init`, front to back, what `make` makes of those
/// elements of `s` of which it makes something, can give `out`.
pub open spec fn folds_made_to<T: ?Sized, U, B, M: FnMut(&T) -> Option<U>, F: FnMut(B, U) -> B>(
    make: M,
    f: F,
    s: Seq<&T>,
    init: B,
    out: B,
) -> bool
    decreases s.len(),
{
    if s.len() == 0 {
        out == init
    } else {
        ||| call_ensures(make, (s.first(),), None::<U>) && folds_made_to(
            make,
            f,
            s.drop_first(),
            init,
            out,
        )
        ||| exists|y: U, mid: B| #[trigger]
            call_ensures(f, (init, y), mid) && call_ensures(make, (s.first(),), Some(y))
                && folds_made_to(make, f, s.drop_first(), mid, out)
    }
}

/// Folding with `f` from `init`, front to back, those elements of `s` on
/// which `make` answers `true`, can give `out`.
pub open spec fn folds_kept_to<T: ?Sized, B, M: FnMut(&T) -> bool, F: FnMut(B, &T) -> B>(
    make: M,
    f: F,
    s: Seq<&T>,
    init: B,
    out: B,
) -> bool
    decreases s.len(),
{
    if s.len() == 0 {
        out == init
    } else {
        ||| call_ensures(make, (s.first(),), false) && folds_kept_to(
            make,
            f,
            s.drop_first(),
            init,
            out,
        )
        ||| exists|mid: B| #[trigger]
            call_ensures(f, (init, s.first()), mid) && call_ensures(make, (s.first(),), true)
                && folds_kept_to(make, f, s.drop_first(), mid, out)
    }
}

/// Folding with `f` from `init`, front to back, those elements of `s` on
/// which `make` answers `true`, each lent out mutably as it stands in `s`,
/// can give `out`.
pub open spec fn folds_kept_mut_to<T: ?Sized, B, M: FnMut(&T) -> bool, F: FnMut(B, &mut T) -> B>(
    make: M,
    f: F,
    s: Seq<&T>,
    init: B,
    out: B,
) -> bool
    decreases s.len(),
{
    if s.len() == 0 {
        out == init
    } else {
        ||| call_ensures(make, (s.first(),), false) && folds_kept_mut_to(
            make,
            f,
            s.drop_first(),
            init,
            out,
        )
        ||| exists|mid: B| #[trigger]
            lends_to(f, init, s.first(), mid) && call_ensures(make, (s.first(),), true)
                && folds_kept_mut_to(make, f, s.drop_first(), mid, out)
    }
}

/// Folding with `f` from `init`, front to back, what `make` makes of those
/// elements of `s` of which it makes something, each lent out, can give
/// `out`.
pub open spec fn folds_some_to<T: ?Sized, U, B, M: FnMut(&T) -> Option<U>, F: FnMut(B, &U) -> B>(
    make: M,
    f: F,
    s: Seq<&T>,
    init: B,
    out: B,
) -> bool
    decreases s.len(),
{
    if s.len() == 0 {
        out == init
    } else {
        ||| call_ensures(make, (s.first(),), None::<U>) && folds_some_to(
            make,
            f,
            s.drop_first(),
            init,
            out,
        )
        ||| exists|y: U, mid: B| #[trigger]
            call_ensures(f, (init, &y), mid) && call_ensures(make, (s.first(),), Some(y))
                && folds_some_to(make, f, s.drop_first(), mid, out)
    }
}

/// Folding with `f` from `init`, front to back, what `make` makes of those
/// elements of `s` of which it makes something, each lent out mutably, can
/// give `out`.
pub open spec fn folds_some_mut_to<T: ?Sized, U, B, M: FnMut(&T) -> Option<U>, F: FnMut(B, &mut U) -> B>(
    make: M,
    f: F,
    s: Seq<&T>,
    init: B,
    out: B,
) -> bool
    decreases s.len(),
{
    if s.len() == 0 {
        out == init
    } else {
        ||| call_ensures(make, (s.first(),), None::<U>) && folds_some_mut_to(
            make,
            f,
            s.drop_first(),
            init,
            out,
        )
        ||| exists|y: U, mid: B| #[trigger]
            lends_to(f, init, &y, mid) && call_ensures(make, (s.first(),), Some(y))
                && folds_some_mut_to(make, f, s.drop_first(), mid, out)
    }
}

/// Folding with `f` from `init`, front to back, what `make` makes of each
/// element of `s`, lent out, can give `out`.
pub open spec fn folds_each_to<T: ?Sized, U, B, M: FnMut(&T) -> U, F: FnMut(B, &U) -> B>(
    make: M,
    f: F,
    s: Seq<&T>,
    init: B,
    out: B,
) -> bool
    decreases s.len(),
{
    if s.len() == 0 {
        out == init
    } else {
        exists|y: U, mid: B| #[trigger]
            call_ensures(f, (init, &y), mid) && call_ensures(make, (s.first(),), y)
                && folds_each_to(make, f, s.drop_first(), mid, out)
    }
}

/// Folding with `f` from `init`, front to back, what `make` makes of each
/// element of `s`, lent out mutably, can give `out`.
pub open spec fn folds_each_mut_to<T: ?Sized, U, B, M: FnMut(&T) -> U, F: FnMut(B, &mut U) -> B>(
    make: M,
    f: F,
    s: Seq<&T>,
    init: B,
    out: B,
) -> bool
    decreases s.len(),
{
    if s.len() == 0 {
        out == init
    } else {
        exists|y: U, mid: B| #[trigger]
            lends_to(f, init, &y, mid) && call_ensures(make, (s.first(),), y)
                && folds_each_mut_to(make, f, s.drop_first(), mid, out)
    }
}

/// Folding with `f` from `init`, front to back, what is left of `s` from the
/// first element on which `keep` answers `false`, can give `out`.
pub open spec fn folds_skipping_to<T: ?Sized, B, P: FnMut(&T) -> bool, F: FnMut(B, &T) -> B>(
    keep: P,
    f: F,
    s: Seq<&T>,
    init: B,
    out: B,
) -> bool {
    ||| answers_all(keep, s, true) && out == init
    ||| exists|k: int| #[trigger]
        answers_first_at(keep, s, k, false) && folds_to(f, s.skip(k), init, out)
}

/// Folding with `f` from `init`, front to back, what is left of `s` from the
/// first element on which `keep` answers `false`, each lent out mutably as
/// it stands in `s`, can give `out`.
pub open spec fn folds_skipping_mut_to<
    T: ?Sized,
    B,
    P: FnMut(&T) -> bool,
    F: FnMut(B, &mut T) -> B,
>(keep: P, f: F, s: Seq<&T>, init: B, out: B) -> bool {
    ||| answers_all(keep, s, true) && out == init
    ||| exists|k: int| #[trigger]
        answers_first_at(keep, s, k, false) && folds_mut_to(f, s.skip(k), init, out)
}

/// Folding with `f` from `init`, front to back, the elements of `s` up to
/// the first on which `keep` answers `false`, can give `out`.
pub open spec fn folds_taking_to<T: ?Sized, B, P: FnMut(&T) -> bool, F: FnMut(B, &T) -> B>(
    keep: P,
    f: F,
    s: Seq<&T>,
    init: B,
    out: B,
) -> bool
    decreases s.len(),
{
    if s.len() == 0 {
        out == init
    } else {
        ||| call_ensures(keep, (s.first(),), false) && out == init
        ||| exists|mid: B| #[trigger]
            call_ensures(f, (init, s.first()), mid) && call_ensures(keep, (s.first(),), true)
                && folds_taking_to(keep, f, s.drop_first(), mid, out)
    }
}

} // verus!
