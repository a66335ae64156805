//! Cursors that stand at the head of a chain of adapters: over a vector of
//! values or of references, over nothing, over one value, over one value
//! repeated, and over what a closure produces.

use vstd::prelude::*;
use std::marker::PhantomData;
use crate::model::{after_first, as_ref_of, before_last};
use crate::traits::{
    DoubleEndedStreamingIterator, DoubleEndedStreamingIteratorMut, StreamingIterator,
    StreamingIteratorMut,
};

verus! {

/// The elements of `s`, each by reference.
pub open spec fn refs<'a, T>(s: Seq<T>) -> Seq<&'a T> {
    Seq::new(s.len(), |k: int| &s[k])
}

/// What the mutable references in `s` point to, each by reference.
pub open spec fn reborrowed<'a, T: ?Sized>(s: Seq<&mut T>) -> Seq<&'a T> {
    Seq::new(s.len(), |k: int| &*s[k])
}

/// Turns a vector of values into a cursor over them.
pub fn convert<T>(items: Vec<T>) -> (r: Convert<T>)
    ensures
        r.inv(),
        r.exact(),
        r.current() is None,
        r.pending() == refs(items@),
{
    let back = items.len();
    let r = Convert { items, front: 0, back, at: None };
    assert(r.pending() =~= refs(items@));
    r
}

/// Turns a vector of references into a cursor over what they refer to.
pub fn convert_ref<'a, T: ?Sized>(items: Vec<&'a T>) -> (r: ConvertRef<'a, T>)
    ensures
        r.inv(),
        r.exact(),
        r.current() is None,
        r.pending() == items@,
{
    let back = items.len();
    let r = ConvertRef { items, front: 0, back, at: None };
    assert(r.pending() =~= items@);
    r
}

/// Turns a vector of mutable references into a cursor over what they refer
/// to. What is written through the cursor is written to the referents.
pub fn convert_mut<'a, T: ?Sized>(items: Vec<&'a mut T>) -> (r: ConvertMut<'a, T>)
    ensures
        r.inv(),
        r.exact(),
        r.current() is None,
        r.pending() == reborrowed(items@),
{
    let back = items.len();
    let r = ConvertMut { items, front: 0, back, at: None };
    assert(r.pending() =~= reborrowed(items@));
    r
}

/// Creates a cursor over no elements.
pub fn empty<T>() -> (r: Empty<T>)
    ensures
        r.inv(),
        r.exact(),
        r.current() is None,
        r.pending().len() == 0,
{
    Empty { phantom: PhantomData }
}

/// Creates a cursor whose elements are what `gen` returns, call after call,
/// until it returns `None`.
pub fn from_fn<T, F: FnMut() -> Option<T>>(gen: F) -> (r: FromFn<T, F>)
    ensures
        r.inv() == call_requires(gen, ()),
        !r.exact(),
        r.generator() == gen,
        r.slot() is None,
        r.current() is None,
{
    FromFn { gen, item: None }
}

/// Creates a cursor over exactly one element.
pub fn once<T>(item: T) -> (r: Once<T>)
    ensures
        r.inv(),
        r.exact(),
        r.fresh(),
        r.current() == Some(&item),
        r.pending() == seq![&item],
{
    let r = Once { first: true, item: Some(item) };
    assert(r.pending() =~= seq![&item]);
    r
}

/// Creates a cursor over exactly one element, which `gen` computes when the
/// cursor is first advanced.
pub fn once_with<T, F: FnOnce() -> T>(gen: F) -> (r: OnceWith<T, F>)
    ensures
        r.inv() == call_requires(gen, ()),
        r.exact() == single_valued(gen),
        r.generator() == Some(gen),
        r.slot() is None,
        r.current() is None,
        r.pending() == seq![&value_of(gen)],
{
    let r = OnceWith { gen: Some(gen), item: None };
    assert(r.pending() =~= seq![&value_of(gen)]);
    r
}

/// Creates a cursor that stands on `item` for ever.
pub fn repeat<T>(item: T) -> (r: Repeat<T>)
    ensures
        r.inv(),
        !r.exact(),
        r.element() == item,
        r.current() == Some(&item),
{
    Repeat { item }
}

/// Creates a cursor that stands, after each step, on what a new call of
/// `gen` returned.
pub fn repeat_with<T, F: FnMut() -> T>(gen: F) -> (r: RepeatWith<T, F>)
    ensures
        r.inv() == call_requires(gen, ()),
        !r.exact(),
        r.generator() == gen,
        r.slot() is None,
        r.current() is None,
{
    RepeatWith { gen, item: None }
}

/// Creates a cursor that starts on `first` and steps from each element to
/// what `succ` makes of it, until `succ` returns `None`.
pub fn successors<T, F: FnMut(T) -> Option<T>>(first: Option<T>, succ: F) -> (r: Successors<T, F>)
    ensures
        r.inv() == total_step(succ),
        !r.exact(),
        r.fresh(),
        r.successor() == succ,
        r.slot() == first,
        r.current() == as_ref_of(first),
{
    Successors { first: true, item: first, succ }
}

/// Collections that can hand over what they hold as a vector.
pub trait IntoElements<E>: Sized {
    /// What the collection holds, in order.
    open spec fn elements(&self) -> Seq<E> {
        arbitrary()
    }

    /// Hands over what the collection holds, in order.
    fn into_elements(self) -> (r: Vec<E>)
        ensures
            r@ == self.elements(),
    ;
}

impl<E> IntoElements<E> for Vec<E> {
    open spec fn elements(&self) -> Seq<E> {
        self@
    }

    fn into_elements(self) -> (r: Vec<E>) {
        self
    }
}

/// Turning a collection into a cursor, written as a method of the
/// collection.
pub trait IntoStreamingIterator: Sized {
    /// Turns the collection into a cursor over what it holds. This is
    /// `convert` of what `into_elements` hands over.
    fn into_streaming_iter<E>(self) -> (r: Convert<E>) where Self: IntoElements<E>
        ensures
            r.inv(),
            r.exact(),
            r.current() is None,
            r.pending() == refs(self.elements()),
    {
        convert(self.into_elements())
    }

    /// Turns the collection of references into a cursor over what they
    /// refer to. This is `convert_ref` of what `into_elements` hands over.
    fn into_streaming_iter_ref<'a, T: ?Sized>(self) -> (r: ConvertRef<'a, T>) where
        Self: IntoElements<&'a T>,

        ensures
            r.inv(),
            r.exact(),
            r.current() is None,
            r.pending() == self.elements(),
    {
        convert_ref(self.into_elements())
    }

    /// Turns the collection of mutable references into a cursor over what
    /// they refer to. This is `convert_mut` of what `into_elements` hands
    /// over.
    fn into_streaming_iter_mut<'a, T: ?Sized>(self) -> (r: ConvertMut<'a, T>) where
        Self: IntoElements<&'a mut T>,

        ensures
            r.inv(),
            r.exact(),
            r.current() is None,
            r.pending() == reborrowed(self.elements()),
    {
        convert_mut(self.into_elements())
    }
}

impl<C> IntoStreamingIterator for C {

}

/// `succ` may be called on every value.
pub open spec fn total_step<T, F: FnMut(T) -> Option<T>>(succ: F) -> bool {
    forall|x: T| #[trigger] call_requires(succ, (x,))
}

/// `gen` gives at most one value.
pub open spec fn single_valued<T, F: FnOnce() -> T>(gen: F) -> bool {
    forall|a: T, b: T|
        #![trigger call_ensures(gen, (), a), call_ensures(gen, (), b)]
        call_ensures(gen, (), a) && call_ensures(gen, (), b) ==> a == b
}

/// The value that a `single_valued` closure gives.
pub open spec fn value_of<T, F: FnOnce() -> T>(gen: F) -> T {
    choose|x: T| call_ensures(gen, (), x)
}

/// A cursor over the values of a vector.
///
/// The values stay where they are: the cursor keeps the range that is
/// still to come and the place it stands on.
#[derive(Clone, Debug)]
pub struct Convert<T> {
    items: Vec<T>,
    front: usize,
    back: usize,
    at: Option<usize>,
}

impl<T> StreamingIterator for Convert<T> {
    type Item = T;

    closed spec fn inv(&self) -> bool {
        &&& self.front <= self.back <= self.items@.len()
        &&& self.at matches Some(i) ==> i < self.items@.len() && (i < self.front || i >= self.back)
    }

    closed spec fn exact(&self) -> bool {
        true
    }

    closed spec fn current(&self) -> Option<&T> {
        match self.at {
            Some(i) => Some(&self.items@[i as int]),
            None => None,
        }
    }

    closed spec fn pending(&self) -> Seq<&T> {
        Seq::new((self.back - self.front) as nat, |k: int| &self.items@[self.front + k])
    }

    open spec fn detached(&self) -> bool {
        true
    }

    fn advance(&mut self) {
        if self.front < self.back {
            self.at = Some(self.front);
            self.front = self.front + 1;
        } else {
            self.at = None;
        }
        assert((*self).pending() =~= after_first((*old(self)).pending()));
        assert((*self).lends() == (*old(self)).lends());
    }

    fn get(&self) -> (r: Option<&T>) {
        match self.at {
            Some(i) => Some(&self.items[i]),
            None => None,
        }
    }

    fn size_hint(&self) -> (r: (usize, Option<usize>))
        ensures
            r.0 == self.pending().len(),
            r.1 == Some(r.0),
    {
        let n = self.back - self.front;
        (n, Some(n))
    }

    fn count(self) -> (r: usize) {
        self.back - self.front
    }
}

impl<T> DoubleEndedStreamingIterator for Convert<T> {
    fn advance_back(&mut self) {
        if self.front < self.back {
            self.back = self.back - 1;
            self.at = Some(self.back);
        } else {
            self.at = None;
        }
        assert((*self).pending() =~= before_last((*old(self)).pending()));
    }
}

impl<T> StreamingIteratorMut for Convert<T> {
    fn get_mut(&mut self) -> (r: Option<&mut T>) {
        match self.at {
            Some(i) => {
                Some(&mut self.items[i])
            },
            None => None,
        }
    }
}

impl<T> DoubleEndedStreamingIteratorMut for Convert<T> {

}

/// A cursor over the referents of a vector of references.
#[derive(Clone, Debug)]
pub struct ConvertRef<'a, T: ?Sized> {
    items: Vec<&'a T>,
    front: usize,
    back: usize,
    at: Option<usize>,
}

impl<'a, T: ?Sized> StreamingIterator for ConvertRef<'a, T> {
    type Item = T;

    closed spec fn inv(&self) -> bool {
        &&& self.front <= self.back <= self.items@.len()
        &&& self.at matches Some(i) ==> i < self.items@.len()
    }

    closed spec fn exact(&self) -> bool {
        true
    }

    closed spec fn current(&self) -> Option<&T> {
        match self.at {
            Some(i) => Some(self.items@[i as int]),
            None => None,
        }
    }

    closed spec fn pending(&self) -> Seq<&T> {
        self.items@.subrange(self.front as int, self.back as int)
    }

    open spec fn detached(&self) -> bool {
        true
    }

    fn advance(&mut self) {
        if self.front < self.back {
            self.at = Some(self.front);
            self.front = self.front + 1;
        } else {
            self.at = None;
        }
        assert((*self).pending() =~= after_first((*old(self)).pending()));
        assert((*self).lends() == (*old(self)).lends());
    }

    fn get(&self) -> (r: Option<&T>) {
        match self.at {
            Some(i) => Some(self.items[i]),
            None => None,
        }
    }

    fn size_hint(&self) -> (r: (usize, Option<usize>))
        ensures
            r.0 == self.pending().len(),
            r.1 == Some(r.0),
    {
        let n = self.back - self.front;
        (n, Some(n))
    }

    fn count(self) -> (r: usize) {
        self.back - self.front
    }
}

impl<'a, T: ?Sized> DoubleEndedStreamingIterator for ConvertRef<'a, T> {
    fn advance_back(&mut self) {
        if self.front < self.back {
            self.back = self.back - 1;
            self.at = Some(self.back);
        } else {
            self.at = None;
        }
        assert((*self).pending() =~= before_last((*old(self)).pending()));
    }
}

/// A cursor over the referents of a vector of mutable references.
#[derive(Debug)]
pub struct ConvertMut<'a, T: ?Sized> {
    items: Vec<&'a mut T>,
    front: usize,
    back: usize,
    at: Option<usize>,
}

impl<'a, T: ?Sized> StreamingIterator for ConvertMut<'a, T> {
    type Item = T;

    closed spec fn inv(&self) -> bool {
        &&& self.front <= self.back <= self.items@.len()
        &&& self.at matches Some(i) ==> i < self.items@.len() && (i < self.front || i >= self.back)
    }

    closed spec fn exact(&self) -> bool {
        true
    }

    closed spec fn current(&self) -> Option<&T> {
        match self.at {
            Some(i) => Some(&*self.items@[i as int]),
            None => None,
        }
    }

    closed spec fn pending(&self) -> Seq<&T> {
        Seq::new((self.back - self.front) as nat, |k: int| &*self.items@[self.front + k])
    }

    open spec fn detached(&self) -> bool {
        true
    }

    fn advance(&mut self) {
        if self.front < self.back {
            self.at = Some(self.front);
            self.front = self.front + 1;
        } else {
            self.at = None;
        }
        assert((*self).pending() =~= after_first((*old(self)).pending()));
        assert((*self).lends() == (*old(self)).lends());
    }

    fn get(&self) -> (r: Option<&T>) {
        match self.at {
            Some(i) => Some(&*self.items[i]),
            None => None,
        }
    }

    fn size_hint(&self) -> (r: (usize, Option<usize>))
        ensures
            r.0 == self.pending().len(),
            r.1 == Some(r.0),
    {
        let n = self.back - self.front;
        (n, Some(n))
    }

    fn count(self) -> (r: usize) {
        self.back - self.front
    }
}

impl<'a, T: ?Sized> DoubleEndedStreamingIterator for ConvertMut<'a, T> {
    fn advance_back(&mut self) {
        if self.front < self.back {
            self.back = self.back - 1;
            self.at = Some(self.back);
        } else {
            self.at = None;
        }
        assert((*self).pending() =~= before_last((*old(self)).pending()));
    }
}

impl<'a, T: ?Sized> StreamingIteratorMut for ConvertMut<'a, T> {
    fn get_mut(&mut self) -> (r: Option<&mut T>) {
        match self.at {
            Some(i) => {
                Some(&mut *self.items[i])
            },
            None => None,
        }
    }
}

impl<'a, T: ?Sized> DoubleEndedStreamingIteratorMut for ConvertMut<'a, T> {

}

/// A cursor over no elements.
#[derive(Debug)]
pub struct Empty<T> {
    phantom: PhantomData<T>,
}

impl<T> Clone for Empty<T> {
    fn clone(&self) -> (r: Self)
        ensures
            r == *self,
    {
        Empty { phantom: PhantomData }
    }
}

impl<T> StreamingIterator for Empty<T> {
    type Item = T;

    open spec fn inv(&self) -> bool {
        true
    }

    open spec fn exact(&self) -> bool {
        true
    }

    open spec fn current(&self) -> Option<&T> {
        None
    }

    open spec fn pending(&self) -> Seq<&T> {
        Seq::empty()
    }

    open spec fn detached(&self) -> bool {
        true
    }

    fn advance(&mut self) {
    }

    fn get(&self) -> (r: Option<&T>) {
        None
    }

    fn size_hint(&self) -> (r: (usize, Option<usize>))
        ensures
            r == (0usize, Some(0usize)),
    {
        (0, Some(0))
    }
}

impl<T> DoubleEndedStreamingIterator for Empty<T> {
    fn advance_back(&mut self) {
    }
}

impl<T> StreamingIteratorMut for Empty<T> {
    fn get_mut(&mut self) -> (r: Option<&mut T>) {
        None
    }
}

impl<T> DoubleEndedStreamingIteratorMut for Empty<T> {

}

/// A cursor over what a closure returns, call after call.
#[derive(Clone, Debug)]
pub struct FromFn<T, F> {
    gen: F,
    item: Option<T>,
}

impl<T, F> FromFn<T, F> {
    /// The closure that produces the elements.
    pub closed spec fn generator(&self) -> F {
        self.gen
    }

    /// The value that the cursor holds.
    pub closed spec fn slot(&self) -> Option<T> {
        self.item
    }
}

impl<T, F: FnMut() -> Option<T>> FromFn<T, F> {
    /// What the cursor's specification functions say, in terms of what it
    /// holds.
    pub proof fn lemma_unfold(&self)
        ensures
            self.inv() == (call_requires(self.generator(), ())),
            self.exact() == false,
            self.current() == (as_ref_of(self.slot())),
            self.pending().len() == 0,
            self.detached() == true,
    {
    }
}

impl<T, F: FnMut() -> Option<T>> StreamingIterator for FromFn<T, F> {
    type Item = T;

    open spec fn inv(&self) -> bool {
        call_requires(self.generator(), ())
    }

    open spec fn exact(&self) -> bool {
        false
    }

    open spec fn current(&self) -> Option<&T> {
        as_ref_of(self.slot())
    }

    open spec fn pending(&self) -> Seq<&T> {
        Seq::empty()
    }

    open spec fn detached(&self) -> bool {
        true
    }

    fn advance(&mut self)
        ensures
            (*final(self)).generator() == (*old(self)).generator(),
            call_ensures((*old(self)).generator(), (), (*final(self)).slot()),
    {
        proof {
            assert((*self).detached());
        }
        self.item = (self.gen)();
    }

    fn get(&self) -> (r: Option<&T>)
        ensures
            r == as_ref_of(self.slot()),
    {
        self.item.as_ref()
    }

    fn next(&mut self) -> (r: Option<&T>)
        ensures
            (*final(self)).generator() == (*old(self)).generator(),
            call_ensures((*old(self)).generator(), (), (*final(self)).slot()),
            r == as_ref_of((*final(self)).slot()),
    {
        self.advance();
        (*self).get()
    }

    fn size_hint(&self) -> (r: (usize, Option<usize>))
        ensures
            r == (0usize, None::<usize>),
    {
        (0, None)
    }
}

impl<T, F: FnMut() -> Option<T>> StreamingIteratorMut for FromFn<T, F> {
    fn get_mut(&mut self) -> (r: Option<&mut T>)
        ensures
            (*final(self)).generator() == (*old(self)).generator(),
    {
        self.item.as_mut()
    }
}

/// A cursor over exactly one element.
#[derive(Clone, Debug)]
pub struct Once<T> {
    first: bool,
    item: Option<T>,
}

impl<T> Once<T> {
    /// Whether the cursor has yet to be advanced.
    pub closed spec fn fresh(&self) -> bool {
        self.first
    }
}

impl<T> StreamingIterator for Once<T> {
    type Item = T;

    closed spec fn inv(&self) -> bool {
        self.first ==> self.item is Some
    }

    open spec fn exact(&self) -> bool {
        true
    }

    closed spec fn current(&self) -> Option<&T> {
        match self.item {
            Some(x) => Some(&x),
            None => None,
        }
    }

    closed spec fn pending(&self) -> Seq<&T> {
        if self.first {
            match self.item {
                Some(x) => seq![&x],
                None => Seq::empty(),
            }
        } else {
            Seq::empty()
        }
    }

    open spec fn detached(&self) -> bool {
        false
    }

    fn advance(&mut self)
        ensures
            !(*final(self)).fresh(),
    {
        if self.first {
            self.first = false;
        } else {
            self.item = None;
        }
        assert((*self).pending() =~= after_first((*old(self)).pending()));
        assert((*self).lends() == (*old(self)).lends());
    }

    fn get(&self) -> (r: Option<&T>) {
        self.item.as_ref()
    }

    fn size_hint(&self) -> (r: (usize, Option<usize>))
        ensures
            r.0 == (if self.fresh() { 1usize } else { 0usize }),
            r.1 == Some(r.0),
    {
        if self.first {
            (1, Some(1))
        } else {
            (0, Some(0))
        }
    }
}

impl<T> DoubleEndedStreamingIterator for Once<T> {
    fn advance_back(&mut self)
        ensures
            !(*final(self)).fresh(),
    {
        self.advance();
        assert((*self).pending() =~= before_last((*old(self)).pending()));
    }
}

impl<T> StreamingIteratorMut for Once<T> {
    fn get_mut(&mut self) -> (r: Option<&mut T>)
        ensures
            (*final(self)).fresh() == (*old(self)).fresh(),
            !(*old(self)).fresh() ==> (*final(self)).pending() == (*old(self)).pending(),
    {
        self.item.as_mut()
    }
}

impl<T> DoubleEndedStreamingIteratorMut for Once<T> {

}

/// A cursor over exactly one element, computed by a closure at the first
/// step.
#[derive(Clone, Debug)]
pub struct OnceWith<T, F> {
    gen: Option<F>,
    item: Option<T>,
}

impl<T, F> OnceWith<T, F> {
    /// The closure that computes the element, until it has been called.
    pub closed spec fn generator(&self) -> Option<F> {
        self.gen
    }

    /// The value that the cursor holds.
    pub closed spec fn slot(&self) -> Option<T> {
        self.item
    }
}

impl<T, F: FnOnce() -> T> OnceWith<T, F> {
    /// What the cursor's specification functions say, in terms of what it
    /// holds.
    pub proof fn lemma_unfold(&self)
        ensures
            self.inv() == (self.generator() matches Some(g) ==> call_requires(g, ())),
            self.exact() == (self.generator() matches Some(g) ==> single_valued(g)),
            self.current() == (as_ref_of(self.slot())),
            self.pending() == ({
                match self.generator() {
                    Some(g) => seq![&value_of(g)],
                    None => Seq::empty(),
                }
            }),
            self.detached() == true,
    {
    }
}

impl<T, F: FnOnce() -> T> StreamingIterator for OnceWith<T, F> {
    type Item = T;

    open spec fn inv(&self) -> bool {
        self.generator() matches Some(g) ==> call_requires(g, ())
    }

    open spec fn exact(&self) -> bool {
        self.generator() matches Some(g) ==> single_valued(g)
    }

    open spec fn current(&self) -> Option<&T> {
        as_ref_of(self.slot())
    }

    open spec fn pending(&self) -> Seq<&T> {
        match self.generator() {
            Some(g) => seq![&value_of(g)],
            None => Seq::empty(),
        }
    }

    open spec fn detached(&self) -> bool {
        true
    }

    fn advance(&mut self)
        ensures
            (*final(self)).generator() is None,
            match (*old(self)).generator() {
                Some(g) => (*final(self)).slot() matches Some(x) && call_ensures(g, (), x),
                None => (*final(self)).slot() is None,
            },
    {
        proof {
            assert((*self).detached());
        }
        self.item = match self.gen.take() {
            Some(g) => Some(g()),
            None => None,
        };
        assert((*old(self)).exact() ==> (*self).pending() =~= after_first(
            (*old(self)).pending(),
        ));
    }

    fn get(&self) -> (r: Option<&T>)
        ensures
            r == as_ref_of(self.slot()),
    {
        self.item.as_ref()
    }

    fn next(&mut self) -> (r: Option<&T>)
        ensures
            (*final(self)).generator() is None,
            match (*old(self)).generator() {
                Some(g) => (*final(self)).slot() matches Some(x) && call_ensures(g, (), x),
                None => (*final(self)).slot() is None,
            },
            r == as_ref_of((*final(self)).slot()),
    {
        self.advance();
        (*self).get()
    }

    fn size_hint(&self) -> (r: (usize, Option<usize>))
        ensures
            r.0 == (if self.generator() is Some { 1usize } else { 0usize }),
            r.1 == Some(r.0),
    {
        if self.gen.is_some() {
            (1, Some(1))
        } else {
            (0, Some(0))
        }
    }
}

impl<T, F: FnOnce() -> T> DoubleEndedStreamingIterator for OnceWith<T, F> {
    fn advance_back(&mut self) {
        self.advance();
        assert((*old(self)).exact() ==> (*self).pending() =~= before_last(
            (*old(self)).pending(),
        ));
    }
}

impl<T, F: FnOnce() -> T> StreamingIteratorMut for OnceWith<T, F> {
    fn get_mut(&mut self) -> (r: Option<&mut T>) {
        self.item.as_mut()
    }
}

impl<T, F: FnOnce() -> T> DoubleEndedStreamingIteratorMut for OnceWith<T, F> {

}

/// A cursor that stands on one element for ever.
///
/// What is written to the element through `get_mut` stays there.
#[derive(Clone, Debug)]
pub struct Repeat<T> {
    item: T,
}

impl<T> Repeat<T> {
    /// The element that the cursor stands on.
    pub closed spec fn element(&self) -> T {
        self.item
    }
}

impl<T> StreamingIterator for Repeat<T> {
    type Item = T;

    open spec fn inv(&self) -> bool {
        true
    }

    open spec fn exact(&self) -> bool {
        false
    }

    closed spec fn current(&self) -> Option<&T> {
        Some(&self.item)
    }

    open spec fn pending(&self) -> Seq<&T> {
        Seq::empty()
    }

    open spec fn detached(&self) -> bool {
        false
    }

    fn advance(&mut self)
        ensures
            *final(self) == *old(self),
    {
    }

    fn get(&self) -> (r: Option<&T>)
        ensures
            r == Some(&self.element()),
    {
        Some(&self.item)
    }

    fn next(&mut self) -> (r: Option<&T>)
        ensures
            *final(self) == *old(self),
            r == Some(&(*old(self)).element()),
    {
        self.advance();
        (*self).get()
    }

    fn size_hint(&self) -> (r: (usize, Option<usize>))
        ensures
            r == (usize::MAX, None::<usize>),
    {
        (usize::MAX, None)
    }
}

impl<T> DoubleEndedStreamingIterator for Repeat<T> {
    fn advance_back(&mut self)
        ensures
            *final(self) == *old(self),
    {
    }
}

impl<T> StreamingIteratorMut for Repeat<T> {
    fn get_mut(&mut self) -> (r: Option<&mut T>)
        ensures
            r is Some,
    {
        Some(&mut self.item)
    }
}

impl<T> DoubleEndedStreamingIteratorMut for Repeat<T> {

}

/// A cursor that stands, after each step, on what a new call of a closure
/// returned.
#[derive(Clone, Debug)]
pub struct RepeatWith<T, F> {
    gen: F,
    item: Option<T>,
}

impl<T, F> RepeatWith<T, F> {
    /// The closure that produces the elements.
    pub closed spec fn generator(&self) -> F {
        self.gen
    }

    /// The value that the cursor holds.
    pub closed spec fn slot(&self) -> Option<T> {
        self.item
    }
}

impl<T, F: FnMut() -> T> RepeatWith<T, F> {
    /// What the cursor's specification functions say, in terms of what it
    /// holds.
    pub proof fn lemma_unfold(&self)
        ensures
            self.inv() == (call_requires(self.generator(), ())),
            self.exact() == false,
            self.current() == (as_ref_of(self.slot())),
            self.pending().len() == 0,
            self.detached() == true,
    {
    }
}

impl<T, F: FnMut() -> T> StreamingIterator for RepeatWith<T, F> {
    type Item = T;

    open spec fn inv(&self) -> bool {
        call_requires(self.generator(), ())
    }

    open spec fn exact(&self) -> bool {
        false
    }

    open spec fn current(&self) -> Option<&T> {
        as_ref_of(self.slot())
    }

    open spec fn pending(&self) -> Seq<&T> {
        Seq::empty()
    }

    open spec fn detached(&self) -> bool {
        true
    }

    fn advance(&mut self)
        ensures
            (*final(self)).generator() == (*old(self)).generator(),
            (*final(self)).slot() matches Some(x) && call_ensures((*old(self)).generator(), (), x),
    {
        proof {
            assert((*self).detached());
        }
        self.item = Some((self.gen)());
    }

    fn get(&self) -> (r: Option<&T>)
        ensures
            r == as_ref_of(self.slot()),
    {
        self.item.as_ref()
    }

    fn next(&mut self) -> (r: Option<&T>)
        ensures
            (*final(self)).generator() == (*old(self)).generator(),
            (*final(self)).slot() matches Some(x) && call_ensures((*old(self)).generator(), (), x),
            r == as_ref_of((*final(self)).slot()),
    {
        self.advance();
        (*self).get()
    }

    fn size_hint(&self) -> (r: (usize, Option<usize>))
        ensures
            r == (usize::MAX, None::<usize>),
    {
        (usize::MAX, None)
    }
}

impl<T, F: FnMut() -> T> StreamingIteratorMut for RepeatWith<T, F> {
    fn get_mut(&mut self) -> (r: Option<&mut T>)
        ensures
            (*final(self)).generator() == (*old(self)).generator(),
    {
        self.item.as_mut()
    }
}

/// A cursor that steps from each element to what a closure makes of it.
///
/// What is written to the current element through `get_mut` is what the
/// closure is given at the next step.
#[derive(Clone, Debug)]
pub struct Successors<T, F> {
    first: bool,
    item: Option<T>,
    succ: F,
}

impl<T, F> Successors<T, F> {
    /// Whether the cursor has yet to be advanced.
    pub closed spec fn fresh(&self) -> bool {
        self.first
    }

    /// The closure that computes each element from the one before.
    pub closed spec fn successor(&self) -> F {
        self.succ
    }

    /// The value that the cursor holds.
    pub closed spec fn slot(&self) -> Option<T> {
        self.item
    }
}

impl<T, F: FnMut(T) -> Option<T>> Successors<T, F> {
    /// What the cursor's specification functions say, in terms of what it
    /// holds.
    pub proof fn lemma_unfold(&self)
        ensures
            self.inv() == (total_step(self.successor())),
            self.exact() == false,
            self.current() == (as_ref_of(self.slot())),
            self.pending().len() == 0,
            self.detached() == false,
    {
    }
}

impl<T, F: FnMut(T) -> Option<T>> StreamingIterator for Successors<T, F> {
    type Item = T;

    open spec fn inv(&self) -> bool {
        total_step(self.successor())
    }

    open spec fn exact(&self) -> bool {
        false
    }

    open spec fn current(&self) -> Option<&T> {
        as_ref_of(self.slot())
    }

    open spec fn pending(&self) -> Seq<&T> {
        Seq::empty()
    }

    open spec fn detached(&self) -> bool {
        false
    }

    fn advance(&mut self)
        ensures
            !(*final(self)).fresh(),
            (*final(self)).successor() == (*old(self)).successor(),
            (*old(self)).fresh() ==> (*final(self)).slot() == (*old(self)).slot(),
            !(*old(self)).fresh() ==> match (*old(self)).slot() {
                Some(x) => call_ensures((*old(self)).successor(), (x,), (*final(self)).slot()),
                None => (*final(self)).slot() is None,
            },
    {
        proof {
            assert(!(*self).detached());
        }
        if self.first {
            self.first = false;
        } else {
            match self.item.take() {
                Some(item) => {
                    self.item = (self.succ)(item);
                },
                None => {},
            }
        }
    }

    fn get(&self) -> (r: Option<&T>)
        ensures
            r == as_ref_of(self.slot()),
    {
        self.item.as_ref()
    }

    fn next(&mut self) -> (r: Option<&T>)
        ensures
            !(*final(self)).fresh(),
            (*final(self)).successor() == (*old(self)).successor(),
            (*old(self)).fresh() ==> (*final(self)).slot() == (*old(self)).slot(),
            !(*old(self)).fresh() ==> match (*old(self)).slot() {
                Some(x) => call_ensures((*old(self)).successor(), (x,), (*final(self)).slot()),
                None => (*final(self)).slot() is None,
            },
            r == as_ref_of((*final(self)).slot()),
    {
        self.advance();
        (*self).get()
    }

    fn size_hint(&self) -> (r: (usize, Option<usize>))
        ensures
            r == match (self.fresh(), self.slot()) {
                (true, Some(_)) => (1usize, None::<usize>),
                (false, Some(_)) => (0usize, None::<usize>),
                (_, None) => (0usize, Some(0usize)),
            },
    {
        if self.item.is_none() {
            (0, Some(0))
        } else if self.first {
            (1, None)
        } else {
            (0, None)
        }
    }
}

impl<T, F: FnMut(T) -> Option<T>> StreamingIteratorMut for Successors<T, F> {
    fn get_mut(&mut self) -> (r: Option<&mut T>)
        ensures
            (*final(self)).fresh() == (*old(self)).fresh(),
            (*final(self)).successor() == (*old(self)).successor(),
    {
        self.item.as_mut()
    }
}

} // verus!
