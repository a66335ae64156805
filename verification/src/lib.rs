//! Streaming iterators: cursors that lend out the element they stand on
//! instead of giving it away, with the adapters and algorithms that go
//! with them.
//!
//! An iterator of the standard library hands each element over for good, so
//! an element cannot borrow from the iterator. A cursor keeps its elements:
//! [`StreamingIterator::advance`] moves it onto the next one and
//! [`StreamingIterator::get`] lends that one out for as long as the cursor
//! is not moved again. The loop over a cursor is
//!
//! ```ignore
//! while let Some(item) = cursor.next() {
//!     // work with item
//! }
//! ```
//!
//! # How the contracts read
//!
//! A cursor is taken to be a finite sequence of elements that are still to
//! come, [`StreamingIterator::pending`], and the element it stands on,
//! [`StreamingIterator::current`]. Where [`StreamingIterator::exact`] holds,
//! a step forward takes the first of the pending elements and a step
//! backward the last, and a cursor with nothing pending stands on nothing
//! from then on. [`StreamingIterator::inv`] is what a cursor asks of its
//! state before it is driven: of an adapter that searches, that the cursor
//! it wraps comes to an end; of an adapter that calls a closure, that the
//! closure may be called on the elements that the wrapped cursor has to
//! come, or on every element.
//!
//! What a closure does is known by its own contract alone. Adapters that
//! call one say which elements it was called on and what it answered, and
//! their sequences are told over what the closure can answer: `filter`
//! keeps the elements on which the predicate cannot answer `false`. A
//! consumer asks that its closure may be called all along the run, and says
//! what the calls along the run have returned.
//!
//! A cursor that lends out its elements to be written to says by
//! [`StreamingIterator::detached`] whether the elements to come stay as
//! they are under such writing, and by [`StreamingIterator::lends`] what
//! holds of each element that it lends out, whatever was written before.
//!
//! # Closures at a caller
//!
//! Verus takes the element type of an adapter over a closure to be that of
//! the cursor it wraps only where the closure's type is a type parameter.
//! Code that drives such an adapter through the provided methods of the
//! traits is therefore written generic over the closure's type, with the
//! closure's contract in its `requires`:
//!
//! ```ignore
//! fn count_kept<P: FnMut(&u32) -> bool>(v: Vec<u32>, keep: P) -> (n: usize)
//!     requires
//!         forall|x: &u32| call_requires(keep, (x,)),
//!         forall|x: &u32, r: bool| call_ensures(keep, (x,), r) ==> r,
//!     ensures
//!         n == v@.len(),
//! {
//!     let kept = convert(v).filter(keep);
//!     proof {
//!         kept.lemma_unfold();
//!         law_filter_true(kept);
//!     }
//!     kept.count()
//! }
//! ```
//!
//! Each adapter has a `lemma_unfold`, which spells out its specification
//! functions over the cursor it wraps. The module [`laws`] holds what the
//! contracts add up to.

pub mod adapters;
pub mod laws;
pub mod model;
pub mod slice;
pub mod sources;
pub mod traits;

pub use crate::adapters::chain::Chain;
pub use crate::adapters::deref::{FilterMapDeref, MapDeref, MapDerefMut};
pub use crate::adapters::filter::Filter;
pub use crate::adapters::filter_map::FilterMap;
pub use crate::adapters::flat_map::FlatMap;
pub use crate::adapters::flatten::Flatten;
pub use crate::adapters::fuse::Fuse;
pub use crate::adapters::inspect::Inspect;
pub use crate::adapters::map::Mapped;
pub use crate::adapters::map_ref::MapRef;
pub use crate::adapters::owned::{Cloned, Copied, Owned};
pub use crate::adapters::rev::Rev;
pub use crate::adapters::skip::Skip;
pub use crate::adapters::skip_while::SkipWhile;
pub use crate::adapters::take::Take;
pub use crate::adapters::take_while::TakeWhile;
pub use crate::slice::{windows_mut, WindowsMut};
pub use crate::sources::{
    convert, convert_mut, convert_ref, empty, from_fn, once, once_with, repeat, repeat_with,
    successors, Convert, ConvertMut, ConvertRef, Empty, FromFn, IntoElements,
    IntoStreamingIterator, Once, OnceWith, Repeat, RepeatWith, Successors,
};
pub use crate::traits::{
    fold_rest, fold_rest_mut, rfold_rest, rfold_rest_mut, DoubleEndedStreamingIterator,
    DoubleEndedStreamingIteratorMut, StreamingIterator, StreamingIteratorMut,
};
