//! A cursor over the overlapping windows of a mutable slice.

use vstd::prelude::*;
use vstd::slice::slice_subrange;
use crate::model::{after_first, before_last, first_of, last_of, taken};
use crate::traits::{
    DoubleEndedStreamingIterator, DoubleEndedStreamingIteratorMut, StreamingIterator,
    StreamingIteratorMut,
};

verus! {

/// The slice whose elements are those of `s`.
pub open spec fn slice_of<'a, T>(s: Seq<T>) -> &'a [T] {
    choose|x: &[T]| x@ == s
}

/// A slice is the slice of its elements.
pub broadcast proof fn lemma_slice_of<T>(x: &[T])
    ensures
        #[trigger] slice_of(x@) == x,
{
    broadcast use vstd::slice::axiom_slice_ext_equal;

    let y = slice_of(x@);
    assert(y@ == x@);
    assert(y@ =~= x@);
}

/// The number of windows of `size` elements in a run of `len` elements.
pub open spec fn window_count(len: int, size: int) -> nat {
    if len >= size {
        (len - size + 1) as nat
    } else {
        0
    }
}

/// The windows of `size` elements among the elements `lo..hi` of `buf`,
/// front to back: window `k` starts at element `lo + k`, so each window
/// shares all but its first element with the next.
pub open spec fn windows<T>(buf: Seq<T>, lo: int, hi: int, size: int) -> Seq<Seq<T>> {
    Seq::new(window_count(hi - lo, size), |k: int| buf.subrange(lo + k, lo + k + size))
}

/// The windows of `windows`, as slices.
pub open spec fn window_slices<'a, T>(buf: Seq<T>, lo: int, hi: int, size: int) -> Seq<&'a [T]> {
    Seq::new(window_count(hi - lo, size), |k: int| slice_of(buf.subrange(lo + k, lo + k + size)))
}

/// The elements of `buf` with those from `at` on overwritten by `w`.
pub open spec fn written<T>(buf: Seq<T>, at: int, w: Seq<T>) -> Seq<T> {
    buf.subrange(0, at) + w + buf.subrange(at + w.len(), buf.len() as int)
}

/// Creates a cursor over all windows of `size` elements in `slice`, front
/// to back.
///
/// The windows overlap and may be written to through the cursor. Where the
/// slice has fewer than `size` elements there is no window.
pub fn windows_mut<T>(slice: &mut [T], size: usize) -> (r: WindowsMut<'_, T>)
    requires
        size > 0,
    ensures
        r.inv(),
        r.exact(),
        r.fresh(),
        r.backing() == old(slice)@,
        r.start() == 0,
        r.end() == old(slice)@.len(),
        r.width() == size,
        r.current() is None,
        r.pending().len() == window_count(old(slice)@.len() as int, size as int),
{
    let hi = slice.len();
    WindowsMut { slice, lo: 0, hi, size, position: Position::Init }
}

/// Lends out the whole of `slice`, to be written to.
///
/// This is `<[T] as IndexMut<RangeFull>>::index_mut` of the standard
/// library. It is taken to lend out the slice as it is, and to leave in
/// `slice`, once the loan ends, what was written: as many elements as
/// before, since a slice cannot be made longer or shorter through a
/// reference to it.
#[verifier::external_body]
fn whole_mut<T>(slice: &mut [T]) -> (r: &mut [T])
    ensures
        r@ == old(slice)@,
        final(r)@.len() == old(slice)@.len(),
        final(slice)@ == final(r)@,
{
    &mut slice[..]
}

/// Lends out the elements `a..b` of `slice`, to be written to. Once the
/// loan ends, `slice` holds what was written to them between the elements
/// before `a` and those from `b` on, which stay as they were.
fn subslice_mut<T>(slice: &mut [T], a: usize, b: usize) -> (r: &mut [T])
    requires
        a <= b <= old(slice)@.len(),
    ensures
        r@ == old(slice)@.subrange(a as int, b as int),
        final(r)@.len() == b - a,
        final(slice)@ == old(slice)@.subrange(0, a as int) + final(r)@ + old(slice)@.subrange(
            b as int,
            old(slice)@.len() as int,
        ),
{
    let (_, rest) = slice.split_at_mut(a);
    let (mid, _) = rest.split_at_mut(b - a);
    whole_mut(mid)
}

enum Position {
    Init,
    Front,
    Back,
}

/// A cursor over the overlapping windows of a mutable slice.
///
/// It keeps the range of the slice whose windows are still to come. A step
/// first gives up the element at the end that the last step came from, and
/// then stands on the window at the end it is asked for.
pub struct WindowsMut<'a, T> {
    slice: &'a mut [T],
    lo: usize,
    hi: usize,
    size: usize,
    position: Position,
}

impl<'a, T> WindowsMut<'a, T> {
    /// The elements of the whole slice, as they are now.
    pub closed spec fn backing(&self) -> Seq<T> {
        self.slice@
    }

    /// Where the range begins that the cursor has not given up.
    pub closed spec fn start(&self) -> int {
        self.lo as int
    }

    /// Where the range ends that the cursor has not given up.
    pub closed spec fn end(&self) -> int {
        self.hi as int
    }

    /// The number of elements in a window.
    pub closed spec fn width(&self) -> int {
        self.size as int
    }

    /// Whether the cursor has yet to be advanced.
    pub closed spec fn fresh(&self) -> bool {
        self.position is Init
    }

    /// Whether the last step came from the back.
    pub closed spec fn at_back(&self) -> bool {
        self.position is Back
    }

    /// Where the range begins whose windows are still to come.
    pub open spec fn next_start(&self) -> int {
        if !self.fresh() && !self.at_back() && self.start() < self.end() {
            self.start() + 1
        } else {
            self.start()
        }
    }

    /// Where the range ends whose windows are still to come.
    pub open spec fn next_end(&self) -> int {
        if self.at_back() && self.start() < self.end() {
            self.end() - 1
        } else {
            self.end()
        }
    }

    /// The elements of the window that the cursor stands on.
    pub open spec fn window(&self) -> Option<Seq<T>> {
        if self.fresh() || self.end() - self.start() < self.width() {
            None
        } else if self.at_back() {
            Some(self.backing().subrange(self.end() - self.width(), self.end()))
        } else {
            Some(self.backing().subrange(self.start(), self.start() + self.width()))
        }
    }

    /// Where the window begins that the cursor stands on, if it stands on
    /// one.
    pub open spec fn window_start(&self) -> int {
        if self.at_back() {
            self.end() - self.width()
        } else {
            self.start()
        }
    }

    /// The windows that are still to come, front to back.
    pub open spec fn upcoming(&self) -> Seq<Seq<T>> {
        windows(self.backing(), self.next_start(), self.next_end(), self.width())
    }

    /// Gives up the element at the end that the last step came from.
    fn consume(&mut self)
        requires
            (*old(self)).inv(),
        ensures
            (*final(self)).inv(),
            (*final(self)).backing() == (*old(self)).backing(),
            (*final(self)).width() == (*old(self)).width(),
            (*final(self)).fresh() == (*old(self)).fresh(),
            (*final(self)).at_back() == (*old(self)).at_back(),
            (*final(self)).start() == (*old(self)).next_start(),
            (*final(self)).end() == (*old(self)).next_end(),
    {
        match self.position {
            Position::Init => {},
            Position::Front => {
                if self.lo < self.hi {
                    self.lo = self.lo + 1;
                }
            },
            Position::Back => {
                if self.lo < self.hi {
                    self.hi = self.hi - 1;
                }
            },
        }
    }

    /// The window at the front of the range.
    fn get_front(&self) -> (r: Option<&[T]>)
        requires
            self.inv(),
        ensures
            self.end() - self.start() < self.width() ==> r is None,
            self.end() - self.start() >= self.width() ==> (r matches Some(w) && w@
                == self.backing().subrange(self.start(), self.start() + self.width())),
    {
        if self.hi - self.lo >= self.size {
            Some(slice_subrange(&*self.slice, self.lo, self.lo + self.size))
        } else {
            None
        }
    }

    /// The window at the front of the range, to be written to.
    fn get_front_mut(&mut self) -> (r: Option<&mut [T]>)
        requires
            (*old(self)).inv(),
        ensures
            (*final(self)).inv(),
            (*final(self)).start() == (*old(self)).start(),
            (*final(self)).end() == (*old(self)).end(),
            (*final(self)).width() == (*old(self)).width(),
            (*final(self)).fresh() == (*old(self)).fresh(),
            (*final(self)).at_back() == (*old(self)).at_back(),
            match r {
                Some(w) => {
                    let a = (*old(self)).start();
                    let b = a + (*old(self)).width();
                    &&& (*old(self)).end() - a >= (*old(self)).width()
                    &&& w@ == (*old(self)).backing().subrange(a, b)
                    &&& (*final(self)).backing() == (*old(self)).backing().subrange(0, a) + final(w)@ + (*old(self)).backing().subrange(b, (*old(self)).backing().len() as int)
                    &&& final(w)@.len() == (*old(self)).width()
                    &&& (*final(self)).backing().subrange(a, b) == final(w)@
                    &&& slice_of(w@) == &*w
                    &&& slice_of(final(w)@) == &*final(w)
                },
                None => (*old(self)).end() - (*old(self)).start() < (*old(self)).width()
                    && (*final(self)).backing() == (*old(self)).backing(),
            },
    {
        if self.hi - self.lo >= self.size {
            let ghost before = self.slice@;
            let ghost a = self.lo as int;
            let ghost b = self.lo + self.size;
            let w = subslice_mut(self.slice, self.lo, self.lo + self.size);
            proof {
                lemma_slice_of(&*w);
                lemma_slice_of(&*final(w));
                let after = before.subrange(0, a) + final(w)@ + before.subrange(
                    b,
                    before.len() as int,
                );
                assert(after.subrange(a, b) =~= final(w)@);
            }
            Some(w)
        } else {
            None
        }
    }

    /// The window at the back of the range.
    fn get_back(&self) -> (r: Option<&[T]>)
        requires
            self.inv(),
        ensures
            self.end() - self.start() < self.width() ==> r is None,
            self.end() - self.start() >= self.width() ==> (r matches Some(w) && w@
                == self.backing().subrange(self.end() - self.width(), self.end())),
    {
        if self.hi - self.lo >= self.size {
            Some(slice_subrange(&*self.slice, self.hi - self.size, self.hi))
        } else {
            None
        }
    }

    /// The window at the back of the range, to be written to.
    fn get_back_mut(&mut self) -> (r: Option<&mut [T]>)
        requires
            (*old(self)).inv(),
        ensures
            (*final(self)).inv(),
            (*final(self)).start() == (*old(self)).start(),
            (*final(self)).end() == (*old(self)).end(),
            (*final(self)).width() == (*old(self)).width(),
            (*final(self)).fresh() == (*old(self)).fresh(),
            (*final(self)).at_back() == (*old(self)).at_back(),
            match r {
                Some(w) => {
                    let b = (*old(self)).end();
                    let a = b - (*old(self)).width();
                    &&& a >= (*old(self)).start()
                    &&& w@ == (*old(self)).backing().subrange(a, b)
                    &&& (*final(self)).backing() == (*old(self)).backing().subrange(0, a) + final(w)@ + (*old(self)).backing().subrange(b, (*old(self)).backing().len() as int)
                    &&& final(w)@.len() == (*old(self)).width()
                    &&& (*final(self)).backing().subrange(a, b) == final(w)@
                    &&& slice_of(w@) == &*w
                    &&& slice_of(final(w)@) == &*final(w)
                },
                None => (*old(self)).end() - (*old(self)).start() < (*old(self)).width()
                    && (*final(self)).backing() == (*old(self)).backing(),
            },
    {
        if self.hi - self.lo >= self.size {
            let ghost before = self.slice@;
            let ghost a = self.hi - self.size;
            let ghost b = self.hi as int;
            let w = subslice_mut(self.slice, self.hi - self.size, self.hi);
            proof {
                lemma_slice_of(&*w);
                lemma_slice_of(&*final(w));
                let after = before.subrange(0, a) + final(w)@ + before.subrange(
                    b,
                    before.len() as int,
                );
                assert(after.subrange(a, b) =~= final(w)@);
            }
            Some(w)
        } else {
            None
        }
    }

    /// The number of windows that are still to come.
    fn len(&self) -> (r: usize)
        requires
            self.inv(),
        ensures
            r == self.upcoming().len(),
            r == self.pending().len(),
    {
        let len = match self.position {
            Position::Init => self.hi - self.lo,
            _ => if self.hi - self.lo >= 1 {
                self.hi - self.lo - 1
            } else {
                0
            },
        };
        if len >= self.size - 1 {
            len - (self.size - 1)
        } else {
            0
        }
    }
}

impl<T> StreamingIterator for WindowsMut<'_, T> {
    type Item = [T];

    open spec fn inv(&self) -> bool {
        &&& 0 <= self.start() <= self.end() <= self.backing().len()
        &&& self.width() > 0
        &&& !(self.fresh() && self.at_back())
    }

    open spec fn exact(&self) -> bool {
        true
    }

    open spec fn current(&self) -> Option<&[T]> {
        match self.window() {
            Some(w) => Some(slice_of(w)),
            None => None,
        }
    }

    open spec fn pending(&self) -> Seq<&[T]> {
        window_slices(self.backing(), self.next_start(), self.next_end(), self.width())
    }

    open spec fn detached(&self) -> bool {
        false
    }

    open spec fn lends(&self) -> spec_fn(&[T]) -> bool {
        |w: &[T]| w@.len() == self.width()
    }

    fn advance(&mut self)
        ensures
            (*final(self)).backing() == (*old(self)).backing(),
            (*final(self)).width() == (*old(self)).width(),
            (*final(self)).start() == (*old(self)).next_start(),
            (*final(self)).end() == (*old(self)).next_end(),
            !(*final(self)).fresh(),
            !(*final(self)).at_back(),
            (*final(self)).window() == first_of((*old(self)).upcoming()),
            (*final(self)).upcoming() == after_first((*old(self)).upcoming()),
    {
        self.consume();
        self.position = Position::Front;
        proof {
            assert(!(*old(self)).detached());
            assert((*self).pending() =~= after_first((*old(self)).pending()));
            assert((*self).upcoming() =~= after_first((*old(self)).upcoming()));
            assert((*self).lends() =~= (*old(self)).lends());
        }
    }

    fn get(&self) -> (r: Option<&[T]>)
        ensures
            match r {
                Some(w) => self.window() == Some(w@),
                None => self.window() is None,
            },
    {
        broadcast use lemma_slice_of;

        match self.position {
            Position::Init => None,
            Position::Front => self.get_front(),
            Position::Back => self.get_back(),
        }
    }

    fn next(&mut self) -> (r: Option<&[T]>)
        ensures
            (*final(self)).backing() == (*old(self)).backing(),
            (*final(self)).width() == (*old(self)).width(),
            (*final(self)).start() == (*old(self)).next_start(),
            (*final(self)).end() == (*old(self)).next_end(),
            !(*final(self)).fresh(),
            !(*final(self)).at_back(),
            match r {
                Some(w) => (*final(self)).window() == Some(w@),
                None => (*final(self)).window() is None,
            },
    {
        broadcast use lemma_slice_of;

        self.advance();
        self.get_front()
    }

    fn size_hint(&self) -> (r: (usize, Option<usize>))
        ensures
            r.0 == self.upcoming().len(),
            r.1 == Some(r.0),
    {
        let len = self.len();
        (len, Some(len))
    }

    fn is_done(&self) -> (r: bool) {
        match self.position {
            Position::Init => true,
            _ => self.hi - self.lo < self.size,
        }
    }

    fn count(self) -> (r: usize) {
        self.len()
    }
}

impl<T> StreamingIteratorMut for WindowsMut<'_, T> {
    fn get_mut(&mut self) -> (r: Option<&mut [T]>)
        ensures
            (*final(self)).start() == (*old(self)).start(),
            (*final(self)).end() == (*old(self)).end(),
            (*final(self)).width() == (*old(self)).width(),
            (*final(self)).fresh() == (*old(self)).fresh(),
            (*final(self)).at_back() == (*old(self)).at_back(),
            (*final(self)).backing().len() == (*old(self)).backing().len(),
            match r {
                Some(w) => (*old(self)).window() == Some(w@) && (*final(self)).window() == Some(
                    final(w)@,
                ) && (*final(self)).backing() == written(
                    (*old(self)).backing(),
                    (*old(self)).window_start(),
                    final(w)@,
                ),
                None => (*old(self)).window() is None && (*final(self)).backing() == (*old(self)).backing(),
            },
    {
        broadcast use lemma_slice_of;

        match self.position {
            Position::Init => None,
            Position::Front => self.get_front_mut(),
            Position::Back => self.get_back_mut(),
        }
    }

    fn next_mut(&mut self) -> (r: Option<&mut [T]>)
        ensures
            (*final(self)).width() == (*old(self)).width(),
            (*final(self)).start() == (*old(self)).next_start(),
            (*final(self)).end() == (*old(self)).next_end(),
            !(*final(self)).fresh(),
            !(*final(self)).at_back(),
            match r {
                Some(w) => (*final(self)).window() == Some(final(w)@) && w@
                    == (*old(self)).backing().subrange(
                    (*final(self)).start(),
                    (*final(self)).start() + (*final(self)).width(),
                ) && (*final(self)).backing() == written(
                    (*old(self)).backing(),
                    (*final(self)).start(),
                    final(w)@,
                ),
                None => (*final(self)).window() is None && (*final(self)).backing() == (*old(self)).backing(),
            },
    {
        broadcast use lemma_slice_of;

        self.advance();
        self.get_front_mut()
    }
}

impl<T> DoubleEndedStreamingIterator for WindowsMut<'_, T> {
    fn advance_back(&mut self)
        ensures
            (*final(self)).backing() == (*old(self)).backing(),
            (*final(self)).width() == (*old(self)).width(),
            (*final(self)).start() == (*old(self)).next_start(),
            (*final(self)).end() == (*old(self)).next_end(),
            (*final(self)).at_back(),
            (*final(self)).window() == last_of((*old(self)).upcoming()),
            (*final(self)).upcoming() == before_last((*old(self)).upcoming()),
    {
        self.consume();
        self.position = Position::Back;
        proof {
            assert(!(*old(self)).detached());
            assert((*self).pending() =~= before_last((*old(self)).pending()));
            assert((*self).upcoming() =~= before_last((*old(self)).upcoming()));
        }
    }

    fn next_back(&mut self) -> (r: Option<&[T]>)
        ensures
            (*final(self)).backing() == (*old(self)).backing(),
            (*final(self)).width() == (*old(self)).width(),
            (*final(self)).start() == (*old(self)).next_start(),
            (*final(self)).end() == (*old(self)).next_end(),
            (*final(self)).at_back(),
            match r {
                Some(w) => (*final(self)).window() == Some(w@),
                None => (*final(self)).window() is None,
            },
    {
        broadcast use lemma_slice_of;

        self.advance_back();
        self.get_back()
    }
}

impl<T> DoubleEndedStreamingIteratorMut for WindowsMut<'_, T> {
    fn next_back_mut(&mut self) -> (r: Option<&mut [T]>)
        ensures
            (*final(self)).width() == (*old(self)).width(),
            (*final(self)).start() == (*old(self)).next_start(),
            (*final(self)).end() == (*old(self)).next_end(),
            (*final(self)).at_back(),
            match r {
                Some(w) => (*final(self)).window() == Some(final(w)@) && w@
                    == (*old(self)).backing().subrange(
                    (*final(self)).end() - (*final(self)).width(),
                    (*final(self)).end(),
                ) && (*final(self)).backing() == written(
                    (*old(self)).backing(),
                    (*final(self)).end() - (*final(self)).width(),
                    final(w)@,
                ),
                None => (*final(self)).window() is None && (*final(self)).backing() == (*old(self)).backing(),
            },
    {
        broadcast use lemma_slice_of;

        self.advance_back();
        self.get_back_mut()
    }
}

} // verus!
