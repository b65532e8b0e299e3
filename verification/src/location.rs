//! Positions and spans: a half-open range of offsets into the source text,
//! and a wrapper that attaches such a range to any payload.

use vstd::prelude::*;

verus! {

/// An offset into the source text.
pub type Point = usize;

/// A half-open range `[start, end)` of offsets into the source text.
pub type Span = core::ops::Range<usize>;

/// The mathematical image of a `Spanned<T>`: the payload's view together
/// with the span's endpoints as unbounded integers.
pub ghost struct SpannedM<V> {
    pub data: V,
    pub start: int,
    pub end: int,
}

/// A payload together with the source range it came from.
#[derive(Debug)]
pub struct Spanned<T> {
    pub data: T,
    pub span: Span,
}

impl<T: View> View for Spanned<T> {
    type V = SpannedM<T::V>;

    open spec fn view(&self) -> SpannedM<T::V> {
        SpannedM { data: self.data@, start: self.span.start as int, end: self.span.end as int }
    }
}

impl<T> Spanned<T> {
    /// Attach the half-open range `[start, end)` to `data`.
    pub fn new(start: Point, end: Point, data: T) -> (r: Spanned<T>)
        requires
            start <= end,
        ensures
            r.span.start == start,
            r.span.end == end,
            r.data == data,
    {
        Spanned { data, span: start..end }
    }
}

} // verus!
