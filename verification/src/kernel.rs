//! The measuring that the matching asks of its caller.
//!
//! Lengths, angles and positions along a line are real numbers. The caller
//! computes them and hands them over rounded to whole units; the matching
//! decides on what it is handed.

use vstd::prelude::*;
use crate::geometry::{Coord, Line};
use crate::measures::Measures;

verus! {

/// One whole line as a position along it, in billionths of its length.
pub const FRACTION_ONE: u32 = 1_000_000_000;

/// A stretch of a line, from one position along it to a later one.
#[derive(Clone, Copy, Debug, PartialEq, Eq, Structural)]
pub struct Span {
    pub start: u32,
    pub end: u32,
}

impl Span {
    /// The stretch is not empty and ends on the line.
    pub open spec fn wf(self) -> bool {
        self.start < self.end <= FRACTION_ONE
    }
}

/// Both are nothing, or both are lines with the same points.
pub open spec fn same_points(a: Option<Line>, b: Option<Line>) -> bool {
    match (a, b) {
        (Some(x), Some(y)) => x@ == y@,
        (None, None) => true,
        _ => false,
    }
}

/// The three measuring operations.
pub struct Kernel<M, L, S> {
    /// The measures of a line.
    pub measure: M,
    /// The position along a line that is closest to a point, in billionths of
    /// the line's length, or nothing where there is none.
    pub locate: L,
    /// The part of a line within a stretch, or nothing where the line cannot
    /// be cut so.
    pub slice: S,
}

impl<M, L, S> Kernel<M, L, S> where
    M: Fn(&Line) -> Measures,
    L: Fn(&Line, Coord) -> Option<u32>,
    S: Fn(&Line, Span) -> Option<Line>,
 {
    /// Every operation can be called on every line.
    pub open spec fn callable(&self) -> bool {
        &&& forall|line: &Line| call_requires(self.measure, (line,))
        &&& forall|line: &Line, point: Coord| call_requires(self.locate, (line, point))
        &&& forall|line: &Line, span: Span| span.wf() ==> call_requires(self.slice, (line, span))
    }

    /// Every operation has one answer to a question, and the answer goes by
    /// the points of the line alone.
    pub open spec fn single_valued(&self) -> bool {
        &&& forall|a: &Line, b: &Line, m: Measures, n: Measures|
            a@ == b@ && #[trigger] self.measures(a, m) && #[trigger] self.measures(b, n) ==> m == n
        &&& forall|a: &Line, b: &Line, point: Coord, f: Option<u32>, g: Option<u32>|
            a@ == b@ && #[trigger] self.locates(a, point, f) && #[trigger] self.locates(b, point, g)
                ==> f == g
        &&& forall|a: &Line, b: &Line, span: Span, r: Option<Line>, q: Option<Line>|
            a@ == b@ && #[trigger] self.slices(a, span, r) && #[trigger] self.slices(b, span, q)
                ==> same_points(r, q)
    }

    /// The line is measured as a line that can be laid along itself: its
    /// length is above zero, its first point is located at its start and its
    /// last point at its end, and to cut it from start to end gives a line
    /// with the same points.
    pub open spec fn lies_along_itself(&self, line: &Line) -> bool {
        &&& forall|l: &Line, m: Measures| l@ == line@ && #[trigger] self.measures(l, m) ==> m.length > 0
        &&& forall|l: &Line, at: Option<u32>|
            l@ == line@ && #[trigger] self.locates(l, line@.first(), at) ==> at == Some(0u32)
        &&& forall|l: &Line, at: Option<u32>|
            l@ == line@ && #[trigger] self.locates(l, line@.last(), at) ==> at is Some && at.unwrap()
                >= FRACTION_ONE
        &&& forall|l: &Line, part: Option<Line>|
            l@ == line@ && #[trigger] self.slices(l, Span { start: 0, end: FRACTION_ONE }, part)
                ==> part is Some && part.unwrap()@ == line@
    }

    /// `measure` may return `measures` for `line`.
    pub open spec fn measures(&self, line: &Line, measures: Measures) -> bool {
        call_ensures(self.measure, (line,), measures)
    }

    /// `locate` may return `position` for `point` on `line`.
    pub open spec fn locates(&self, line: &Line, point: Coord, position: Option<u32>) -> bool {
        call_ensures(self.locate, (line, point), position)
    }

    /// `slice` may return `part` for `span` of `line`.
    pub open spec fn slices(&self, line: &Line, span: Span, part: Option<Line>) -> bool {
        call_ensures(self.slice, (line, span), part)
    }
}

} // verus!
