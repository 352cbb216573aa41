//! Cutting the longer of two lines down to the stretch that lies along the
//! shorter.

use vstd::prelude::*;
use crate::geometry::{Coord, Line};
use crate::kernel::{same_points, Kernel, Span, FRACTION_ONE};
use crate::measures::Measures;

verus! {

/// A position along a line, brought onto the line.
pub open spec fn clamped(position: u32) -> u32 {
    if position > FRACTION_ONE {
        FRACTION_ONE
    } else {
        position
    }
}

/// The stretch between two positions along a line, the lower one first.
/// There is none where a position is missing or where the two coincide.
pub open spec fn span_between(first: Option<u32>, second: Option<u32>) -> Option<Span> {
    match (first, second) {
        (Some(a), Some(b)) => {
            if clamped(a) < clamped(b) {
                Some(Span { start: clamped(a), end: clamped(b) })
            } else if clamped(b) < clamped(a) {
                Some(Span { start: clamped(b), end: clamped(a) })
            } else {
                None
            }
        },
        _ => None,
    }
}

/// The stretch between two positions starts before it ends, and ends on the
/// line; two positions that come to the same place on the line, as those of
/// a line that lies wholly before the start or wholly beyond the end do,
/// have no stretch between them.
pub proof fn lemma_span_in_order(first: Option<u32>, second: Option<u32>)
    ensures
        span_between(first, second) is Some ==> span_between(first, second).unwrap().wf(),
        span_between(first, second) is Some <==> first is Some && second is Some && clamped(
            first.unwrap(),
        ) != clamped(second.unwrap()),
        span_between(first, second) == span_between(second, first),
{
}

/// The stretch of a line between the positions found for the two ends of
/// another line.
pub fn span_to_cut(first: Option<u32>, second: Option<u32>) -> (r: Option<Span>)
    ensures
        r == span_between(first, second),
        r is Some ==> r.unwrap().wf(),
        r is Some ==> first is Some && second is Some,
        first is Some && second is Some && clamped(first.unwrap()) != clamped(second.unwrap())
            ==> r is Some,
{
    match (first, second) {
        (Some(a), Some(b)) => {
            let a: u32 = if a > FRACTION_ONE { FRACTION_ONE } else { a };
            let b: u32 = if b > FRACTION_ONE { FRACTION_ONE } else { b };
            if a < b {
                Some(Span { start: a, end: b })
            } else if b < a {
                Some(Span { start: b, end: a })
            } else {
                None
            }
        },
        _ => None,
    }
}

/// `part` is what cutting `a` down to `b` may give: the two ends of `b` are
/// located on `a`, and `a` is cut to the stretch between the two positions.
pub open spec fn sliced_to_match<M, L, S>(
    kernel: &Kernel<M, L, S>,
    a: &Line,
    b: &Line,
    part: Option<Line>,
) -> bool where
    M: Fn(&Line) -> Measures,
    L: Fn(&Line, Coord) -> Option<u32>,
    S: Fn(&Line, Span) -> Option<Line>,
 {
    exists|first: Option<u32>, second: Option<u32>|
        {
            &&& #[trigger] kernel.locates(a, b@.first(), first)
            &&& #[trigger] kernel.locates(a, b@.last(), second)
            &&& match span_between(first, second) {
                Some(span) => kernel.slices(a, span, part),
                None => part is None,
            }
        }
}

/// Cuts `a` down to the stretch that lies along `b`.
pub fn slice_line_to_match<M, L, S>(kernel: &Kernel<M, L, S>, a: &Line, b: &Line) -> (r: Option<
    Line,
>) where
    M: Fn(&Line) -> Measures,
    L: Fn(&Line, Coord) -> Option<u32>,
    S: Fn(&Line, Span) -> Option<Line>,

    requires
        kernel.callable(),
    ensures
        sliced_to_match(kernel, a, b, r),
{
    let first = (kernel.locate)(a, b.first());
    let second = (kernel.locate)(a, b.last());
    match span_to_cut(first, second) {
        Some(span) => {
            let part = (kernel.slice)(a, span);
            assert(kernel.locates(a, b@.first(), first) && kernel.locates(a, b@.last(), second));
            part
        },
        None => {
            assert(kernel.locates(a, b@.first(), first) && kernel.locates(a, b@.last(), second));
            None
        },
    }
}

/// With one answer to every question, cutting a line down to another has one
/// result.
pub proof fn lemma_sliced_once<M, L, S>(
    kernel: &Kernel<M, L, S>,
    a: &Line,
    b: &Line,
    part: Option<Line>,
    a_again: &Line,
    b_again: &Line,
    part_again: Option<Line>,
) where
    M: Fn(&Line) -> Measures,
    L: Fn(&Line, Coord) -> Option<u32>,
    S: Fn(&Line, Span) -> Option<Line>,

    requires
        kernel.single_valued(),
        a@ == a_again@,
        b@ == b_again@,
        sliced_to_match(kernel, a, b, part),
        sliced_to_match(kernel, a_again, b_again, part_again),
    ensures
        same_points(part, part_again),
{
    let (first, second) = choose|first: Option<u32>, second: Option<u32>|
        {
            &&& #[trigger] kernel.locates(a, b@.first(), first)
            &&& #[trigger] kernel.locates(a, b@.last(), second)
            &&& match span_between(first, second) {
                Some(span) => kernel.slices(a, span, part),
                None => part is None,
            }
        };
    let (first_again, second_again) = choose|first: Option<u32>, second: Option<u32>|
        {
            &&& #[trigger] kernel.locates(a_again, b_again@.first(), first)
            &&& #[trigger] kernel.locates(a_again, b_again@.last(), second)
            &&& match span_between(first, second) {
                Some(span) => kernel.slices(a_again, span, part_again),
                None => part_again is None,
            }
        };
    assert(first == first_again);
    assert(second == second_again);
}

/// `pair` is what aligning a source with a target may give: both are
/// measured, the one that is at least as long as the other is cut down to
/// it (the source where the lengths are equal), and the other is kept.
pub open spec fn aligned<M, L, S>(
    kernel: &Kernel<M, L, S>,
    source: &Line,
    target: &Line,
    pair: Option<(Line, Line)>,
) -> bool where
    M: Fn(&Line) -> Measures,
    L: Fn(&Line, Coord) -> Option<u32>,
    S: Fn(&Line, Span) -> Option<Line>,
 {
    exists|of_source: Measures, of_target: Measures|
        {
            &&& #[trigger] kernel.measures(source, of_source)
            &&& #[trigger] kernel.measures(target, of_target)
            &&& if of_source.length >= of_target.length {
                match pair {
                    Some((s, t)) => t@ == target@ && sliced_to_match(kernel, source, target, Some(s)),
                    None => sliced_to_match(kernel, source, target, None),
                }
            } else {
                match pair {
                    Some((s, t)) => s@ == source@ && sliced_to_match(kernel, target, source, Some(t)),
                    None => sliced_to_match(kernel, target, source, None),
                }
            }
        }
}

/// Both are nothing, or both are pairs of lines with the same points.
pub open spec fn same_pair(a: Option<(Line, Line)>, b: Option<(Line, Line)>) -> bool {
    match (a, b) {
        (Some((s, t)), Some((u, v))) => s@ == u@ && t@ == v@,
        (None, None) => true,
        _ => false,
    }
}

/// With one answer to every question, aligning a source with a target has
/// one result.
pub proof fn lemma_aligned_once<M, L, S>(
    kernel: &Kernel<M, L, S>,
    source: &Line,
    target: &Line,
    pair: Option<(Line, Line)>,
    source_again: &Line,
    target_again: &Line,
    pair_again: Option<(Line, Line)>,
) where
    M: Fn(&Line) -> Measures,
    L: Fn(&Line, Coord) -> Option<u32>,
    S: Fn(&Line, Span) -> Option<Line>,

    requires
        kernel.single_valued(),
        source@ == source_again@,
        target@ == target_again@,
        aligned(kernel, source, target, pair),
        aligned(kernel, source_again, target_again, pair_again),
    ensures
        same_pair(pair, pair_again),
{
    let (of_source, of_target) = choose|of_source: Measures, of_target: Measures|
        {
            &&& #[trigger] kernel.measures(source, of_source)
            &&& #[trigger] kernel.measures(target, of_target)
            &&& if of_source.length >= of_target.length {
                match pair {
                    Some((s, t)) => t@ == target@ && sliced_to_match(kernel, source, target, Some(s)),
                    None => sliced_to_match(kernel, source, target, None),
                }
            } else {
                match pair {
                    Some((s, t)) => s@ == source@ && sliced_to_match(kernel, target, source, Some(t)),
                    None => sliced_to_match(kernel, target, source, None),
                }
            }
        };
    let (of_source_again, of_target_again) = choose|of_source: Measures, of_target: Measures|
        {
            &&& #[trigger] kernel.measures(source_again, of_source)
            &&& #[trigger] kernel.measures(target_again, of_target)
            &&& if of_source.length >= of_target.length {
                match pair_again {
                    Some((s, t)) => t@ == target_again@ && sliced_to_match(
                        kernel,
                        source_again,
                        target_again,
                        Some(s),
                    ),
                    None => sliced_to_match(kernel, source_again, target_again, None),
                }
            } else {
                match pair_again {
                    Some((s, t)) => s@ == source_again@ && sliced_to_match(
                        kernel,
                        target_again,
                        source_again,
                        Some(t),
                    ),
                    None => sliced_to_match(kernel, target_again, source_again, None),
                }
            }
        };
    assert(of_source == of_source_again);
    assert(of_target == of_target_again);
    let cut = match pair {
        Some((s, t)) => if of_source.length >= of_target.length { Some(s) } else { Some(t) },
        None => None,
    };
    let cut_again = match pair_again {
        Some((s, t)) => if of_source.length >= of_target.length { Some(s) } else { Some(t) },
        None => None,
    };
    if of_source.length >= of_target.length {
        lemma_sliced_once(kernel, source, target, cut, source_again, target_again, cut_again);
    } else {
        lemma_sliced_once(kernel, target, source, cut, target_again, source_again, cut_again);
    }
}

/// Aligns a source with a target: the longer of the two is cut down to the
/// stretch that lies along the shorter.
pub fn slice_lines_to_match<M, L, S>(
    kernel: &Kernel<M, L, S>,
    source: &Line,
    target: &Line,
) -> (r: Option<(Line, Line)>) where
    M: Fn(&Line) -> Measures,
    L: Fn(&Line, Coord) -> Option<u32>,
    S: Fn(&Line, Span) -> Option<Line>,

    requires
        kernel.callable(),
    ensures
        aligned(kernel, source, target, r),
{
    let of_source = (kernel.measure)(source);
    let of_target = (kernel.measure)(target);
    assert(kernel.measures(source, of_source) && kernel.measures(target, of_target));
    if of_source.length >= of_target.length {
        match slice_line_to_match(kernel, source, target) {
            Some(smaller_source) => Some((smaller_source, target.clone())),
            None => None,
        }
    } else {
        match slice_line_to_match(kernel, target, source) {
            Some(smaller_target) => Some((source.clone(), smaller_target)),
            None => None,
        }
    }
}

} // verus!
