//! What holds of the matcher where every measuring operation has one answer
//! to a question: its results are determined, and a line that can be laid
//! along itself matches itself.

use vstd::prelude::*;
use crate::align::{aligned, lemma_aligned_once, sliced_to_match, span_between};
use crate::compare::{
    lemma_described_once, lemma_self_match, CompareLineStrings, Options, RATIO_ONE,
};
use crate::geometry::{Coord, Line};
use crate::index::SpatialIndex;
use crate::kernel::{Kernel, Span, FRACTION_ONE};
use crate::matcher::{compared, considered, passing, TargetDebug};
use crate::measures::Measures;

verus! {

/// With one answer to every question, comparing two lines has one result.
pub proof fn lemma_compared_once<M, L, S>(
    kernel: &Kernel<M, L, S>,
    main: &Line,
    candidate: &Line,
    metrics: CompareLineStrings,
    main_again: &Line,
    candidate_again: &Line,
    metrics_again: CompareLineStrings,
) where
    M: Fn(&Line) -> Measures,
    L: Fn(&Line, Coord) -> Option<u32>,
    S: Fn(&Line, Span) -> Option<Line>,

    requires
        kernel.single_valued(),
        main@ == main_again@,
        candidate@ == candidate_again@,
        compared(kernel, main, candidate, metrics),
        compared(kernel, main_again, candidate_again, metrics_again),
    ensures
        metrics == metrics_again,
{
    let (of_main, of_candidate) = choose|of_main: Measures, of_candidate: Measures|
        {
            &&& #[trigger] kernel.measures(main, of_main)
            &&& #[trigger] kernel.measures(candidate, of_candidate)
            &&& metrics.describes(of_main, of_candidate)
        };
    let (of_main_again, of_candidate_again) = choose|of_main: Measures, of_candidate: Measures|
        {
            &&& #[trigger] kernel.measures(main_again, of_main)
            &&& #[trigger] kernel.measures(candidate_again, of_candidate)
            &&& metrics_again.describes(of_main, of_candidate)
        };
    assert(of_main == of_main_again);
    assert(of_candidate == of_candidate_again);
    lemma_described_once(metrics, metrics_again, of_main, of_candidate);
}

/// With one answer to every question, considering a source for a target has
/// one outcome.
pub proof fn lemma_considered_once<M, L, S>(
    kernel: &Kernel<M, L, S>,
    source: &Line,
    target: &Line,
    outcome: Option<CompareLineStrings>,
    outcome_again: Option<CompareLineStrings>,
) where
    M: Fn(&Line) -> Measures,
    L: Fn(&Line, Coord) -> Option<u32>,
    S: Fn(&Line, Span) -> Option<Line>,

    requires
        kernel.single_valued(),
        considered(kernel, source, target, outcome),
        considered(kernel, source, target, outcome_again),
    ensures
        outcome == outcome_again,
{
    let pair: Option<(Line, Line)> = match outcome {
        None => None,
        Some(metrics) => {
            let (s, t) = choose|s: Line, t: Line|
                {
                    &&& #[trigger] aligned(kernel, source, target, Some((s, t)))
                    &&& compared(kernel, &t, &s, metrics)
                };
            Some((s, t))
        },
    };
    let pair_again: Option<(Line, Line)> = match outcome_again {
        None => None,
        Some(metrics) => {
            let (s, t) = choose|s: Line, t: Line|
                {
                    &&& #[trigger] aligned(kernel, source, target, Some((s, t)))
                    &&& compared(kernel, &t, &s, metrics)
                };
            Some((s, t))
        },
    };
    lemma_aligned_once(kernel, source, target, pair, source, target, pair_again);
    if outcome is Some {
        let (s, t) = pair.unwrap();
        let (u, v) = pair_again.unwrap();
        lemma_compared_once(kernel, &t, &s, outcome.unwrap(), &v, &u, outcome_again.unwrap());
    }
}

/// An identifier whose outcome matches is among those that pass.
pub proof fn lemma_passing_keeps<T>(
    ids: Seq<T>,
    outcomes: Seq<Option<CompareLineStrings>>,
    opts: Options,
    j: int,
)
    requires
        ids.len() == outcomes.len(),
        0 <= j < ids.len(),
        opts.takes(outcomes[j]),
    ensures
        passing(ids, outcomes, opts).contains(ids[j]),
    decreases ids.len(),
{
    let before = passing(ids.drop_last(), outcomes.drop_last(), opts);
    let all = passing(ids, outcomes, opts);
    if j == ids.len() - 1 {
        assert(all[all.len() - 1] == ids[j]);
    } else {
        lemma_passing_keeps(ids.drop_last(), outcomes.drop_last(), opts, j);
        let k = choose|k: int| 0 <= k < before.len() && before[k] == ids.drop_last()[j];
        assert(all[k] == ids[j]);
    }
}

/// A line that can be laid along itself matches a line with the same
/// points: considering the one for the other gives metrics that are within
/// any limits with a ratio limit of one or more.
pub proof fn lemma_same_points_match<M, L, S>(
    kernel: &Kernel<M, L, S>,
    opts: Options,
    source: &Line,
    target: &Line,
    outcome: Option<CompareLineStrings>,
) where
    M: Fn(&Line) -> Measures,
    L: Fn(&Line, Coord) -> Option<u32>,
    S: Fn(&Line, Span) -> Option<Line>,

    requires
        kernel.single_valued(),
        kernel.lies_along_itself(source),
        source@ == target@,
        opts.length_ratio_threshold >= RATIO_ONE,
        considered(kernel, source, target, outcome),
    ensures
        opts.takes(outcome),
        outcome.unwrap().angle_diff == 0,
        outcome.unwrap().length_ratio == Some(RATIO_ONE as u128),
        outcome.unwrap().midpt_dist == 0,
{
    let whole = Span { start: 0, end: FRACTION_ONE };
    // The source is the one that is cut, and the cut leaves it whole.
    assert forall|pair: Option<(Line, Line)>| #[trigger]
        aligned(kernel, source, target, pair) implies pair is Some && pair.unwrap().0@ == source@
        && pair.unwrap().1@ == target@ by {
        let (of_source, of_target) = choose|of_source: Measures, of_target: Measures|
            {
                &&& #[trigger] kernel.measures(source, of_source)
                &&& #[trigger] kernel.measures(target, of_target)
                &&& if of_source.length >= of_target.length {
                    match pair {
                        Some((s, t)) => t@ == target@ && sliced_to_match(
                            kernel,
                            source,
                            target,
                            Some(s),
                        ),
                        None => sliced_to_match(kernel, source, target, None),
                    }
                } else {
                    match pair {
                        Some((s, t)) => s@ == source@ && sliced_to_match(
                            kernel,
                            target,
                            source,
                            Some(t),
                        ),
                        None => sliced_to_match(kernel, target, source, None),
                    }
                }
            };
        assert(of_source == of_target);
        let part = match pair {
            Some((s, t)) => Some(s),
            None => None,
        };
        assert(sliced_to_match(kernel, source, target, part));
        let (first, second) = choose|first: Option<u32>, second: Option<u32>|
            {
                &&& #[trigger] kernel.locates(source, target@.first(), first)
                &&& #[trigger] kernel.locates(source, target@.last(), second)
                &&& match span_between(first, second) {
                    Some(span) => kernel.slices(source, span, part),
                    None => part is None,
                }
            };
        assert(span_between(first, second) == Some(whole));
    }
    match outcome {
        None => {
            assert(aligned(kernel, source, target, None));
        },
        Some(metrics) => {
            let (s, t) = choose|s: Line, t: Line|
                {
                    &&& #[trigger] aligned(kernel, source, target, Some((s, t)))
                    &&& compared(kernel, &t, &s, metrics)
                };
            let (of_main, of_candidate) = choose|of_main: Measures, of_candidate: Measures|
                {
                    &&& #[trigger] kernel.measures(&t, of_main)
                    &&& #[trigger] kernel.measures(&s, of_candidate)
                    &&& metrics.describes(of_main, of_candidate)
                };
            assert(of_main == of_candidate);
            lemma_self_match(opts, metrics, of_main);
        },
    }
}

impl<T: Copy> SpatialIndex<T> {
    /// A line that can be laid along itself matches itself: a source whose
    /// points are those of the target is among the target's matches, under
    /// any buffer and under any limits with a ratio limit of one or more.
    pub proof fn lemma_matches_itself<M, L, S>(
        &self,
        kernel: &Kernel<M, L, S>,
        opts: Options,
        target: &Line,
        matching: Seq<T>,
        p: usize,
    ) where
        M: Fn(&Line) -> Measures,
        L: Fn(&Line, Coord) -> Option<u32>,
        S: Fn(&Line, Span) -> Option<Line>,

        requires
            self.wf(),
            p < self@.len(),
            target@ == self@[p as int].1@,
            kernel.single_valued(),
            kernel.lies_along_itself(target),
            opts.length_ratio_threshold >= RATIO_ONE,
            self.matches(kernel, opts, target, matching),
        ensures
            matching.contains(self@[p as int].0),
    {
        let positions = self.candidates(target.bounds().buffered(opts.buffer as nat));
        let outcomes = choose|outcomes: Seq<Option<CompareLineStrings>>|
            {
                &&& #[trigger] self.outcomes_at(kernel, target, positions, outcomes)
                &&& matching == passing(self.ids_at(positions), outcomes, opts)
            };
        self.lemma_own_candidate(*target, opts.buffer, p);
        let j = choose|j: int| 0 <= j < positions.len() && positions[j] == p;
        lemma_same_points_match(kernel, opts, &self@[p as int].1, target, outcomes[j]);
        lemma_passing_keeps(self.ids_at(positions), outcomes, opts, j);
    }

    /// With one answer to every question, considering the sources at given
    /// positions for a target has one sequence of outcomes.
    pub proof fn lemma_outcomes_once<M, L, S>(
        &self,
        kernel: &Kernel<M, L, S>,
        target: &Line,
        positions: Seq<usize>,
        outcomes: Seq<Option<CompareLineStrings>>,
        positions_again: Seq<usize>,
        outcomes_again: Seq<Option<CompareLineStrings>>,
        j: int,
    ) where
        M: Fn(&Line) -> Measures,
        L: Fn(&Line, Coord) -> Option<u32>,
        S: Fn(&Line, Span) -> Option<Line>,

        requires
            kernel.single_valued(),
            self.outcomes_at(kernel, target, positions, outcomes),
            self.outcomes_at(kernel, target, positions_again, outcomes_again),
            0 <= j < positions.len(),
            j < positions_again.len(),
            positions[j] == positions_again[j],
        ensures
            outcomes[j] == outcomes_again[j],
    {
        lemma_considered_once(
            kernel,
            &self@[positions[j] as int].1,
            target,
            outcomes[j],
            outcomes_again[j],
        );
    }

    /// With one answer to every question, matching a target has one result:
    /// the contract of `match_linestrings` leaves nothing open but what is
    /// measured.
    pub proof fn lemma_matches_once<M, L, S>(
        &self,
        kernel: &Kernel<M, L, S>,
        opts: Options,
        target: &Line,
        matching: Seq<T>,
        matching_again: Seq<T>,
    ) where
        M: Fn(&Line) -> Measures,
        L: Fn(&Line, Coord) -> Option<u32>,
        S: Fn(&Line, Span) -> Option<Line>,

        requires
            kernel.single_valued(),
            self.matches(kernel, opts, target, matching),
            self.matches(kernel, opts, target, matching_again),
        ensures
            matching == matching_again,
    {
        let positions = self.candidates(target.bounds().buffered(opts.buffer as nat));
        let outcomes = choose|outcomes: Seq<Option<CompareLineStrings>>|
            {
                &&& #[trigger] self.outcomes_at(kernel, target, positions, outcomes)
                &&& matching == passing(self.ids_at(positions), outcomes, opts)
            };
        let outcomes_again = choose|outcomes: Seq<Option<CompareLineStrings>>|
            {
                &&& #[trigger] self.outcomes_at(kernel, target, positions, outcomes)
                &&& matching_again == passing(self.ids_at(positions), outcomes, opts)
            };
        assert forall|j: int| 0 <= j < positions.len() implies outcomes[j] == outcomes_again[j] by {
            self.lemma_outcomes_once(
                kernel,
                target,
                positions,
                outcomes,
                positions,
                outcomes_again,
                j,
            );
        }
        assert(outcomes =~= outcomes_again);
    }

    /// With one answer to every question, looking for the first match of a
    /// target has one result.
    pub proof fn lemma_first_match_once<M, L, S>(
        &self,
        kernel: &Kernel<M, L, S>,
        opts: Options,
        target: &Line,
        look_into: bool,
        found: TargetDebug<T>,
        found_again: TargetDebug<T>,
    ) where
        M: Fn(&Line) -> Measures,
        L: Fn(&Line, Coord) -> Option<u32>,
        S: Fn(&Line, Span) -> Option<Line>,

        requires
            kernel.single_valued(),
            self.first_match(kernel, opts, target, look_into, found),
            self.first_match(kernel, opts, target, look_into, found_again),
        ensures
            found.best_hit == found_again.best_hit,
            found.considered@ == found_again.considered@,
    {
        let positions = self.candidates(target.bounds().buffered(opts.buffer as nat));
        let a = choose|outcomes: Seq<Option<CompareLineStrings>>|
            self.first_match_by(kernel, opts, target, look_into, found, outcomes);
        let b = choose|outcomes: Seq<Option<CompareLineStrings>>|
            self.first_match_by(kernel, opts, target, look_into, found_again, outcomes);
        let shared = if a.len() <= b.len() { a.len() } else { b.len() };
        assert forall|j: int| 0 <= j < shared implies a[j] == b[j] by {
            self.lemma_outcomes_once(
                kernel,
                target,
                positions.take(a.len() as int),
                a,
                positions.take(b.len() as int),
                b,
                j,
            );
        }
        if a.len() < b.len() {
            // The shorter run stopped at a match; the longer one went past it.
            assert(a.len() > 0 && opts.takes(a.last()));
            assert(b[a.len() - 1] == a.last());
        } else if b.len() < a.len() {
            assert(b.len() > 0 && opts.takes(b.last()));
            assert(a[b.len() - 1] == b.last());
        } else {
            assert(a =~= b);
        }
    }
}

} // verus!
