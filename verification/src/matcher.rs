//! The matcher: for every target, the sources that pass for the same feature.

use vstd::prelude::*;
use crate::align::{aligned, slice_lines_to_match};
use crate::compare::{CompareLineStrings, Options};
use crate::geometry::{Coord, Line};
use crate::index::SpatialIndex;
use crate::kernel::{Kernel, Span};
use crate::measures::Measures;

verus! {

/// For one target, the identifiers of all the sources that match it.
#[derive(Debug)]
pub struct TargetMatches<T: Copy> {
    pub matching_sources: Vec<T>,
}

/// `metrics` is what comparing two lines may give: both are measured, and
/// the metrics are those of the two measures.
pub open spec fn compared<M, L, S>(
    kernel: &Kernel<M, L, S>,
    main: &Line,
    candidate: &Line,
    metrics: CompareLineStrings,
) -> bool where
    M: Fn(&Line) -> Measures,
    L: Fn(&Line, Coord) -> Option<u32>,
    S: Fn(&Line, Span) -> Option<Line>,
 {
    exists|of_main: Measures, of_candidate: Measures|
        {
            &&& #[trigger] kernel.measures(main, of_main)
            &&& #[trigger] kernel.measures(candidate, of_candidate)
            &&& metrics.describes(of_main, of_candidate)
        }
}

/// `outcome` is what considering a source for a target may give: nothing
/// where the two cannot be aligned, else the metrics of the aligned pair,
/// with the target's side as the main line.
pub open spec fn considered<M, L, S>(
    kernel: &Kernel<M, L, S>,
    source: &Line,
    target: &Line,
    outcome: Option<CompareLineStrings>,
) -> bool where
    M: Fn(&Line) -> Measures,
    L: Fn(&Line, Coord) -> Option<u32>,
    S: Fn(&Line, Span) -> Option<Line>,
 {
    match outcome {
        None => aligned(kernel, source, target, None),
        Some(metrics) => exists|smaller_source: Line, smaller_target: Line|
            {
                &&& #[trigger] aligned(
                    kernel,
                    source,
                    target,
                    Some((smaller_source, smaller_target)),
                )
                &&& compared(kernel, &smaller_target, &smaller_source, metrics)
            },
    }
}

/// Considers a source for a target: aligns the two and compares the aligned
/// pair.
pub fn consider<M, L, S>(kernel: &Kernel<M, L, S>, source: &Line, target: &Line) -> (r: Option<
    CompareLineStrings,
>) where
    M: Fn(&Line) -> Measures,
    L: Fn(&Line, Coord) -> Option<u32>,
    S: Fn(&Line, Span) -> Option<Line>,

    requires
        kernel.callable(),
    ensures
        considered(kernel, source, target, r),
{
    match slice_lines_to_match(kernel, source, target) {
        Some((smaller_source, smaller_target)) => {
            let of_target = (kernel.measure)(&smaller_target);
            let of_source = (kernel.measure)(&smaller_source);
            let metrics = CompareLineStrings::new(&of_target, &of_source);
            assert(kernel.measures(&smaller_target, of_target) && kernel.measures(
                &smaller_source,
                of_source,
            ));
            assert(aligned(kernel, source, target, Some((smaller_source, smaller_target))));
            Some(metrics)
        },
        None => None,
    }
}

impl Options {
    /// A source with this outcome matches: it could be aligned, and the
    /// metrics of the aligned pair are within the limits.
    pub open spec fn takes(self, outcome: Option<CompareLineStrings>) -> bool {
        outcome is Some && self.passes(outcome.unwrap())
    }
}

/// Of identifiers and their outcomes, the identifiers whose outcome matches,
/// in the order given.
pub open spec fn passing<T>(
    ids: Seq<T>,
    outcomes: Seq<Option<CompareLineStrings>>,
    opts: Options,
) -> Seq<T>
    decreases ids.len(),
{
    if ids.len() == 0 {
        Seq::empty()
    } else {
        let before = passing(ids.drop_last(), outcomes.drop_last(), opts);
        if opts.takes(outcomes.last()) {
            before.push(ids.last())
        } else {
            before
        }
    }
}

impl<T: Copy> SpatialIndex<T> {
    /// The identifiers of the sources at the given positions.
    pub open spec fn ids_at(&self, positions: Seq<usize>) -> Seq<T> {
        Seq::new(positions.len(), |j: int| self@[positions[j] as int].0)
    }

    /// `outcomes` is what considering the sources at the given positions
    /// for a target, one after the other, may give.
    pub open spec fn outcomes_at<M, L, S>(
        &self,
        kernel: &Kernel<M, L, S>,
        target: &Line,
        positions: Seq<usize>,
        outcomes: Seq<Option<CompareLineStrings>>,
    ) -> bool where
        M: Fn(&Line) -> Measures,
        L: Fn(&Line, Coord) -> Option<u32>,
        S: Fn(&Line, Span) -> Option<Line>,
     {
        &&& outcomes.len() == positions.len()
        &&& forall|j: int|
            0 <= j < positions.len() ==> considered(
                kernel,
                &self@[positions[j] as int].1,
                target,
                #[trigger] outcomes[j],
            )
    }

    /// `matching` is what matching a target may give: the sources whose box
    /// intersects the target's box, grown by the buffer, are considered in
    /// the order in which the search meets them, and `matching` holds the
    /// identifiers of those that match, in that order.
    pub open spec fn matches<M, L, S>(
        &self,
        kernel: &Kernel<M, L, S>,
        opts: Options,
        target: &Line,
        matching: Seq<T>,
    ) -> bool where
        M: Fn(&Line) -> Measures,
        L: Fn(&Line, Coord) -> Option<u32>,
        S: Fn(&Line, Span) -> Option<Line>,
     {
        let positions = self.candidates(target.bounds().buffered(opts.buffer as nat));
        exists|outcomes: Seq<Option<CompareLineStrings>>|
            {
                &&& #[trigger] self.outcomes_at(kernel, target, positions, outcomes)
                &&& matching == passing(self.ids_at(positions), outcomes, opts)
            }
    }
}

/// For every target, in order, all the sources that match it.
pub fn match_linestrings<T: Copy, M, L, S>(
    index: &SpatialIndex<T>,
    targets: &Vec<Line>,
    opts: &Options,
    kernel: &Kernel<M, L, S>,
) -> (output: Vec<TargetMatches<T>>) where
    M: Fn(&Line) -> Measures,
    L: Fn(&Line, Coord) -> Option<u32>,
    S: Fn(&Line, Span) -> Option<Line>,

    requires
        kernel.callable(),
    ensures
        index.wf(),
        output@.len() == targets@.len(),
        forall|i: int|
            0 <= i < targets@.len() ==> index.matches(
                kernel,
                *opts,
                &targets@[i],
                (#[trigger] output@[i]).matching_sources@,
            ),
{
    proof {
        use_type_invariant(index);
    }
    let mut output: Vec<TargetMatches<T>> = Vec::new();
    let mut i: usize = 0;
    while i < targets.len()
        invariant
            kernel.callable(),
            i <= targets@.len(),
            output@.len() == i,
            forall|k: int|
                0 <= k < i ==> index.matches(
                    kernel,
                    *opts,
                    &targets@[k],
                    (#[trigger] output@[k]).matching_sources@,
                ),
        decreases targets@.len() - i,
    {
        let target = &targets[i];
        let candidates = index.candidates_for(target, opts.buffer);
        let mut matching_sources: Vec<T> = Vec::new();
        let ghost mut outcomes: Seq<Option<CompareLineStrings>> = Seq::empty();
        let mut j: usize = 0;
        while j < candidates.len()
            invariant
                kernel.callable(),
                j <= candidates@.len(),
                forall|k: int| 0 <= k < candidates@.len() ==> (#[trigger] candidates@[k]) < index@.len(),
                index.outcomes_at(kernel, target, candidates@.take(j as int), outcomes),
                matching_sources@ == passing(
                    index.ids_at(candidates@.take(j as int)),
                    outcomes,
                    *opts,
                ),
            decreases candidates@.len() - j,
        {
            let position = candidates[j];
            let outcome = consider(kernel, index.line(position), target);
            let accepted = match outcome {
                Some(metrics) => opts.admits(&metrics),
                None => false,
            };
            if accepted {
                matching_sources.push(index.id(position));
            }
            proof {
                let before = candidates@.take(j as int);
                let upto = candidates@.take(j + 1);
                let longer = outcomes.push(outcome);
                assert(upto.drop_last() == before);
                assert(longer.drop_last() == outcomes);
                assert(index.ids_at(upto).drop_last() == index.ids_at(before));
                assert(index.ids_at(upto).last() == index@[position as int].0);
                assert forall|k: int| 0 <= k < upto.len() implies considered(
                    kernel,
                    &index@[upto[k] as int].1,
                    target,
                    #[trigger] longer[k],
                ) by {
                    if k < j {
                        assert(longer[k] == outcomes[k]);
                        assert(upto[k] == before[k]);
                    }
                }
                outcomes = longer;
            }
            j = j + 1;
        }
        proof {
            assert(candidates@.take(j as int) == candidates@);
        }
        output.push(TargetMatches { matching_sources });
        i = i + 1;
    }
    output
}

/// One source that was considered for a target.
#[derive(Debug)]
pub struct Considered<T: Copy> {
    /// The source's position in the index.
    pub position: usize,
    /// The source's identifier.
    pub id: T,
    /// The metrics of the aligned pair; nothing where the source could not
    /// be aligned with the target.
    pub metrics: Option<CompareLineStrings>,
}

/// For one target, the first source that matches it, and what there is to
/// look into where none does.
#[derive(Debug)]
pub struct TargetDebug<T: Copy> {
    /// The identifier of the first source that matches.
    pub best_hit: Option<T>,
    /// Every source that was considered, in order. It is filled in only for
    /// a target that no source matches and that is to be looked into.
    pub considered: Vec<Considered<T>>,
}

/// Whether the target at a position is to be looked into: every target,
/// or only the one that was asked for.
pub open spec fn wanted(only_debug_idx: Option<usize>, position: usize) -> bool {
    only_debug_idx is None || only_debug_idx == Some(position)
}

impl<T: Copy> SpatialIndex<T> {
    /// The sources at the given positions, each with its outcome.
    pub open spec fn paired(
        &self,
        positions: Seq<usize>,
        outcomes: Seq<Option<CompareLineStrings>>,
    ) -> Seq<Considered<T>> {
        Seq::new(
            positions.len(),
            |j: int|
                Considered {
                    position: positions[j],
                    id: self@[positions[j] as int].0,
                    metrics: outcomes[j],
                },
        )
    }

    /// `found` is what looking for the first match of a target may give:
    /// the sources whose box intersects the target's box, grown by the
    /// buffer, are considered in the order in which the search meets them,
    /// up to the first that matches. That one is the hit. Where none
    /// matches there is no hit, and if the target is to be looked into,
    /// `found` lists every source considered with its outcome.
    pub open spec fn first_match<M, L, S>(
        &self,
        kernel: &Kernel<M, L, S>,
        opts: Options,
        target: &Line,
        look_into: bool,
        found: TargetDebug<T>,
    ) -> bool where
        M: Fn(&Line) -> Measures,
        L: Fn(&Line, Coord) -> Option<u32>,
        S: Fn(&Line, Span) -> Option<Line>,
     {
        exists|outcomes: Seq<Option<CompareLineStrings>>|
            self.first_match_by(kernel, opts, target, look_into, found, outcomes)
    }

    /// `found` is what looking for the first match of a target gives where
    /// the sources considered have the given outcomes.
    pub open spec fn first_match_by<M, L, S>(
        &self,
        kernel: &Kernel<M, L, S>,
        opts: Options,
        target: &Line,
        look_into: bool,
        found: TargetDebug<T>,
        outcomes: Seq<Option<CompareLineStrings>>,
    ) -> bool where
        M: Fn(&Line) -> Measures,
        L: Fn(&Line, Coord) -> Option<u32>,
        S: Fn(&Line, Span) -> Option<Line>,
     {
        let positions = self.candidates(target.bounds().buffered(opts.buffer as nat));
        &&& outcomes.len() <= positions.len()
        &&& self.outcomes_at(kernel, target, positions.take(outcomes.len() as int), outcomes)
        &&& forall|j: int| 0 <= j < outcomes.len() - 1 ==> !opts.takes(#[trigger] outcomes[j])
        &&& if outcomes.len() > 0 && opts.takes(outcomes.last()) {
            &&& found.best_hit == Some(self@[positions[outcomes.len() - 1] as int].0)
            &&& found.considered@.len() == 0
        } else {
            &&& outcomes.len() == positions.len()
            &&& found.best_hit is None
            &&& found.considered@ == if look_into {
                self.paired(positions, outcomes)
            } else {
                Seq::empty()
            }
        }
    }
}

/// For every target, in order, the first source that matches it. Where a
/// target has none and is to be looked into (every such target, or only
/// the one at `only_debug_idx`), the sources considered for it are listed
/// with their metrics.
pub fn debug_match_linestrings<T: Copy, M, L, S>(
    index: &SpatialIndex<T>,
    targets: &Vec<Line>,
    opts: &Options,
    kernel: &Kernel<M, L, S>,
    only_debug_idx: Option<usize>,
) -> (output: Vec<TargetDebug<T>>) where
    M: Fn(&Line) -> Measures,
    L: Fn(&Line, Coord) -> Option<u32>,
    S: Fn(&Line, Span) -> Option<Line>,

    requires
        kernel.callable(),
    ensures
        index.wf(),
        output@.len() == targets@.len(),
        forall|i: int|
            0 <= i < targets@.len() ==> index.first_match(
                kernel,
                *opts,
                &targets@[i],
                wanted(only_debug_idx, i as usize),
                #[trigger] output@[i],
            ),
{
    proof {
        use_type_invariant(index);
    }
    let mut output: Vec<TargetDebug<T>> = Vec::new();
    let mut i: usize = 0;
    while i < targets.len()
        invariant
            kernel.callable(),
            i <= targets@.len(),
            output@.len() == i,
            forall|k: int|
                0 <= k < i ==> index.first_match(
                    kernel,
                    *opts,
                    &targets@[k],
                    wanted(only_debug_idx, k as usize),
                    #[trigger] output@[k],
                ),
        decreases targets@.len() - i,
    {
        let target = &targets[i];
        let candidates = index.candidates_for(target, opts.buffer);
        let mut best_hit: Option<T> = None;
        let mut seen: Vec<Considered<T>> = Vec::new();
        let ghost mut outcomes: Seq<Option<CompareLineStrings>> = Seq::empty();
        let mut j: usize = 0;
        while j < candidates.len() && best_hit.is_none()
            invariant
                kernel.callable(),
                j <= candidates@.len(),
                forall|k: int| 0 <= k < candidates@.len() ==> (#[trigger] candidates@[k]) < index@.len(),
                outcomes.len() == j,
                index.outcomes_at(kernel, target, candidates@.take(j as int), outcomes),
                seen@ == index.paired(candidates@.take(j as int), outcomes),
                forall|k: int| 0 <= k < j - 1 ==> !opts.takes(#[trigger] outcomes[k]),
                match best_hit {
                    Some(id) => j > 0 && opts.takes(outcomes.last()) && id == index@[candidates@[j
                        - 1] as int].0,
                    None => j == 0 || !opts.takes(outcomes.last()),
                },
            decreases candidates@.len() - j,
        {
            let position = candidates[j];
            let id = index.id(position);
            let outcome = consider(kernel, index.line(position), target);
            let accepted = match outcome {
                Some(metrics) => opts.admits(&metrics),
                None => false,
            };
            if accepted {
                best_hit = Some(id);
            }
            seen.push(Considered { position, id, metrics: outcome });
            proof {
                let before = candidates@.take(j as int);
                let upto = candidates@.take(j + 1);
                let longer = outcomes.push(outcome);
                assert forall|k: int| 0 <= k < upto.len() implies considered(
                    kernel,
                    &index@[upto[k] as int].1,
                    target,
                    #[trigger] longer[k],
                ) by {
                    if k < j {
                        assert(longer[k] == outcomes[k]);
                        assert(upto[k] == before[k]);
                    }
                }
                assert forall|k: int| 0 <= k < j implies !opts.takes(#[trigger] longer[k]) by {
                    assert(longer[k] == outcomes[k]);
                    if k == j - 1 {
                        assert(outcomes.last() == outcomes[k]);
                    }
                }
                assert(seen@ =~= index.paired(upto, longer));
                outcomes = longer;
            }
            j = j + 1;
        }
        let look_into = match only_debug_idx {
            Some(only) => only == i,
            None => true,
        };
        let found = if best_hit.is_none() && look_into {
            TargetDebug { best_hit, considered: seen }
        } else {
            TargetDebug { best_hit, considered: Vec::new() }
        };
        proof {
            if best_hit is None {
                assert(candidates@.take(j as int) == candidates@);
            }
            assert(index.first_match_by(
                kernel,
                *opts,
                target,
                wanted(only_debug_idx, i),
                found,
                outcomes,
            ));
        }
        output.push(found);
        i = i + 1;
    }
    output
}

/// What keeps a run from starting.
#[derive(Clone, Copy, Debug, PartialEq, Eq, Structural)]
pub enum MatchError {
    /// There is neither a source nor a target.
    EmptyInput,
}

/// Takes the sources and the targets of a run. Each source is identified
/// by its position among the sources. A run with neither sources nor
/// targets is refused.
pub fn prepare_input(sources: Vec<Line>, targets: Vec<Line>) -> (r: Result<
    (SpatialIndex<usize>, Vec<Line>),
    MatchError,
>)
    ensures
        r is Err <==> sources@.len() == 0 && targets@.len() == 0,
        r is Err ==> r == Err::<(SpatialIndex<usize>, Vec<Line>), MatchError>(MatchError::EmptyInput),
        r is Ok ==> {
            let (index, kept) = r.unwrap();
            &&& index.wf()
            &&& index@.len() == sources@.len()
            &&& forall|i: int|
                0 <= i < sources@.len() ==> (#[trigger] index@[i]).0 == i && index@[i].1
                    == sources@[i]
            &&& kept@ == targets@
        },
{
    if sources.len() == 0 && targets.len() == 0 {
        return Err(MatchError::EmptyInput);
    }
    let mut numbered: Vec<(usize, Line)> = Vec::new();
    for line in it: sources.into_iter()
        invariant
            numbered@.len() == it.index(),
            it.seq() == sources@,
            forall|i: int|
                0 <= i < numbered@.len() ==> (#[trigger] numbered@[i]).0 == i && numbered@[i].1
                    == sources@[i],
    {
        let position = numbered.len();
        numbered.push((position, line));
    }
    Ok((SpatialIndex::bulk_load(numbered), targets))
}

} // verus!
