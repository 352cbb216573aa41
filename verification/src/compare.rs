//! The metrics of a pair of lines and the test that accepts a pair.

use vstd::prelude::*;
use vstd::arithmetic::div_mod::{lemma_fundamental_div_mod, lemma_mod_bound};
use crate::measures::{
    angle_ls, bearing, distance_squared, is_ceil_sqrt, lemma_ceil_sqrt_bound,
    lemma_ceil_sqrt_once, midpoint_distance, Measures,
};

verus! {

/// The length ratio 1, in millionths.
pub const RATIO_ONE: u64 = 1_000_000;

/// The limits within which a pair of lines is taken for one feature.
#[derive(Clone, Copy, Debug, PartialEq, Eq, Structural)]
pub struct Options {
    /// By how much the box around a target grows on every side before the
    /// sources are searched, in coordinate units.
    pub buffer: u32,
    /// The largest difference of the two bearings, in microdegrees.
    pub angle_diff_threshold: u32,
    /// The largest ratio of the longer length to the shorter, in millionths.
    pub length_ratio_threshold: u64,
    /// The largest distance between the two midpoints, in coordinate units.
    pub midpt_dist_threshold: u64,
}

/// The metrics of a pair of lines.
#[derive(Clone, Copy, Debug, PartialEq, Eq)]
pub struct CompareLineStrings {
    /// The bearing of the main line, in microdegrees.
    pub angle_main: u32,
    /// The bearing of the candidate, in microdegrees.
    pub angle_candidate: u32,
    /// The difference of the two bearings. It is taken on the numbers as they
    /// are: bearings just below half a turn and just above zero are far apart.
    pub angle_diff: u32,
    /// The length of the main line.
    pub length_main: u64,
    /// The length of the candidate.
    pub length_candidate: u64,
    /// The longer length by the shorter, in millionths, rounded up; nothing
    /// where the shorter length is zero.
    pub length_ratio: Option<u128>,
    /// The distance between the two midpoints, rounded up.
    pub midpt_dist: u64,
}

/// The difference of the bearings of two directions.
pub open spec fn angle_difference(main: int, candidate: int) -> int {
    if bearing(main) >= bearing(candidate) {
        bearing(main) - bearing(candidate)
    } else {
        bearing(candidate) - bearing(main)
    }
}

/// `dividend / divisor`, rounded up.
pub open spec fn div_ceil(dividend: int, divisor: int) -> int {
    (dividend + divisor - 1) / divisor
}

/// The longer of two lengths by the shorter, in millionths, rounded up.
pub open spec fn length_ratio(a: int, b: int) -> Option<u128> {
    if a >= b {
        if b == 0 {
            None
        } else {
            Some(div_ceil(a * RATIO_ONE, b) as u128)
        }
    } else {
        if a == 0 {
            None
        } else {
            Some(div_ceil(b * RATIO_ONE, a) as u128)
        }
    }
}

/// A quotient rounded up is within a whole bound exactly when the dividend
/// is within the bound times the divisor.
pub proof fn lemma_div_ceil_bound(dividend: int, divisor: int, bound: int)
    requires
        0 <= dividend,
        0 < divisor,
    ensures
        div_ceil(dividend, divisor) <= bound <==> dividend <= bound * divisor,
        0 <= div_ceil(dividend, divisor) <= dividend,
{
    let q = div_ceil(dividend, divisor);
    let r = (dividend + divisor - 1) % divisor;
    lemma_fundamental_div_mod(dividend + divisor - 1, divisor);
    lemma_mod_bound(dividend + divisor - 1, divisor);
    assert(q <= bound <==> dividend <= bound * divisor) by (nonlinear_arith)
        requires
            dividend + divisor - 1 == divisor * q + r,
            0 <= r < divisor,
    ;
    assert(0 <= q <= dividend) by (nonlinear_arith)
        requires
            dividend + divisor - 1 == divisor * q + r,
            0 <= r < divisor,
            0 <= dividend,
    ;
}

/// The length ratio is there exactly when neither length is zero, and it is
/// never below one.
pub proof fn lemma_length_ratio_at_least_one(a: u64, b: u64)
    ensures
        length_ratio(a as int, b as int) is Some <==> a > 0 && b > 0,
        length_ratio(a as int, b as int) is Some ==> length_ratio(a as int, b as int).unwrap()
            >= RATIO_ONE,
{
    let longer = if a >= b { a } else { b };
    let shorter = if a >= b { b } else { a };
    if shorter > 0 {
        lemma_div_ceil_bound(longer * RATIO_ONE, shorter as int, RATIO_ONE - 1);
        assert((RATIO_ONE - 1) * shorter < longer * RATIO_ONE <= u64::MAX * RATIO_ONE)
            by (nonlinear_arith)
            requires
                0 < shorter <= longer <= u64::MAX,
                RATIO_ONE == 1_000_000,
        ;
    }
}

impl CompareLineStrings {
    /// These are the metrics of the pair with the given measures.
    pub open spec fn describes(self, main: Measures, candidate: Measures) -> bool {
        &&& self.angle_main == bearing(main.direction as int)
        &&& self.angle_candidate == bearing(candidate.direction as int)
        &&& self.angle_diff == angle_difference(main.direction as int, candidate.direction as int)
        &&& self.length_main == main.length
        &&& self.length_candidate == candidate.length
        &&& self.length_ratio == length_ratio(main.length as int, candidate.length as int)
        &&& is_ceil_sqrt(
            self.midpt_dist as int,
            distance_squared(main.midpoint, candidate.midpoint),
        )
    }

    /// Computes the metrics of a pair from the measures of its two lines.
    pub fn new(main: &Measures, candidate: &Measures) -> (r: CompareLineStrings)
        ensures
            r.describes(*main, *candidate),
            r.length_ratio is Some <==> main.length > 0 && candidate.length > 0,
            r.length_ratio is Some ==> r.length_ratio.unwrap() >= RATIO_ONE,
    {
        let angle_main = angle_ls(main.direction);
        let angle_candidate = angle_ls(candidate.direction);
        let angle_diff = if angle_main >= angle_candidate {
            angle_main - angle_candidate
        } else {
            angle_candidate - angle_main
        };
        let (longer, shorter) = if main.length >= candidate.length {
            (main.length, candidate.length)
        } else {
            (candidate.length, main.length)
        };
        let length_ratio = if shorter == 0 {
            None
        } else {
            let scaled: u128 = (longer as u128) * (RATIO_ONE as u128);
            proof {
                lemma_div_ceil_bound(scaled as int, shorter as int, RATIO_ONE - 1);
                assert((RATIO_ONE - 1) * shorter < longer * RATIO_ONE) by (nonlinear_arith)
                    requires
                        0 < shorter <= longer,
                        RATIO_ONE == 1_000_000,
                ;
            }
            Some((scaled + (shorter as u128 - 1)) / (shorter as u128))
        };
        CompareLineStrings {
            angle_main,
            angle_candidate,
            angle_diff,
            length_main: main.length,
            length_candidate: candidate.length,
            length_ratio,
            midpt_dist: midpoint_distance(main.midpoint, candidate.midpoint),
        }
    }
}

impl Options {
    /// All three metrics are within their limits.
    pub open spec fn passes(self, metrics: CompareLineStrings) -> bool {
        &&& metrics.angle_diff <= self.angle_diff_threshold
        &&& metrics.length_ratio is Some
        &&& metrics.length_ratio.unwrap() <= self.length_ratio_threshold
        &&& metrics.midpt_dist <= self.midpt_dist_threshold
    }

    /// The pair is taken for one feature: the bearings differ by no more than
    /// the angle limit, neither length is zero and the longer is no more than
    /// the ratio limit times the shorter, and the midpoints are no further
    /// apart than the distance limit.
    pub open spec fn accepts(self, main: Measures, candidate: Measures) -> bool {
        let longer = if main.length >= candidate.length { main.length } else { candidate.length };
        let shorter = if main.length >= candidate.length { candidate.length } else { main.length };
        &&& angle_difference(main.direction as int, candidate.direction as int)
            <= self.angle_diff_threshold
        &&& shorter > 0
        &&& longer * RATIO_ONE <= self.length_ratio_threshold * shorter
        &&& distance_squared(main.midpoint, candidate.midpoint)
            <= self.midpt_dist_threshold * self.midpt_dist_threshold
    }

    /// Whether metrics are within the limits.
    pub fn admits(&self, metrics: &CompareLineStrings) -> (r: bool)
        ensures
            r == self.passes(*metrics),
    {
        metrics.angle_diff <= self.angle_diff_threshold && match metrics.length_ratio {
            Some(ratio) => ratio <= self.length_ratio_threshold as u128,
            None => false,
        } && metrics.midpt_dist <= self.midpt_dist_threshold
    }

    /// Whether a pair of lines with the given measures is taken for one feature.
    pub fn accept(&self, main: &Measures, candidate: &Measures) -> (r: bool)
        ensures
            r == self.accepts(*main, *candidate),
    {
        let metrics = CompareLineStrings::new(main, candidate);
        proof {
            lemma_passes_is_accepts(*self, metrics, *main, *candidate);
        }
        self.admits(&metrics)
    }
}

/// Metrics are within the limits exactly when the pair they describe is
/// accepted: rounding the metrics up loses nothing against whole limits.
pub proof fn lemma_passes_is_accepts(
    opts: Options,
    metrics: CompareLineStrings,
    main: Measures,
    candidate: Measures,
)
    requires
        metrics.describes(main, candidate),
    ensures
        opts.passes(metrics) == opts.accepts(main, candidate),
{
    let longer = if main.length >= candidate.length { main.length } else { candidate.length };
    let shorter = if main.length >= candidate.length { candidate.length } else { main.length };
    lemma_ceil_sqrt_bound(
        metrics.midpt_dist as int,
        distance_squared(main.midpoint, candidate.midpoint),
        opts.midpt_dist_threshold as int,
    );
    if shorter > 0 {
        lemma_div_ceil_bound(
            longer * RATIO_ONE,
            shorter as int,
            opts.length_ratio_threshold as int,
        );
        assert(longer * RATIO_ONE <= u64::MAX * RATIO_ONE) by (nonlinear_arith)
            requires
                0 <= longer <= u64::MAX,
                RATIO_ONE == 1_000_000,
        ;
    }
}

/// A pair of measures has one set of metrics only.
pub proof fn lemma_described_once(
    metrics: CompareLineStrings,
    again: CompareLineStrings,
    main: Measures,
    candidate: Measures,
)
    requires
        metrics.describes(main, candidate),
        again.describes(main, candidate),
    ensures
        metrics == again,
{
    lemma_ceil_sqrt_once(
        metrics.midpt_dist as int,
        again.midpt_dist as int,
        distance_squared(main.midpoint, candidate.midpoint),
    );
}

/// A line matches itself: against a line with the same measures, of a
/// length above zero, the bearings do not differ, the length ratio is one
/// and the midpoints are no distance apart, and the pair is accepted
/// whatever the angle and distance limits are, under any ratio limit of
/// one or more.
pub proof fn lemma_self_match(opts: Options, metrics: CompareLineStrings, measures: Measures)
    requires
        metrics.describes(measures, measures),
        measures.length > 0,
        opts.length_ratio_threshold >= RATIO_ONE,
    ensures
        metrics.angle_diff == 0,
        metrics.length_ratio == Some(RATIO_ONE as u128),
        metrics.midpt_dist == 0,
        opts.passes(metrics),
        opts.accepts(measures, measures),
{
    let length = measures.length as int;
    lemma_div_ceil_bound(length * RATIO_ONE, length, RATIO_ONE as int);
    lemma_div_ceil_bound(length * RATIO_ONE, length, RATIO_ONE - 1);
    assert((RATIO_ONE - 1) * length < length * RATIO_ONE == RATIO_ONE * length) by (nonlinear_arith)
        requires
            0 < length,
            RATIO_ONE == 1_000_000,
    ;
    lemma_ceil_sqrt_bound(
        metrics.midpt_dist as int,
        distance_squared(measures.midpoint, measures.midpoint),
        0,
    );
    lemma_passes_is_accepts(opts, metrics, measures, measures);
}

} // verus!
