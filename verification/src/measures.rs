//! What is measured of a single line, and the arithmetic on those measures.

use vstd::prelude::*;
use vstd::arithmetic::div_mod::{
    lemma_fundamental_div_mod, lemma_fundamental_div_mod_converse_mod,
    lemma_mod_add_multiples_vanish, lemma_mod_multiples_vanish, lemma_mod_bound, lemma_mod_sub_multiples_vanish,
};
use crate::geometry::Coord;

verus! {

/// Half a turn, in microdegrees.
pub const HALF_TURN: u32 = 180_000_000;

/// A full turn, in microdegrees.
pub const FULL_TURN: u32 = 360_000_000;

/// The measures of one line.
#[derive(Clone, Copy, Debug, PartialEq, Eq, Structural)]
pub struct Measures {
    /// The angle of the way from the first point to the last, in microdegrees,
    /// counter-clockwise from the positive x axis.
    pub direction: i32,
    /// The length along the line, in coordinate units.
    pub length: u64,
    /// The point halfway along the line.
    pub midpoint: Coord,
}

/// A direction brought into one full turn, `[0, FULL_TURN)`.
pub open spec fn normalized(direction: int) -> int {
    direction % (FULL_TURN as int)
}

/// The bearing of a direction: the direction brought into one full turn and
/// then folded into `[0, HALF_TURN)`, so that it no longer tells which of
/// its two ends a line starts from.
pub open spec fn bearing(direction: int) -> int {
    if normalized(direction) >= HALF_TURN {
        normalized(direction) - HALF_TURN
    } else {
        normalized(direction)
    }
}

/// The bearing is the direction's remainder by half a turn.
pub proof fn lemma_bearing_is_remainder(direction: int)
    ensures
        bearing(direction) == direction % (HALF_TURN as int),
        0 <= bearing(direction) < HALF_TURN,
{
    let full = FULL_TURN as int;
    let half = HALF_TURN as int;
    let q = direction / full;
    let r = direction % full;
    lemma_fundamental_div_mod(direction, full);
    lemma_mod_bound(direction, full);
    if r >= half {
        assert(direction == (2 * q + 1) * half + (r - half)) by (nonlinear_arith)
            requires
                direction == full * q + r,
                full == 2 * half,
        ;
        lemma_fundamental_div_mod_converse_mod(direction, half, 2 * q + 1, r - half);
    } else {
        assert(direction == (2 * q) * half + r) by (nonlinear_arith)
            requires
                direction == full * q + r,
                full == 2 * half,
        ;
        lemma_fundamental_div_mod_converse_mod(direction, half, 2 * q, r);
    }
}

/// A line walked the other way has its direction turned by half a turn, forth
/// or back, and keeps its bearing.
pub proof fn lemma_bearing_ignores_reversal(direction: int)
    ensures
        bearing(direction + HALF_TURN) == bearing(direction),
        bearing(direction - HALF_TURN) == bearing(direction),
{
    lemma_bearing_is_remainder(direction);
    lemma_bearing_is_remainder(direction + HALF_TURN);
    lemma_bearing_is_remainder(direction - HALF_TURN);
    lemma_mod_add_multiples_vanish(direction, HALF_TURN as int);
    lemma_mod_sub_multiples_vanish(direction, HALF_TURN as int);
}

/// The bearing of a direction, in `[0, HALF_TURN)`.
pub fn angle_ls(direction: i32) -> (r: u32)
    ensures
        r == bearing(direction as int),
        r < HALF_TURN,
{
    // Twelve half turns more keep the bearing and make every `i32` positive.
    let shifted: u64 = (direction as i64 + 2_160_000_000) as u64;
    proof {
        lemma_bearing_is_remainder(direction as int);
        lemma_mod_multiples_vanish(12, direction as int, HALF_TURN as int);
    }
    (shifted % 180_000_000) as u32
}

/// The square of the distance between two points.
pub open spec fn distance_squared(a: Coord, b: Coord) -> int {
    (a.x - b.x) * (a.x - b.x) + (a.y - b.y) * (a.y - b.y)
}

/// `root` is the square root of `n`, rounded down.
pub open spec fn is_floor_sqrt(root: int, n: int) -> bool {
    0 <= root && root * root <= n < (root + 1) * (root + 1)
}

/// The square root of `n`, rounded down.
pub fn isqrt(n: u128) -> (r: u64)
    ensures
        is_floor_sqrt(r as int, n as int),
{
    let mut low: u128 = 0;
    let mut high: u128 = 0x1_0000_0000_0000_0000;
    assert(high * high > n) by (nonlinear_arith)
        requires
            high == 0x1_0000_0000_0000_0000,
            n <= u128::MAX,
    ;
    while high - low > 1
        invariant
            low < high <= 0x1_0000_0000_0000_0000,
            low * low <= n < high * high,
        decreases high - low,
    {
        let mid: u128 = low + (high - low) / 2;
        assert(mid * mid <= u128::MAX) by (nonlinear_arith)
            requires
                0 <= mid < 0x1_0000_0000_0000_0000,
        ;
        if mid * mid <= n {
            low = mid;
        } else {
            high = mid;
        }
    }
    low as u64
}

/// `root` is the square root of `n`, rounded up.
pub open spec fn is_ceil_sqrt(root: int, n: int) -> bool {
    &&& 0 <= root
    &&& n <= root * root
    &&& root == 0 || (root - 1) * (root - 1) < n
}

/// A number has one rounded-up square root only.
pub proof fn lemma_ceil_sqrt_once(a: int, b: int, n: int)
    requires
        is_ceil_sqrt(a, n),
        is_ceil_sqrt(b, n),
    ensures
        a == b,
{
    if a < b {
        lemma_ceil_sqrt_bound(b, n, a);
    } else if b < a {
        lemma_ceil_sqrt_bound(a, n, b);
    }
}

/// A square root rounded up is within a whole bound exactly when the number
/// is within the bound's square.
pub proof fn lemma_ceil_sqrt_bound(root: int, n: int, bound: int)
    requires
        is_ceil_sqrt(root, n),
        0 <= bound,
    ensures
        root <= bound <==> n <= bound * bound,
{
    if root <= bound {
        assert(root * root <= bound * bound) by (nonlinear_arith)
            requires
                0 <= root <= bound,
        ;
    } else {
        assert(bound * bound <= (root - 1) * (root - 1)) by (nonlinear_arith)
            requires
                0 <= bound <= root - 1,
        ;
    }
}

/// The distance between two points, rounded up to whole coordinate units.
pub fn midpoint_distance(a: Coord, b: Coord) -> (r: u64)
    ensures
        is_ceil_sqrt(r as int, distance_squared(a, b)),
{
    let dx: i64 = a.x as i64 - b.x as i64;
    let dy: i64 = a.y as i64 - b.y as i64;
    let ax: u128 = if dx < 0 { (-dx) as u128 } else { dx as u128 };
    let ay: u128 = if dy < 0 { (-dy) as u128 } else { dy as u128 };
    assert(ax * ax == dx * dx && ax * ax <= 0x1_0000_0000 * 0x1_0000_0000) by (nonlinear_arith)
        requires
            ax == dx || ax == -dx,
            0 <= ax <= 0x1_0000_0000,
    ;
    assert(ay * ay == dy * dy && ay * ay <= 0x1_0000_0000 * 0x1_0000_0000) by (nonlinear_arith)
        requires
            ay == dy || ay == -dy,
            0 <= ay <= 0x1_0000_0000,
    ;
    let squared: u128 = ax * ax + ay * ay;
    let floor: u64 = isqrt(squared);
    assert(floor < 0x1_0000_0000_0000) by (nonlinear_arith)
        requires
            floor * floor <= squared,
            squared <= 2 * (0x1_0000_0000 * 0x1_0000_0000),
    ;
    assert(floor * floor <= u128::MAX) by (nonlinear_arith)
        requires
            0 <= floor < 0x1_0000_0000_0000,
    ;
    if (floor as u128) * (floor as u128) == squared {
        assert(floor == 0 || (floor - 1) * (floor - 1) < floor * floor) by (nonlinear_arith)
            requires
                0 <= floor,
        ;
        floor
    } else {
        let up = floor + 1;
        assert((up - 1) * (up - 1) == floor * floor && up * up == (floor + 1) * (floor + 1))
            by (nonlinear_arith)
            requires
                up == floor + 1,
        ;
        up
    }
}

} // verus!
