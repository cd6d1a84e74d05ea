//! Fixed-point plane geometry: scalars, points, directions and the
//! tolerance comparisons that every structural check is built on.
//!
//! Coordinates are 32-bit integers counting a base unit; lengths, arc-length
//! offsets and tolerances are 128-bit integers counting the same unit. The
//! difference of two coordinates fits 33 bits, so squared distances fit well
//! inside a scalar, and the sum of any number of segment lengths that a slice
//! can hold stays representable.
use vstd::prelude::*;
use vstd::arithmetic::mul::*;

verus! {

/// A length, an arc-length offset or a tolerance, in base units.
pub type N = i128;

/// The positional tolerance of every "roughly equal" comparison.
pub const THICKNESS: N = 100;

/// Endpoints closer than this do not span a segment.
pub const MIN_START_TO_END: N = 1_000;

/// No segment is longer than this.
pub const MAX_SEGMENT_LENGTH: N = 0x4000_0000_0000_0000;

/// No squared distance between two points reaches this bound.
pub const SQUARED_DISTANCE_BOUND: N = 0x2_0000_0000_0000_0000;

/// A tolerance from here on accepts every pair of points.
pub const FULL_TOLERANCE: N = 0x2_0000_0000;

/// A point of the plane.
#[derive(Clone, Copy, Debug, PartialEq, Eq, Structural)]
pub struct P2 {
    pub x: i32,
    pub y: i32,
}

/// A displacement, or a direction scaled to a fixed norm.
#[derive(Clone, Copy, Debug, PartialEq, Eq, Structural)]
pub struct V2 {
    pub x: i64,
    pub y: i64,
}

/// The opposite of a direction or displacement.
pub open spec fn negated(v: V2) -> V2 {
    V2 { x: (-v.x) as i64, y: (-v.y) as i64 }
}

/// The squared Euclidean distance between two points.
pub open spec fn squared_distance(a: P2, b: P2) -> int {
    (a.x - b.x) * (a.x - b.x) + (a.y - b.y) * (a.y - b.y)
}

/// Whether two points lie within `tolerance` of each other, by Euclidean
/// distance. A negative tolerance accepts nothing.
pub open spec fn points_within(a: P2, b: P2, tolerance: int) -> bool {
    tolerance >= 0 && squared_distance(a, b) <= tolerance * tolerance
}

/// Whether two scalars differ by at most `tolerance`.
pub open spec fn scalars_within(a: int, b: int, tolerance: int) -> bool {
    -tolerance <= a - b <= tolerance
}

/// The largest integer whose square does not exceed `n`.
pub open spec fn floor_sqrt(n: nat) -> nat
    decreases n,
{
    if n == 0 {
        0
    } else {
        let r = floor_sqrt((n - 1) as nat);
        if (r + 1) * (r + 1) <= n {
            r + 1
        } else {
            r
        }
    }
}

/// The Euclidean distance between two points, rounded down.
pub open spec fn distance(a: P2, b: P2) -> int {
    floor_sqrt(squared_distance(a, b) as nat) as int
}

/// Squares are monotone on the non-negative integers.
pub proof fn lemma_square_monotone(a: int, b: int)
    requires
        0 <= a <= b,
    ensures
        a * a <= b * b,
{
    lemma_mul_inequality(a, b, a);
    lemma_mul_inequality(a, b, b);
    lemma_mul_is_commutative(a, b);
}

/// `floor_sqrt(n)` brackets `n` between two consecutive squares.
pub proof fn lemma_floor_sqrt_brackets(n: nat)
    ensures
        ({
            let r = floor_sqrt(n) as int;
            r * r <= n < (r + 1) * (r + 1)
        }),
    decreases n,
{
    if n > 0 {
        lemma_floor_sqrt_brackets((n - 1) as nat);
        let r = floor_sqrt((n - 1) as nat) as int;
        let s = floor_sqrt(n) as int;
        if (r + 1) * (r + 1) <= n {
            assert((s + 1) * (s + 1) == s * s + 2 * s + 1) by (nonlinear_arith);
        }
    } else {
        let s = floor_sqrt(n) as int;
        assert(s * s <= n < (s + 1) * (s + 1)) by (nonlinear_arith)
            requires
                s == 0,
                n == 0,
        ;
    }
}

/// Only one integer is bracketed the way `floor_sqrt(n)` is.
pub proof fn lemma_floor_sqrt_unique(n: nat, r: int)
    requires
        0 <= r,
        r * r <= n < (r + 1) * (r + 1),
    ensures
        r == floor_sqrt(n),
{
    lemma_floor_sqrt_brackets(n);
    let s = floor_sqrt(n) as int;
    if r < s {
        lemma_square_monotone(r + 1, s);
    } else if s < r {
        lemma_square_monotone(s + 1, r);
    }
}

/// A squared distance is never negative and stays below its bound.
pub proof fn lemma_squared_distance_bounds(a: P2, b: P2)
    ensures
        0 <= squared_distance(a, b) < SQUARED_DISTANCE_BOUND,
        squared_distance(a, b) == squared_distance(b, a),
        squared_distance(a, b) == 0 <==> a == b,
{
    let dx = a.x - b.x;
    let dy = a.y - b.y;
    assert(0 <= dx * dx <= 0xffff_ffff * 0xffff_ffff) by (nonlinear_arith)
        requires
            -0xffff_ffff <= dx <= 0xffff_ffff,
    ;
    assert(0 <= dy * dy <= 0xffff_ffff * 0xffff_ffff) by (nonlinear_arith)
        requires
            -0xffff_ffff <= dy <= 0xffff_ffff,
    ;
    assert((b.x - a.x) * (b.x - a.x) == dx * dx) by (nonlinear_arith)
        requires
            dx == a.x - b.x,
    ;
    assert((b.y - a.y) * (b.y - a.y) == dy * dy) by (nonlinear_arith)
        requires
            dy == a.y - b.y,
    ;
    assert(dx * dx == 0 <==> dx == 0) by (nonlinear_arith);
    assert(dy * dy == 0 <==> dy == 0) by (nonlinear_arith);
}

/// Rough equality of points is symmetric, holds of a point and itself under
/// any tolerance that is not negative, and widens with the tolerance.
pub proof fn lemma_points_within(a: P2, b: P2, tolerance: int, wider: int)
    ensures
        points_within(a, b, tolerance) == points_within(b, a, tolerance),
        tolerance >= 0 ==> points_within(a, a, tolerance),
        points_within(a, b, tolerance) && tolerance <= wider ==> points_within(a, b, wider),
        tolerance >= FULL_TOLERANCE ==> points_within(a, b, tolerance),
{
    lemma_squared_distance_bounds(a, b);
    lemma_squared_distance_bounds(a, a);
    if tolerance >= 0 {
        lemma_square_monotone(0, tolerance);
        if tolerance <= wider {
            lemma_square_monotone(tolerance, wider);
        }
        if tolerance >= FULL_TOLERANCE {
            lemma_square_monotone(FULL_TOLERANCE as int, tolerance);
            assert(FULL_TOLERANCE * FULL_TOLERANCE >= SQUARED_DISTANCE_BOUND);
        }
    }
}

/// The distance between two points never exceeds the longest segment.
pub proof fn lemma_distance_bounds(a: P2, b: P2)
    ensures
        0 <= distance(a, b) < FULL_TOLERANCE,
        distance(a, b) <= MAX_SEGMENT_LENGTH,
        distance(a, b) == distance(b, a),
{
    lemma_squared_distance_bounds(a, b);
    let n = squared_distance(a, b) as nat;
    lemma_floor_sqrt_brackets(n);
    let r = floor_sqrt(n) as int;
    if r >= FULL_TOLERANCE {
        lemma_square_monotone(FULL_TOLERANCE as int, r);
        assert(FULL_TOLERANCE * FULL_TOLERANCE >= SQUARED_DISTANCE_BOUND);
    }
}

impl P2 {
    pub fn new(x: i32, y: i32) -> (r: P2)
        ensures
            r == (P2 { x, y }),
    {
        P2 { x, y }
    }

    /// The squared Euclidean distance to `other`.
    pub fn squared_distance_to(&self, other: P2) -> (r: N)
        ensures
            r == squared_distance(*self, other),
            0 <= r < SQUARED_DISTANCE_BOUND,
    {
        let dx: i128 = self.x as i128 - other.x as i128;
        let dy: i128 = self.y as i128 - other.y as i128;
        proof {
            lemma_squared_distance_bounds(*self, other);
            assert(0 <= dx * dx <= 0xffff_ffff * 0xffff_ffff) by (nonlinear_arith)
                requires
                    -0xffff_ffff <= dx <= 0xffff_ffff,
            ;
            assert(0 <= dy * dy <= 0xffff_ffff * 0xffff_ffff) by (nonlinear_arith)
                requires
                    -0xffff_ffff <= dy <= 0xffff_ffff,
            ;
        }
        dx * dx + dy * dy
    }

    /// Whether `other` lies within `tolerance` of this point.
    pub fn is_roughly_within(&self, other: P2, tolerance: N) -> (r: bool)
        ensures
            r == points_within(*self, other, tolerance as int),
    {
        let squared = self.squared_distance_to(other);
        if tolerance < 0 {
            false
        } else if tolerance >= FULL_TOLERANCE {
            proof {
                lemma_points_within(*self, other, tolerance as int, tolerance as int);
            }
            true
        } else {
            proof {
                lemma_square_monotone(tolerance as int, FULL_TOLERANCE as int - 1);
                lemma_square_monotone(0, tolerance as int);
                assert((FULL_TOLERANCE - 1) * (FULL_TOLERANCE - 1) < 0x4_0000_0000_0000_0000);
            }
            squared <= tolerance * tolerance
        }
    }

    /// The Euclidean distance to `other`, rounded down.
    pub fn distance_to(&self, other: P2) -> (r: N)
        ensures
            r == distance(*self, other),
            0 <= r <= MAX_SEGMENT_LENGTH,
    {
        let squared = self.squared_distance_to(other);
        proof {
            lemma_distance_bounds(*self, other);
        }
        integer_sqrt(squared)
    }
}

/// The largest scalar whose square does not exceed `n`.
pub fn integer_sqrt(n: N) -> (r: N)
    requires
        0 <= n < SQUARED_DISTANCE_BOUND,
    ensures
        r == floor_sqrt(n as nat),
{
    let mut low: N = 0;
    let mut high: N = FULL_TOLERANCE;
    proof {
        assert(FULL_TOLERANCE * FULL_TOLERANCE >= SQUARED_DISTANCE_BOUND);
    }
    while high - low > 1
        invariant
            0 <= low < high <= FULL_TOLERANCE,
            low * low <= n < high * high,
        decreases high - low,
    {
        let middle: N = low + (high - low) / 2;
        proof {
            lemma_square_monotone(middle as int, FULL_TOLERANCE as int);
            lemma_square_monotone(0, middle as int);
            assert(FULL_TOLERANCE * FULL_TOLERANCE < 0x8_0000_0000_0000_0000);
        }
        if middle * middle <= n {
            low = middle;
        } else {
            high = middle;
        }
    }
    proof {
        lemma_floor_sqrt_unique(n as nat, low as int);
    }
    low
}

/// A whole-path offset seen from a segment that starts at `offset`: the
/// difference, held at the low end of the scalar range where it would fall
/// below it.
pub open spec fn spec_rebase(x: N, offset: int) -> N {
    if x - offset < N::MIN {
        N::MIN
    } else {
        (x - offset) as N
    }
}

/// A whole-path offset seen from a segment that starts at `offset`.
pub fn rebase(x: N, offset: N) -> (r: N)
    requires
        0 <= offset,
    ensures
        r == spec_rebase(x, offset as int),
{
    match x.checked_sub(offset) {
        Some(local) => local,
        None => N::MIN,
    }
}

/// Whether two scalars differ by at most `tolerance`.
pub fn is_roughly_within(a: N, b: N, tolerance: N) -> (r: bool)
    ensures
        r == scalars_within(a as int, b as int, tolerance as int),
{
    if tolerance < 0 {
        false
    } else if a >= b {
        match b.checked_add(tolerance) {
            Some(reach) => a <= reach,
            None => true,
        }
    } else {
        match a.checked_add(tolerance) {
            Some(reach) => b <= reach,
            None => true,
        }
    }
}

} // verus!
