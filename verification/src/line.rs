//! Straight segments on the integer grid.
//!
//! A line segment is its two end points; its length, its direction and its
//! sample points are computed from them, with every quotient rounded towards
//! the segment's start.
use vstd::prelude::*;
use vstd::string::StringExecFns;
use crate::geometry::{
    distance, floor_sqrt, lemma_distance_bounds, lemma_floor_sqrt_brackets, lemma_points_within,
    lemma_squared_distance_bounds, points_within, squared_distance, FULL_TOLERANCE,
    MIN_START_TO_END, N, P2, THICKNESS, V2,
};
use crate::numeric::{
    append_decimal, decimal, lemma_fraction, lemma_product_bound, lemma_quotient_negates,
    lemma_slide, magnitude, quotient, slide, spec_quotient, spec_slide,
};
use crate::segment::{clipped_end, clipped_start, Intersection, Segment};

verus! {

/// The norm to which directions are scaled.
pub const DIRECTION_UNIT: N = 1_000_000;

/// No foot of a perpendicular lies farther than this along a segment's
/// line, before its start or behind it.
pub const REACH_LIMIT: N = 0x2_0000_0000_0000_0000;

/// A tolerance beyond this accepts every foot, and one below its negative
/// none.
pub const REACH_TOLERANCE_LIMIT: N = 0x8_0000_0000_0000_0000;

/// A straight segment from `start` to `end`.
#[derive(Clone, Copy, Debug, PartialEq, Eq, Structural)]
pub struct LineSegment {
    pub start: P2,
    pub end: P2,
}

/// The cross product of two plane vectors.
pub open spec fn cross(ax: int, ay: int, bx: int, by: int) -> int {
    ax * by - ay * bx
}

/// The dot product of two plane vectors.
pub open spec fn dot(ax: int, ay: int, bx: int, by: int) -> int {
    ax * bx + ay * by
}

/// Whether `direction` points exactly from `start` towards `end`.
pub open spec fn points_towards(direction: V2, start: P2, end: P2) -> bool {
    &&& cross(direction.x as int, direction.y as int, end.x - start.x, end.y - start.y) == 0
    &&& dot(direction.x as int, direction.y as int, end.x - start.x, end.y - start.y) > 0
}

/// A local offset held to the segment: zero before it, the length behind
/// it.
pub open spec fn held(distance: N, length: N) -> N {
    clipped_end(clipped_start(distance), length)
}

/// A coordinate moved by an offset, if it stays on the grid.
pub open spec fn moved(coordinate: i32, by: int) -> Option<i32> {
    if i32::MIN <= coordinate + by <= i32::MAX {
        Some((coordinate + by) as i32)
    } else {
        None
    }
}

impl LineSegment {
    pub open spec fn span_x(&self) -> int {
        self.end.x - self.start.x
    }

    pub open spec fn span_y(&self) -> int {
        self.end.y - self.start.y
    }

    /// The direction from start to end, scaled to the direction unit; zero
    /// where the two coincide.
    pub open spec fn spec_direction(&self) -> V2 {
        let length = distance(self.start, self.end);
        if length == 0 {
            V2 { x: 0, y: 0 }
        } else {
            V2 {
                x: spec_quotient(self.span_x() * DIRECTION_UNIT, length) as i64,
                y: spec_quotient(self.span_y() * DIRECTION_UNIT, length) as i64,
            }
        }
    }

    /// The offset along the segment's line of the foot of the perpendicular
    /// from `point`, rounded towards zero: negative before the start, more
    /// than the length behind the end. Zero for a segment without length.
    pub open spec fn spec_reach(&self, point: P2) -> int {
        let length = distance(self.start, self.end);
        if length == 0 {
            0
        } else {
            spec_quotient(
                dot(point.x - self.start.x, point.y - self.start.y, self.span_x(), self.span_y()),
                length,
            )
        }
    }

    /// The offset of the point of the segment nearest to `point`: the foot
    /// of the perpendicular, held to the segment.
    pub open spec fn spec_foot(&self, point: P2) -> N {
        let length = distance(self.start, self.end);
        let reach = self.spec_reach(point);
        if reach <= 0 {
            0
        } else if reach > length {
            length as N
        } else {
            reach as N
        }
    }

    /// The crossing of two segments that are not parallel, if they meet.
    pub open spec fn spec_crossing(&self, other: &Self) -> Option<Intersection> {
        let turn = cross(self.span_x(), self.span_y(), other.span_x(), other.span_y());
        let gap_x = other.start.x - self.start.x;
        let gap_y = other.start.y - self.start.y;
        let ours = cross(gap_x, gap_y, other.span_x(), other.span_y());
        let theirs = cross(gap_x, gap_y, self.span_x(), self.span_y());
        let whole = magnitude(turn);
        let t = if turn < 0 {
            -ours
        } else {
            ours
        };
        let u = if turn < 0 {
            -theirs
        } else {
            theirs
        };
        if turn != 0 && 0 <= t <= whole && 0 <= u <= whole {
            Some(
                Intersection {
                    position: P2 {
                        x: spec_slide(self.start.x, self.end.x, t, whole),
                        y: spec_slide(self.start.y, self.end.y, t, whole),
                    },
                    along_a: ((t * distance(self.start, self.end)) / whole) as N,
                    along_b: ((u * distance(other.start, other.end)) / whole) as N,
                },
            )
        } else {
            None
        }
    }

    fn measure(&self) -> (r: N)
        ensures
            r == distance(self.start, self.end),
            r == self.spec_length(),
            0 <= r < FULL_TOLERANCE,
    {
        proof {
            lemma_distance_bounds(self.start, self.end);
        }
        self.start.distance_to(self.end)
    }

    fn direction(&self) -> (r: V2)
        ensures
            r == self.spec_direction(),
    {
        let length = self.measure();
        if length == 0 {
            V2 { x: 0, y: 0 }
        } else {
            let span_x: N = self.end.x as N - self.start.x as N;
            let span_y: N = self.end.y as N - self.start.y as N;
            proof {
                lemma_product_bound(span_x as int, DIRECTION_UNIT as int, 0x1_0000_0000, 1_000_000);
                lemma_product_bound(span_y as int, DIRECTION_UNIT as int, 0x1_0000_0000, 1_000_000);
            }
            let x = quotient(span_x * DIRECTION_UNIT, length);
            let y = quotient(span_y * DIRECTION_UNIT, length);
            V2 { x: x as i64, y: y as i64 }
        }
    }

    fn reach(&self, point: P2) -> (r: N)
        ensures
            r == self.spec_reach(point),
            magnitude(r as int) <= REACH_LIMIT,
    {
        let length = self.measure();
        if length == 0 {
            return 0;
        }
        let span_x: N = self.end.x as N - self.start.x as N;
        let span_y: N = self.end.y as N - self.start.y as N;
        let to_x: N = point.x as N - self.start.x as N;
        let to_y: N = point.y as N - self.start.y as N;
        proof {
            lemma_product_bound(to_x as int, span_x as int, 0x1_0000_0000, 0x1_0000_0000);
            lemma_product_bound(to_y as int, span_y as int, 0x1_0000_0000, 0x1_0000_0000);
        }
        quotient(to_x * span_x + to_y * span_y, length)
    }

    fn foot(&self, point: P2) -> (r: N)
        ensures
            r == self.spec_foot(point),
            0 <= r <= self.spec_length(),
    {
        let length = self.measure();
        let reach = self.reach(point);
        if reach <= 0 {
            0
        } else if reach > length {
            length
        } else {
            reach
        }
    }

    fn crossing(&self, other: &Self) -> (r: Option<Intersection>)
        ensures
            r == self.spec_crossing(other),
    {
        let span_x: N = self.end.x as N - self.start.x as N;
        let span_y: N = self.end.y as N - self.start.y as N;
        let other_x: N = other.end.x as N - other.start.x as N;
        let other_y: N = other.end.y as N - other.start.y as N;
        let gap_x: N = other.start.x as N - self.start.x as N;
        let gap_y: N = other.start.y as N - self.start.y as N;
        proof {
            lemma_product_bound(span_x as int, other_y as int, 0x1_0000_0000, 0x1_0000_0000);
            lemma_product_bound(span_y as int, other_x as int, 0x1_0000_0000, 0x1_0000_0000);
            lemma_product_bound(gap_x as int, other_y as int, 0x1_0000_0000, 0x1_0000_0000);
            lemma_product_bound(gap_y as int, other_x as int, 0x1_0000_0000, 0x1_0000_0000);
            lemma_product_bound(gap_x as int, span_y as int, 0x1_0000_0000, 0x1_0000_0000);
            lemma_product_bound(gap_y as int, span_x as int, 0x1_0000_0000, 0x1_0000_0000);
        }
        let turn = span_x * other_y - span_y * other_x;
        let ours = gap_x * other_y - gap_y * other_x;
        let theirs = gap_x * span_y - gap_y * span_x;
        if turn == 0 {
            return None;
        }
        let whole = if turn < 0 {
            -turn
        } else {
            turn
        };
        let t = if turn < 0 {
            -ours
        } else {
            ours
        };
        let u = if turn < 0 {
            -theirs
        } else {
            theirs
        };
        if 0 <= t && t <= whole && 0 <= u && u <= whole {
            let length_a = self.measure();
            let length_b = other.measure();
            proof {
                lemma_distance_bounds(self.start, self.end);
                lemma_distance_bounds(other.start, other.end);
                lemma_product_bound(
                    t as int,
                    length_a as int,
                    0x2_0000_0000_0000_0000,
                    FULL_TOLERANCE as int,
                );
                lemma_product_bound(
                    u as int,
                    length_b as int,
                    0x2_0000_0000_0000_0000,
                    FULL_TOLERANCE as int,
                );
            }
            Some(
                Intersection {
                    position: P2 {
                        x: slide(self.start.x, self.end.x, t, whole),
                        y: slide(self.start.y, self.end.y, t, whole),
                    },
                    along_a: (t * length_a) / whole,
                    along_b: (u * length_b) / whole,
                },
            )
        } else {
            None
        }
    }
}

fn shift_coordinate(coordinate: i32, by: N) -> (r: Option<i32>)
    requires
        magnitude(by as int) <= 0x4_0000_0000_0000_0000,
    ensures
        r == moved(coordinate, by as int),
{
    let shifted: N = coordinate as N + by;
    if shifted < i32::MIN as N || shifted > i32::MAX as N {
        None
    } else {
        Some(shifted as i32)
    }
}

impl Segment for LineSegment {
    /// The line from `start` to `end`, unless the two lie within the
    /// minimum span of each other.
    open spec fn spec_line(start: P2, end: P2) -> Option<Self> {
        if points_within(start, end, MIN_START_TO_END as int) {
            None
        } else {
            Some(LineSegment { start, end })
        }
    }

    /// A line cannot bend: there is one only where `direction` points
    /// exactly from `start` towards `end`.
    open spec fn spec_arc_with_direction(start: P2, direction: V2, end: P2) -> Option<Self> {
        if points_towards(direction, start, end) {
            Self::spec_line(start, end)
        } else {
            None
        }
    }

    open spec fn spec_start(&self) -> P2 {
        self.start
    }

    open spec fn spec_end(&self) -> P2 {
        self.end
    }

    open spec fn spec_start_direction(&self) -> V2 {
        self.spec_direction()
    }

    open spec fn spec_end_direction(&self) -> V2 {
        self.spec_direction()
    }

    /// The distance between the two ends, rounded down.
    open spec fn spec_length(&self) -> N {
        distance(self.start, self.end) as N
    }

    open spec fn spec_is_linear(&self) -> bool {
        true
    }

    /// The grid point the fraction `distance / length` of the way from
    /// start to end, for the offset held to the segment.
    open spec fn spec_along(&self, distance: N) -> P2 {
        let length = self.spec_length();
        if length == 0 {
            self.start
        } else {
            P2 {
                x: spec_slide(self.start.x, self.end.x, held(distance, length) as int, length as int),
                y: spec_slide(self.start.y, self.end.y, held(distance, length) as int, length as int),
            }
        }
    }

    open spec fn spec_direction_along(&self, distance: N) -> V2 {
        self.spec_direction()
    }

    open spec fn spec_reverse(&self) -> Self {
        LineSegment { start: self.end, end: self.start }
    }

    /// The line between the sample points of the range cut back to the
    /// segment, unless that range is shorter than the minimum span.
    open spec fn spec_subsection(&self, start: N, end: N) -> Option<Self> {
        let from = clipped_start(start);
        let to = clipped_end(end, self.spec_length());
        if to - from < MIN_START_TO_END {
            None
        } else {
            Some(LineSegment { start: self.spec_along(from), end: self.spec_along(to) })
        }
    }

    /// The segment moved sideways by `shift_to_right`, to the right of the
    /// direction of travel, if both ends stay on the grid.
    open spec fn spec_shift_orthogonally(&self, shift_to_right: N) -> Option<Self> {
        let length = self.spec_length();
        if length == 0 || magnitude(shift_to_right as int) > FULL_TOLERANCE {
            None
        } else {
            let by_x = spec_quotient(self.span_y() * shift_to_right, length as int);
            let by_y = spec_quotient(-self.span_x() * shift_to_right, length as int);
            match (
                moved(self.start.x, by_x),
                moved(self.start.y, by_y),
                moved(self.end.x, by_x),
                moved(self.end.y, by_y),
            ) {
                (Some(start_x), Some(start_y), Some(end_x), Some(end_y)) => Some(
                    LineSegment {
                        start: P2 { x: start_x, y: start_y },
                        end: P2 { x: end_x, y: end_y },
                    },
                ),
                _ => None,
            }
        }
    }

    open spec fn spec_is_roughly_within(&self, other: &Self, tolerance: N) -> bool {
        &&& points_within(self.start, other.start, tolerance as int)
        &&& points_within(self.end, other.end, tolerance as int)
    }

    /// Whether `point` lies within the tolerance of the point of the
    /// segment nearest to it.
    open spec fn spec_includes(&self, point: P2) -> bool {
        points_within(point, self.spec_along(self.spec_foot(point)), THICKNESS as int)
    }

    /// The offset of the foot of the perpendicular from `point`, held to
    /// the segment, if the foot lies on the segment or no more than
    /// `tolerance` before its start or behind its end. How far the point
    /// lies from the segment's line does not matter.
    open spec fn spec_project_with_tolerance(&self, point: P2, tolerance: N) -> Option<N> {
        let reach = self.spec_reach(point);
        if -tolerance <= reach <= self.spec_length() + tolerance {
            Some(self.spec_foot(point))
        } else {
            None
        }
    }

    /// The one point in which two segments that are not parallel meet, if
    /// they do.
    open spec fn spec_intersect(&self, other: &Self) -> Seq<Intersection> {
        match self.spec_crossing(other) {
            Some(crossing) => seq![crossing],
            None => Seq::empty(),
        }
    }

    /// A move to the start and a line to the end.
    open spec fn spec_to_svg(&self) -> Seq<char> {
        "M "@ + decimal(self.start.x as int) + " "@ + decimal(self.start.y as int) + " L "@
            + decimal(self.end.x as int) + " "@ + decimal(self.end.y as int)
    }

    fn line(start: P2, end: P2) -> (r: Option<Self>) {
        if start.is_roughly_within(end, MIN_START_TO_END) {
            None
        } else {
            Some(LineSegment { start, end })
        }
    }

    fn arc_with_direction(start: P2, direction: V2, end: P2) -> (r: Option<Self>) {
        let span_x: N = end.x as N - start.x as N;
        let span_y: N = end.y as N - start.y as N;
        proof {
            lemma_product_bound(
                direction.x as int,
                span_y as int,
                0x8000_0000_0000_0000,
                0x1_0000_0000,
            );
            lemma_product_bound(
                direction.y as int,
                span_x as int,
                0x8000_0000_0000_0000,
                0x1_0000_0000,
            );
            lemma_product_bound(
                direction.x as int,
                span_x as int,
                0x8000_0000_0000_0000,
                0x1_0000_0000,
            );
            lemma_product_bound(
                direction.y as int,
                span_y as int,
                0x8000_0000_0000_0000,
                0x1_0000_0000,
            );
        }
        let turn = direction.x as N * span_y - direction.y as N * span_x;
        let ahead = direction.x as N * span_x + direction.y as N * span_y;
        if turn == 0 && ahead > 0 {
            Self::line(start, end)
        } else {
            None
        }
    }

    fn start(&self) -> (r: P2) {
        self.start
    }

    fn end(&self) -> (r: P2) {
        self.end
    }

    fn start_direction(&self) -> (r: V2) {
        self.direction()
    }

    fn end_direction(&self) -> (r: V2) {
        self.direction()
    }

    fn length(&self) -> (r: N) {
        self.start.distance_to(self.end)
    }

    fn is_linear(&self) -> (r: bool) {
        true
    }

    fn along(&self, distance: N) -> (r: P2) {
        let length = self.measure();
        if length == 0 {
            self.start
        } else {
            let on_segment = if distance <= 0 {
                0
            } else if distance < length {
                distance
            } else {
                length
            };
            proof {
                lemma_distance_bounds(self.start, self.end);
            }
            P2 {
                x: slide(self.start.x, self.end.x, on_segment, length),
                y: slide(self.start.y, self.end.y, on_segment, length),
            }
        }
    }

    fn direction_along(&self, distance: N) -> (r: V2) {
        self.direction()
    }

    fn reverse(&self) -> (r: Self) {
        LineSegment { start: self.end, end: self.start }
    }

    fn subsection(&self, start: N, end: N) -> (r: Option<Self>) {
        let length = self.measure();
        let from = if start > 0 {
            start
        } else {
            0
        };
        let to = if end < length {
            end
        } else {
            length
        };
        match to.checked_sub(from) {
            Some(range) => {
                if range < MIN_START_TO_END {
                    None
                } else {
                    Some(LineSegment { start: self.along(from), end: self.along(to) })
                }
            },
            None => None,
        }
    }

    fn shift_orthogonally(&self, shift_to_right: N) -> (r: Option<Self>) {
        let length = self.measure();
        if length == 0 || shift_to_right > FULL_TOLERANCE || shift_to_right < -FULL_TOLERANCE {
            return None;
        }
        let span_x: N = self.end.x as N - self.start.x as N;
        let span_y: N = self.end.y as N - self.start.y as N;
        proof {
            lemma_product_bound(
                span_y as int,
                shift_to_right as int,
                0x1_0000_0000,
                FULL_TOLERANCE as int,
            );
            lemma_product_bound(
                -span_x as int,
                shift_to_right as int,
                0x1_0000_0000,
                FULL_TOLERANCE as int,
            );
        }
        let by_x = quotient(span_y * shift_to_right, length);
        let by_y = quotient(-span_x * shift_to_right, length);
        let start_x = shift_coordinate(self.start.x, by_x);
        let start_y = shift_coordinate(self.start.y, by_y);
        let end_x = shift_coordinate(self.end.x, by_x);
        let end_y = shift_coordinate(self.end.y, by_y);
        match (start_x, start_y, end_x, end_y) {
            (Some(start_x), Some(start_y), Some(end_x), Some(end_y)) => Some(
                LineSegment { start: P2 { x: start_x, y: start_y }, end: P2 { x: end_x, y: end_y } },
            ),
            _ => None,
        }
    }

    fn is_roughly_within(&self, other: &Self, tolerance: N) -> (r: bool) {
        self.start.is_roughly_within(other.start, tolerance) && self.end.is_roughly_within(
            other.end,
            tolerance,
        )
    }

    fn includes(&self, point: P2) -> (r: bool) {
        let offset = self.foot(point);
        point.is_roughly_within(self.along(offset), THICKNESS)
    }

    fn project_with_tolerance(&self, point: P2, tolerance: N) -> (r: Option<N>) {
        let length = self.measure();
        let reach = self.reach(point);
        let offset = self.foot(point);
        let bounded = if tolerance > REACH_TOLERANCE_LIMIT {
            REACH_TOLERANCE_LIMIT
        } else if tolerance < -REACH_TOLERANCE_LIMIT {
            -REACH_TOLERANCE_LIMIT
        } else {
            tolerance
        };
        if -bounded <= reach && reach <= length + bounded {
            Some(offset)
        } else {
            None
        }
    }

    fn intersect(&self, other: &Self) -> (r: Vec<Intersection>) {
        let mut found: Vec<Intersection> = Vec::new();
        match self.crossing(other) {
            Some(crossing) => {
                found.push(crossing);
                assert(found@ =~= seq![crossing]);
            },
            None => {},
        }
        found
    }

    fn to_svg(&self) -> (r: String) {
        let mut text = String::new();
        text.append("M ");
        append_decimal(&mut text, self.start.x);
        text.append(" ");
        append_decimal(&mut text, self.start.y);
        text.append(" L ");
        append_decimal(&mut text, self.end.x);
        text.append(" ");
        append_decimal(&mut text, self.end.y);
        assert(text@ =~= self.spec_to_svg());
        text
    }

    proof fn law_length(&self) {
        lemma_distance_bounds(self.start, self.end);
    }

    proof fn law_ends(&self) {
        let length = self.spec_length();
        lemma_distance_bounds(self.start, self.end);
        lemma_squared_distance_bounds(self.start, self.end);
        lemma_floor_sqrt_brackets(squared_distance(self.start, self.end) as nat);
        if length > 0 {
            lemma_slide(self.start.x, self.end.x, 0, length as int);
            lemma_slide(self.start.y, self.end.y, 0, length as int);
        } else {
            assert(squared_distance(self.start, self.end) < 1) by (nonlinear_arith)
                requires
                    squared_distance(self.start, self.end) < (0 + 1) * (0 + 1),
            ;
        }
    }

    proof fn law_line(start: P2, end: P2) {
    }

    proof fn law_arc(start: P2, direction: V2, end: P2) {
    }

    proof fn law_reverse(&self) {
        lemma_distance_bounds(self.start, self.end);
        lemma_points_within(self.start, self.start, THICKNESS as int, THICKNESS as int);
        lemma_points_within(self.end, self.end, THICKNESS as int, THICKNESS as int);
        let length = distance(self.start, self.end);
        if length > 0 {
            let along_x = self.span_x() * DIRECTION_UNIT;
            let along_y = self.span_y() * DIRECTION_UNIT;
            lemma_product_bound(self.span_x(), DIRECTION_UNIT as int, 0x1_0000_0000, 1_000_000);
            lemma_product_bound(self.span_y(), DIRECTION_UNIT as int, 0x1_0000_0000, 1_000_000);
            lemma_quotient_negates(along_x, length);
            lemma_quotient_negates(along_y, length);
            assert(self.spec_reverse().span_x() * DIRECTION_UNIT == -along_x) by (nonlinear_arith)
                requires
                    self.spec_reverse().span_x() == -self.span_x(),
                    along_x == self.span_x() * DIRECTION_UNIT,
            ;
            assert(self.spec_reverse().span_y() * DIRECTION_UNIT == -along_y) by (nonlinear_arith)
                requires
                    self.spec_reverse().span_y() == -self.span_y(),
                    along_y == self.span_y() * DIRECTION_UNIT,
            ;
        }
    }

    proof fn law_subsection(&self, start: N, end: N) {
        self.law_ends();
        self.law_length();
        lemma_points_within(self.start, self.start, THICKNESS as int, THICKNESS as int);
        lemma_points_within(self.end, self.end, THICKNESS as int, THICKNESS as int);
    }

    proof fn law_projection(&self, point: P2, tolerance: N) {
        lemma_distance_bounds(self.start, self.end);
    }

    proof fn law_crossings(&self, other: &Self) {
        lemma_distance_bounds(self.start, self.end);
        lemma_distance_bounds(other.start, other.end);
        if let Some(crossing) = self.spec_crossing(other) {
            let turn = cross(self.span_x(), self.span_y(), other.span_x(), other.span_y());
            let gap_x = other.start.x - self.start.x;
            let gap_y = other.start.y - self.start.y;
            let ours = cross(gap_x, gap_y, other.span_x(), other.span_y());
            let theirs = cross(gap_x, gap_y, self.span_x(), self.span_y());
            let whole = magnitude(turn);
            let t = if turn < 0 {
                -ours
            } else {
                ours
            };
            let u = if turn < 0 {
                -theirs
            } else {
                theirs
            };
            lemma_fraction(distance(self.start, self.end), t, whole);
            lemma_fraction(distance(other.start, other.end), u, whole);
            vstd::arithmetic::mul::lemma_mul_is_commutative(t, distance(self.start, self.end));
            vstd::arithmetic::mul::lemma_mul_is_commutative(u, distance(other.start, other.end));
        }
    }
}

} // verus!
