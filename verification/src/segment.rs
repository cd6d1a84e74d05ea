//! The capability that a path asks of its pieces.
//!
//! A segment is an atomic curve piece: a straight line or a circular arc.
//! The path algorithms never look inside one. They call the operations
//! below, and their contracts speak of the `spec_` function that stands for
//! each operation's result. The laws at the end are the few facts about
//! those results that the path algorithms rest on; every implementation
//! proves them.
use vstd::prelude::*;
use crate::geometry::{
    negated, points_within, MAX_SEGMENT_LENGTH, MIN_START_TO_END, N, P2, THICKNESS, V2,
};

verus! {

/// A crossing of two curves: where it lies, and how far along each curve.
#[derive(Clone, Copy, Debug, PartialEq, Eq, Structural)]
pub struct Intersection {
    pub position: P2,
    pub along_a: N,
    pub along_b: N,
}

/// The far end of a local range, cut back to the segment's own length.
pub open spec fn clipped_end(end: N, length: N) -> N {
    if end < length {
        end
    } else {
        length
    }
}

/// The near end of a local range, cut back to the segment's own start.
pub open spec fn clipped_start(start: N) -> N {
    if start > 0 {
        start
    } else {
        0
    }
}

/// An atomic curve piece, as far as a path needs to know it.
///
/// Each operation has a `spec_` function that says what it returns. An
/// implementation defines those functions, makes the operations return
/// exactly that, and proves the laws.
pub trait Segment: Sized + Copy {
    spec fn spec_line(start: P2, end: P2) -> Option<Self>;

    spec fn spec_arc_with_direction(start: P2, direction: V2, end: P2) -> Option<Self>;

    spec fn spec_start(&self) -> P2;

    spec fn spec_end(&self) -> P2;

    spec fn spec_start_direction(&self) -> V2;

    spec fn spec_end_direction(&self) -> V2;

    spec fn spec_length(&self) -> N;

    spec fn spec_is_linear(&self) -> bool;

    spec fn spec_along(&self, distance: N) -> P2;

    spec fn spec_direction_along(&self, distance: N) -> V2;

    spec fn spec_reverse(&self) -> Self;

    spec fn spec_subsection(&self, start: N, end: N) -> Option<Self>;

    spec fn spec_shift_orthogonally(&self, shift_to_right: N) -> Option<Self>;

    spec fn spec_is_roughly_within(&self, other: &Self, tolerance: N) -> bool;

    spec fn spec_includes(&self, point: P2) -> bool;

    spec fn spec_project_with_tolerance(&self, point: P2, tolerance: N) -> Option<N>;

    spec fn spec_intersect(&self, other: &Self) -> Seq<Intersection>;

    spec fn spec_to_svg(&self) -> Seq<char>;

    /// The straight segment from `start` to `end`, if the two span one.
    fn line(start: P2, end: P2) -> (r: Option<Self>)
        ensures
            r == Self::spec_line(start, end),
    ;

    /// The arc that leaves `start` in `direction` and arrives at `end`.
    fn arc_with_direction(start: P2, direction: V2, end: P2) -> (r: Option<Self>)
        ensures
            r == Self::spec_arc_with_direction(start, direction, end),
    ;

    fn start(&self) -> (r: P2)
        ensures
            r == self.spec_start(),
    ;

    fn end(&self) -> (r: P2)
        ensures
            r == self.spec_end(),
    ;

    fn start_direction(&self) -> (r: V2)
        ensures
            r == self.spec_start_direction(),
    ;

    fn end_direction(&self) -> (r: V2)
        ensures
            r == self.spec_end_direction(),
    ;

    /// The arc length.
    fn length(&self) -> (r: N)
        ensures
            r == self.spec_length(),
    ;

    /// Whether the segment is a straight line.
    fn is_linear(&self) -> (r: bool)
        ensures
            r == self.spec_is_linear(),
    ;

    /// The point at a local arc-length offset.
    fn along(&self, distance: N) -> (r: P2)
        ensures
            r == self.spec_along(distance),
    ;

    /// The direction of travel at a local arc-length offset.
    fn direction_along(&self, distance: N) -> (r: V2)
        ensures
            r == self.spec_direction_along(distance),
    ;

    /// The same piece, travelled the other way.
    fn reverse(&self) -> (r: Self)
        ensures
            r == self.spec_reverse(),
    ;

    /// The part between two local arc-length offsets, if there is one.
    fn subsection(&self, start: N, end: N) -> (r: Option<Self>)
        ensures
            r == self.spec_subsection(start, end),
    ;

    /// A parallel copy, displaced to the right of the direction of travel.
    fn shift_orthogonally(&self, shift_to_right: N) -> (r: Option<Self>)
        ensures
            r == self.spec_shift_orthogonally(shift_to_right),
    ;

    /// Whether `other` is the same piece up to `tolerance`.
    fn is_roughly_within(&self, other: &Self, tolerance: N) -> (r: bool)
        ensures
            r == self.spec_is_roughly_within(other, tolerance),
    ;

    /// Whether `point` lies on the segment, up to the tolerance.
    fn includes(&self, point: P2) -> (r: bool)
        ensures
            r == self.spec_includes(point),
    ;

    /// The local offset of the point of the segment nearest to `point`,
    /// where `point` lies beside the segment: its foot on the segment's
    /// course may lie no more than `tolerance` before the start or behind
    /// the end. How far the point is from the segment does not matter.
    fn project_with_tolerance(&self, point: P2, tolerance: N) -> (r: Option<N>)
        ensures
            r == self.spec_project_with_tolerance(point, tolerance),
    ;

    /// The crossings with `other`; `along_a` is local to this segment and
    /// `along_b` to `other`.
    fn intersect(&self, other: &Self) -> (r: Vec<Intersection>)
        ensures
            r@ == self.spec_intersect(other),
    ;

    /// The segment as path-data commands of a vector graphic.
    fn to_svg(&self) -> (r: String)
        ensures
            r@ == self.spec_to_svg(),
    ;

    /// A length is never negative and never beyond the longest segment.
    proof fn law_length(&self)
        ensures
            0 <= self.spec_length() <= MAX_SEGMENT_LENGTH,
    ;

    /// Sampling at offset zero gives the start, at the full length the end.
    proof fn law_ends(&self)
        ensures
            self.spec_along(0) == self.spec_start(),
            self.spec_along(self.spec_length()) == self.spec_end(),
    ;

    /// A line exists exactly between points that are not within the minimum
    /// span of each other, and it runs from the first to the second.
    proof fn law_line(start: P2, end: P2)
        ensures
            Self::spec_line(start, end) is Some <==> !points_within(
                start,
                end,
                MIN_START_TO_END as int,
            ),
            Self::spec_line(start, end) matches Some(s) ==> {
                &&& s.spec_start() == start
                &&& s.spec_end() == end
                &&& s.spec_is_linear()
            },
    ;

    /// An arc, where one exists, runs from the first point to the second.
    proof fn law_arc(start: P2, direction: V2, end: P2)
        ensures
            Self::spec_arc_with_direction(start, direction, end) matches Some(s) ==> {
                &&& s.spec_start() == start
                &&& s.spec_end() == end
            },
    ;

    /// Reversal swaps the ends, turns the directions at the ends around and
    /// keeps the length; done twice it gives back the piece, up to the
    /// tolerance.
    proof fn law_reverse(&self)
        ensures
            self.spec_reverse().spec_start() == self.spec_end(),
            self.spec_reverse().spec_end() == self.spec_start(),
            self.spec_reverse().spec_start_direction() == negated(self.spec_end_direction()),
            self.spec_reverse().spec_end_direction() == negated(self.spec_start_direction()),
            self.spec_reverse().spec_length() == self.spec_length(),
            self.spec_reverse().spec_reverse().spec_is_roughly_within(self, THICKNESS),
    ;

    /// A subsection runs between the sample points of the range cut back to
    /// the segment. A range that is empty after the cut gives nothing; one
    /// that is at least the minimum span long after the cut gives a piece.
    /// A range that covers a segment of at least the minimum span gives the
    /// segment back, up to the tolerance.
    proof fn law_subsection(&self, start: N, end: N)
        ensures
            self.spec_subsection(start, end) matches Some(piece) ==> {
                &&& piece.spec_start() == self.spec_along(clipped_start(start))
                &&& piece.spec_end() == self.spec_along(clipped_end(end, self.spec_length()))
            },
            clipped_end(end, self.spec_length()) <= clipped_start(start)
                ==> self.spec_subsection(start, end) is None,
            clipped_end(end, self.spec_length()) - clipped_start(start) >= MIN_START_TO_END
                ==> self.spec_subsection(start, end) is Some,
            start <= 0 && end >= self.spec_length() && self.spec_length() >= MIN_START_TO_END
                ==> self.spec_subsection(start, end) is Some && self.spec_subsection(
                start,
                end,
            )->0.spec_is_roughly_within(self, THICKNESS),
    ;

    /// A projection lands on the segment.
    proof fn law_projection(&self, point: P2, tolerance: N)
        ensures
            self.spec_project_with_tolerance(point, tolerance) matches Some(offset) ==> 0 <= offset
                <= self.spec_length(),
    ;

    /// Every crossing lies on both segments.
    proof fn law_crossings(&self, other: &Self)
        ensures
            forall|k: int|
                0 <= k < self.spec_intersect(other).len() ==> {
                    &&& 0 <= (#[trigger] self.spec_intersect(other)[k]).along_a
                        <= self.spec_length()
                    &&& 0 <= self.spec_intersect(other)[k].along_b <= other.spec_length()
                },
    ;
}

} // verus!
