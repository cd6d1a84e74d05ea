//! What holds of paths of straight segments.
use vstd::prelude::*;
use vstd::arithmetic::mul::lemma_mul_is_commutative;
use crate::chain::{
    closed, collect, crossings, crossings_from, crossings_with, distance_from, end_offset,
    far_right, flatten, inside, is_path, joined, lemma_collect_step, lemma_offsets_grow,
    lemma_start_offset, lemma_total_length_around, nearest, owner, pair_self_crossings,
    piece_each, pieces_between, point_along, projection, projection_each, projections, rebase_each, rebase_interior,
    self_crossings, self_crossings_from, self_crossings_with, start_offset, subsection_chain,
    total_length,
};
use crate::geometry::{
    distance, lemma_distance_bounds, lemma_floor_sqrt_brackets, lemma_points_within,
    lemma_squared_distance_bounds, squared_distance, MIN_START_TO_END, N, P2, THICKNESS,
};
use crate::laws::{
    law_owner, law_split_inside_and_concat, lemma_collect_all, lemma_collect_window,
};
use crate::line::{cross, LineSegment};
use crate::numeric::{
    lemma_fraction, lemma_product_bound, lemma_quotient_step, lemma_slide, magnitude,
};
use crate::segment::{Intersection, Segment};

verus! {

/// Two straight segments of which the second starts exactly where the
/// first ends cross nowhere but there, and a path made of the two reports
/// no self-intersection.
pub proof fn law_shared_end_is_no_self_intersection(a: LineSegment, b: LineSegment)
    requires
        a.end == b.start,
    ensures
        self_crossings(seq![a, b]) == Seq::<Intersection>::empty(),
{
    let segments = seq![a, b];
    let found = a.spec_intersect(&b);
    let keep = rebase_interior(
        found,
        a,
        b,
        start_offset(segments, 0),
        start_offset(segments, 1),
    );
    lemma_distance_bounds(a.start, a.end);
    if let Some(crossing) = a.spec_crossing(&b) {
        let turn = cross(a.span_x(), a.span_y(), b.span_x(), b.span_y());
        let whole = magnitude(turn);
        lemma_fraction(a.spec_length() as int, whole, whole);
        lemma_mul_is_commutative(whole, a.spec_length() as int);
        assert(crossing.along_a == a.spec_length());
        assert(found =~= seq![crossing]);
        lemma_collect_step(keep, 0);
        assert(keep(0) is None);
    } else {
        assert(found =~= Seq::empty());
    }
    assert(collect(keep, found.len() as int) =~= Seq::empty());
    assert(pair_self_crossings(segments, 0, 1) =~= Seq::empty());
    let with_first = self_crossings_with(segments, 0);
    let with_second = self_crossings_with(segments, 1);
    assert(flatten(with_first, 1, 2) =~= flatten(with_first, 1, 1) + with_first(1));
    assert(flatten(with_first, 1, 1) =~= Seq::empty());
    assert(flatten(with_second, 2, 2) =~= Seq::empty());
    let from = self_crossings_from(segments);
    assert(from(0) =~= Seq::empty());
    assert(from(1) =~= Seq::empty());
    assert(flatten(from, 0, 0) =~= Seq::empty());
    assert(flatten(from, 0, 1) =~= flatten(from, 0, 0) + from(0));
    assert(flatten(from, 0, 2) =~= flatten(from, 0, 1) + from(1));
}

/// On a closed path of straight segments, the subsection that starts a
/// short way before the end and stops the same way behind the start runs
/// over the seam: it is the tail of the last segment followed by the head of
/// the first.
pub proof fn law_straight_subsection_over_the_seam(segments: Seq<LineSegment>, reach: N)
    requires
        is_path(segments),
        closed(segments),
        2 <= segments.len() <= usize::MAX,
        MIN_START_TO_END <= reach,
        reach + THICKNESS <= segments[0].spec_length(),
        reach < segments.last().spec_length(),
    ensures
        ({
            let all = total_length(segments);
            let last = segments.last();
            let tail = LineSegment {
                start: last.spec_along((last.spec_length() - reach) as N),
                end: last.end,
            };
            let head = LineSegment { start: segments[0].start, end: segments[0].spec_along(reach) };
            subsection_chain(segments, (all - reach) as N, reach) == Some(seq![tail, head])
        }),
{
    let n = segments.len() as int;
    let all = total_length(segments);
    let last = segments.last();
    let first = segments[0];
    lemma_start_offset(segments, 0);
    lemma_start_offset(segments, 1);
    lemma_start_offset(segments, n - 1);
    lemma_offsets_grow(segments, 1, n - 1);
    first.law_ends();
    last.law_ends();
    let from = (all - reach) as N;
    let tail_each = piece_each(segments, from, all as N);
    assert forall|i: int| 0 <= i < n implies ((#[trigger] tail_each(i)) is Some <==> n - 1 <= i
        < n) by {
        lemma_start_offset(segments, i);
        if i < n - 1 {
            lemma_offsets_grow(segments, i + 1, n - 1);
        }
    }
    lemma_collect_window(tail_each, n - 1, n, n);
    let head_each = piece_each(segments, 0, reach);
    assert forall|i: int| 0 <= i < n implies ((#[trigger] head_each(i)) is Some <==> 0 <= i < 1) by {
        lemma_start_offset(segments, i);
        if 1 <= i {
            lemma_offsets_grow(segments, 1, i);
        }
    }
    lemma_collect_window(head_each, 0, 1, n);
    let tail = LineSegment { start: last.spec_along((last.spec_length() - reach) as N), end: last.end };
    let head = LineSegment { start: first.start, end: first.spec_along(reach) };
    assert(pieces_between(segments, from, all as N) =~= seq![tail]);
    assert(pieces_between(segments, 0, reach) =~= seq![head]);
    assert(is_path(seq![tail]));
    assert(is_path(seq![head]));
    assert(seq![tail] + seq![head] =~= seq![tail, head]);
}

/// The four sides of the rectangle between two corners, counter-clockwise
/// from the low corner.
pub open spec fn rectangle(low: P2, high: P2) -> Seq<LineSegment> {
    seq![
        LineSegment { start: low, end: P2 { x: high.x, y: low.y } },
        LineSegment { start: P2 { x: high.x, y: low.y }, end: high },
        LineSegment { start: high, end: P2 { x: low.x, y: high.y } },
        LineSegment { start: P2 { x: low.x, y: high.y }, end: low },
    ]
}

/// The crossings of a horizontal ray to the right edge of the plane with
/// an upright segment from height `from` to height `to` at `x`: one if the
/// segment stands at or to the right of the ray's start and spans its
/// height, else none.
pub proof fn lemma_ray_meets_upright(x: i32, from: i32, to: i32, point: P2)
    requires
        from != to,
        i32::MAX - point.x > MIN_START_TO_END,
    ensures
        ({
            let side = LineSegment { start: P2 { x, y: from }, end: P2 { x, y: to } };
            let ray = LineSegment { start: point, end: far_right(point) };
            let spans = (from <= point.y <= to) || (to <= point.y <= from);
            side.spec_intersect(&ray).len() == if spans && point.x <= x {
                1nat
            } else {
                0nat
            }
        }),
{
    let side = LineSegment { start: P2 { x, y: from }, end: P2 { x, y: to } };
    let ray = LineSegment { start: point, end: far_right(point) };
    let run = i32::MAX - point.x;
    let rise = to - from;
    let turn = cross(side.span_x(), side.span_y(), ray.span_x(), ray.span_y());
    let gap_x = point.x - x;
    let gap_y = point.y - from;
    let ours = cross(gap_x, gap_y, ray.span_x(), ray.span_y());
    let theirs = cross(gap_x, gap_y, side.span_x(), side.span_y());
    assert(turn == -(rise * run)) by (nonlinear_arith)
        requires
            turn == 0 * 0 - rise * run,
    ;
    assert(ours == -(gap_y * run)) by (nonlinear_arith)
        requires
            ours == gap_x * 0 - gap_y * run,
    ;
    assert(theirs == gap_x * rise) by (nonlinear_arith)
        requires
            theirs == gap_x * rise - gap_y * 0,
    ;
    assert(rise > 0 ==> rise * run > 0) by (nonlinear_arith)
        requires
            run > 0,
    ;
    assert(rise < 0 ==> rise * run < 0) by (nonlinear_arith)
        requires
            run > 0,
    ;
    assert((0 <= gap_y * run <= rise * run) <==> (0 <= gap_y <= rise)) by (nonlinear_arith)
        requires
            run > 0,
    ;
    assert((0 <= -(gap_y * run) <= -(rise * run)) <==> (0 <= -gap_y <= -rise)) by (nonlinear_arith)
        requires
            run > 0,
    ;
    assert(rise > 0 ==> ((0 <= -(gap_x * rise) <= rise * run) <==> (0 <= -gap_x <= run)))
        by (nonlinear_arith);
    assert(rise < 0 ==> ((0 <= gap_x * rise <= -(rise * run)) <==> (0 <= -gap_x <= run)))
        by (nonlinear_arith);
}

/// A horizontal ray crosses no level segment.
pub proof fn lemma_ray_misses_level(from: i32, to: i32, y: i32, point: P2)
    ensures
        ({
            let side = LineSegment { start: P2 { x: from, y }, end: P2 { x: to, y } };
            let ray = LineSegment { start: point, end: far_right(point) };
            side.spec_intersect(&ray).len() == 0
        }),
{
    let side = LineSegment { start: P2 { x: from, y }, end: P2 { x: to, y } };
    let ray = LineSegment { start: point, end: far_right(point) };
    assert(cross(side.span_x(), side.span_y(), ray.span_x(), ray.span_y()) == 0)
        by (nonlinear_arith)
        requires
            side.span_y() == 0,
            ray.span_y() == 0,
    ;
}

/// A rectangle contains the points strictly inside it and none outside
/// it, for every point that leaves room for a ray.
pub proof fn law_rectangle_contains_its_inside(low: P2, high: P2, point: P2)
    requires
        low.x < high.x,
        low.y < high.y,
        i32::MAX - point.x > MIN_START_TO_END,
    ensures
        is_path(rectangle(low, high)),
        closed(rectangle(low, high)),
        low.x < point.x < high.x && low.y < point.y < high.y ==> inside(
            rectangle(low, high),
            point,
        ),
        point.x < low.x || point.x > high.x || point.y < low.y || point.y > high.y ==> !inside(
            rectangle(low, high),
            point,
        ),
{
    let sides = rectangle(low, high);
    let ray = LineSegment { start: point, end: far_right(point) };
    let beam = seq![ray];
    assert forall|i: int| #![trigger sides[i]] 0 <= i && i + 1 < sides.len() implies joined(
        sides[i],
        sides[i + 1],
    ) by {
        lemma_points_within(
            sides[i].end,
            sides[i].end,
            THICKNESS as int,
            THICKNESS as int,
        );
    }
    lemma_points_within(low, low, THICKNESS as int, THICKNESS as int);
    assert(squared_distance(point, far_right(point)) == (i32::MAX - point.x) * (i32::MAX
        - point.x)) by (nonlinear_arith)
        requires
            far_right(point).x == i32::MAX,
            far_right(point).y == point.y,
    ;
    assert((i32::MAX - point.x) * (i32::MAX - point.x) > MIN_START_TO_END * MIN_START_TO_END)
        by (nonlinear_arith)
        requires
            i32::MAX - point.x > MIN_START_TO_END,
    ;
    assert(LineSegment::spec_line(point, far_right(point)) == Some(ray));
    lemma_ray_misses_level(low.x, high.x, low.y, point);
    lemma_ray_meets_upright(high.x, low.y, high.y, point);
    lemma_ray_misses_level(high.x, low.x, high.y, point);
    lemma_ray_meets_upright(low.x, high.y, low.y, point);
    assert forall|i: int| 0 <= i < 4 implies (#[trigger] crossings_from(sides, beam)(i)).len()
        == sides[i].spec_intersect(&ray).len() by {
        let with = crossings_with(sides, i, beam);
        let found = sides[i].spec_intersect(&ray);
        lemma_collect_all(rebase_each(found, start_offset(sides, i), start_offset(beam, 0)), found.len() as int);
        assert(flatten(with, 0, 1) =~= flatten(with, 0, 0) + with(0));
        assert(flatten(with, 0, 0) =~= Seq::empty());
    }
    let from = crossings_from(sides, beam);
    assert(flatten(from, 0, 0) =~= Seq::empty());
    assert(flatten(from, 0, 1) =~= flatten(from, 0, 0) + from(0));
    assert(flatten(from, 0, 2) =~= flatten(from, 0, 1) + from(1));
    assert(flatten(from, 0, 3) =~= flatten(from, 0, 2) + from(2));
    assert(flatten(from, 0, 4) =~= flatten(from, 0, 3) + from(3));
    assert(crossings(sides, beam).len() == from(0).len() + from(1).len() + from(2).len() + from(
        3,
    ).len());
}

/// The distance from a point to a path of one straight segment is the
/// distance to the point of the segment nearest to it, wherever the foot of
/// the perpendicular lies on the segment or within the tolerance of its
/// ends, however far the point is from the segment. Else it is the
/// distance to the nearer end.
pub proof fn law_distance_to_a_straight_path(segment: LineSegment, point: P2)
    ensures
        ({
            let path = seq![segment];
            let reach = segment.spec_reach(point);
            let foot = segment.spec_foot(point);
            let near = -THICKNESS <= reach <= segment.spec_length() + THICKNESS;
            &&& near ==> projection(path, point, THICKNESS) == Some(foot)
            &&& near ==> distance_from(path, point) == distance(point, segment.spec_along(foot))
            &&& !near ==> projection(path, point, THICKNESS) is None
            &&& !near ==> distance_from(path, point) == if distance(point, segment.start)
                <= distance(point, segment.end) {
                distance(point, segment.start)
            } else {
                distance(point, segment.end)
            }
        }),
{
    let path = seq![segment];
    let foot = segment.spec_foot(point);
    let each = projection_each(path, point, THICKNESS);
    lemma_distance_bounds(segment.start, segment.end);
    segment.law_ends();
    assert(path.take(0) =~= Seq::<LineSegment>::empty());
    assert(start_offset(path, 0) == 0);
    assert(path.drop_last() =~= Seq::<LineSegment>::empty());
    assert(total_length(path.drop_last()) == 0);
    assert(total_length(path) == segment.spec_length());
    lemma_collect_step(each, 0);
    let found = projections(path, point, THICKNESS);
    if -THICKNESS <= segment.spec_reach(point) <= segment.spec_length() + THICKNESS {
        assert(each(0) == Some(foot));
        assert(found =~= seq![foot]);
        assert(found.drop_last() =~= Seq::<N>::empty());
        assert(nearest(path, point, found.drop_last()) is None);
        assert(nearest(path, point, found) == Some(foot));
        assert(owner(path.drop_last(), foot as int) is None);
        assert(point_along(path, foot) == segment.spec_along(foot));
    } else {
        assert(each(0) is None);
        assert(found =~= Seq::<N>::empty());
    }
}

/// Splitting a path of straight segments inside a segment, at least the
/// minimum span from the segment's two ends, and joining the two halves
/// gives the path with that one segment cut in two at the sample point of
/// the split: every other segment is as it was.
pub proof fn law_straight_split_inside_and_concat(segments: Seq<LineSegment>, at: N)
    requires
        is_path(segments),
        segments.len() <= usize::MAX,
        forall|i: int|
            0 <= i < segments.len() ==> (#[trigger] segments[i]).spec_length() >= MIN_START_TO_END,
        0 <= at < total_length(segments),
        owner(segments, at as int) matches Some(m) && at - start_offset(segments, m)
            >= MIN_START_TO_END && end_offset(segments, m) - at >= MIN_START_TO_END,
    ensures
        ({
            let all = total_length(segments) as N;
            let m = owner(segments, at as int)->0;
            let cut = point_along(segments, at);
            let before = LineSegment { start: segments[m].start, end: cut };
            let behind = LineSegment { start: cut, end: segments[m].end };
            &&& subsection_chain(segments, 0, at) == Some(segments.take(m).push(before))
            &&& subsection_chain(segments, at, all) == Some(
                seq![behind] + segments.skip(m + 1),
            )
            &&& joined(before, behind)
        }),
{
    let n = segments.len() as int;
    let all = total_length(segments) as N;
    law_split_inside_and_concat(segments, at);
    let m = owner(segments, at as int)->0;
    let cut = point_along(segments, at);
    let before = LineSegment { start: segments[m].start, end: cut };
    let behind = LineSegment { start: cut, end: segments[m].end };
    let first = subsection_chain(segments, 0, at)->0;
    let second = subsection_chain(segments, at, all)->0;
    let cut_first = segments.take(m).push(before);
    let cut_second = seq![behind] + segments.skip(m + 1);
    assert(first.last() == first[m]);
    assert forall|i: int| 0 <= i < m + 1 implies #[trigger] first[i] == cut_first[i] by {
        lemma_same_ends(first[i], cut_first[i]);
    }
    assert(first =~= cut_first);
    assert forall|j: int| 0 <= j < n - m implies #[trigger] second[j] == cut_second[j] by {
        lemma_same_ends(second[j], cut_second[j]);
    }
    assert(second =~= cut_second);
}

/// Straight segments with the same two ends are the same.
pub proof fn lemma_same_ends(a: LineSegment, b: LineSegment)
    ensures
        a.spec_start() == b.spec_start() && a.spec_end() == b.spec_end() ==> a == b,
{
}

/// How far a sum of two squares moves when each root moves by less than
/// `slack`: by less than twice the slack times the sum of the roots' sizes,
/// and the slack squared twice.
pub proof fn lemma_squares_move(x: int, y: int, to_x: int, to_y: int, slack: int)
    requires
        -slack < x - to_x < slack,
        -slack < y - to_y < slack,
    ensures
        x * x + y * y <= to_x * to_x + to_y * to_y + 2 * slack * (magnitude(to_x) + magnitude(
            to_y,
        )) + 2 * slack * slack,
        x * x + y * y >= to_x * to_x + to_y * to_y - 2 * slack * (magnitude(to_x) + magnitude(
            to_y,
        )),
{
    lemma_square_moves(x, to_x, slack);
    lemma_square_moves(y, to_y, slack);
    let size_x = magnitude(to_x);
    let size_y = magnitude(to_y);
    assert(2 * slack * (size_x + size_y) == 2 * slack * size_x + 2 * slack * size_y)
        by (nonlinear_arith);
    assert(2 * slack * slack == slack * slack + slack * slack) by (nonlinear_arith);
}

/// How far a square moves when its root moves by less than `slack`.
pub proof fn lemma_square_moves(x: int, to: int, slack: int)
    requires
        -slack < x - to < slack,
    ensures
        to * to - 2 * slack * magnitude(to) <= x * x <= to * to + 2 * slack * magnitude(to)
            + slack * slack,
{
    let off = x - to;
    assert(x * x == to * to + 2 * to * off + off * off) by (nonlinear_arith)
        requires
            off == x - to,
    ;
    assert(0 <= off * off <= slack * slack) by (nonlinear_arith)
        requires
            -slack < off < slack,
    ;
    assert(-(slack * magnitude(to)) <= to * off <= slack * magnitude(to)) by (nonlinear_arith)
        requires
            -slack < off < slack,
    ;
    assert(2 * to * off == 2 * (to * off)) by (nonlinear_arith);
    assert(2 * slack * magnitude(to) == 2 * (slack * magnitude(to))) by (nonlinear_arith);
}

/// The piece of a straight segment between two of its own offsets is as
/// long as the range between them, up to a few units of rounding.
pub proof fn law_piece_is_as_long_as_its_range(segment: LineSegment, from: N, to: N)
    requires
        0 <= from <= to <= segment.spec_length(),
    ensures
        ({
            let piece = LineSegment { start: segment.spec_along(from), end: segment.spec_along(to) };
            to - from - 5 <= piece.spec_length() <= to - from + 2
        }),
{
    let whole = segment.spec_length() as int;
    let range = to - from;
    let piece = LineSegment { start: segment.spec_along(from), end: segment.spec_along(to) };
    lemma_distance_bounds(segment.start, segment.end);
    lemma_distance_bounds(piece.start, piece.end);
    lemma_squared_distance_bounds(piece.start, piece.end);
    lemma_floor_sqrt_brackets(squared_distance(piece.start, piece.end) as nat);
    let long = piece.spec_length() as int;
    if whole > 0 {
        let span_x = segment.span_x();
        let span_y = segment.span_y();
        let across = squared_distance(segment.start, segment.end);
        lemma_squared_distance_bounds(segment.start, segment.end);
        lemma_floor_sqrt_brackets(across as nat);
        assert(across == span_x * span_x + span_y * span_y) by (nonlinear_arith)
            requires
                across == (segment.start.x - segment.end.x) * (segment.start.x - segment.end.x) + (
                segment.start.y - segment.end.y) * (segment.start.y - segment.end.y),
                span_x == segment.end.x - segment.start.x,
                span_y == segment.end.y - segment.start.y,
        ;
        assert(magnitude(span_x) <= whole && magnitude(span_y) <= whole) by (nonlinear_arith)
            requires
                span_x * span_x + span_y * span_y < (whole + 1) * (whole + 1),
                whole >= 0,
        ;
        lemma_slide(segment.start.x, segment.end.x, from as int, whole);
        lemma_slide(segment.start.x, segment.end.x, to as int, whole);
        lemma_slide(segment.start.y, segment.end.y, from as int, whole);
        lemma_slide(segment.start.y, segment.end.y, to as int, whole);
        let step_x = piece.end.x - piece.start.x;
        let step_y = piece.end.y - piece.start.y;
        lemma_quotient_step(span_x, from as int, to as int, whole);
        lemma_quotient_step(span_y, from as int, to as int, whole);
        let reached = squared_distance(piece.start, piece.end);
        assert(reached == step_x * step_x + step_y * step_y) by (nonlinear_arith)
            requires
                reached == (piece.start.x - piece.end.x) * (piece.start.x - piece.end.x) + (
                piece.start.y - piece.end.y) * (piece.start.y - piece.end.y),
                step_x == piece.end.x - piece.start.x,
                step_y == piece.end.y - piece.start.y,
        ;
        let scaled_x = whole * step_x;
        let scaled_y = whole * step_y;
        let true_x = span_x * range;
        let true_y = span_y * range;
        lemma_squares_move(scaled_x, scaled_y, true_x, true_y, whole);
        lemma_product_bound(span_x, range, whole, range);
        lemma_product_bound(span_y, range, whole, range);
        assert(scaled_x * scaled_x + scaled_y * scaled_y == whole * whole * reached)
            by (nonlinear_arith)
            requires
                scaled_x == whole * step_x,
                scaled_y == whole * step_y,
                reached == step_x * step_x + step_y * step_y,
        ;
        assert(true_x * true_x + true_y * true_y == range * range * across) by (nonlinear_arith)
            requires
                true_x == span_x * range,
                true_y == span_y * range,
                across == span_x * span_x + span_y * span_y,
        ;
        assert(range * range * (whole * whole) <= range * range * across <= range * range * ((
            whole + 1) * (whole + 1))) by (nonlinear_arith)
            requires
                whole * whole <= across < (whole + 1) * (whole + 1),
                range >= 0,
        ;
        assert(range * range * ((whole + 1) * (whole + 1)) <= whole * whole * ((range + 1) * (
            range + 1))) by (nonlinear_arith)
            requires
                0 <= range <= whole,
        ;
        assert(2 * whole * (whole * range + whole * range) + 2 * whole * whole == whole * whole
            * (4 * range + 2)) by (nonlinear_arith);
        assert(2 * whole * (whole * range + whole * range) == whole * whole * (4 * range))
            by (nonlinear_arith);
        assert(2 * whole * (magnitude(true_x) + magnitude(true_y)) <= 2 * whole * (whole * range
            + whole * range)) by (nonlinear_arith)
            requires
                magnitude(true_x) <= whole * range,
                magnitude(true_y) <= whole * range,
                whole > 0,
        ;
        assert(whole * whole * reached <= whole * whole * ((range + 1) * (range + 1) + 4 * range
            + 2)) by (nonlinear_arith)
            requires
                scaled_x * scaled_x + scaled_y * scaled_y == whole * whole * reached,
                scaled_x * scaled_x + scaled_y * scaled_y <= range * range * across + 2 * whole
                    * (magnitude(true_x) + magnitude(true_y)) + 2 * whole * whole,
                range * range * across <= whole * whole * ((range + 1) * (range + 1)),
                2 * whole * (magnitude(true_x) + magnitude(true_y)) + 2 * whole * whole <= whole
                    * whole * (4 * range + 2),
        ;
        assert(whole * whole * reached >= whole * whole * (range * range - 4 * range))
            by (nonlinear_arith)
            requires
                scaled_x * scaled_x + scaled_y * scaled_y == whole * whole * reached,
                scaled_x * scaled_x + scaled_y * scaled_y >= range * range * across - 2 * whole
                    * (magnitude(true_x) + magnitude(true_y)),
                range * range * across >= range * range * (whole * whole),
                2 * whole * (magnitude(true_x) + magnitude(true_y)) <= whole * whole * (4
                    * range),
        ;
        assert(reached <= (range + 1) * (range + 1) + 4 * range + 2 && reached >= range * range
            - 4 * range) by (nonlinear_arith)
            requires
                whole > 0,
                whole * whole * reached <= whole * whole * ((range + 1) * (range + 1) + 4 * range
                    + 2),
                whole * whole * reached >= whole * whole * (range * range - 4 * range),
        ;
        assert(long <= range + 2) by (nonlinear_arith)
            requires
                long * long <= reached,
                reached <= (range + 1) * (range + 1) + 4 * range + 2,
                long >= 0,
                range >= 0,
        ;
        assert(long >= range - 5) by (nonlinear_arith)
            requires
                reached < (long + 1) * (long + 1),
                reached >= range * range - 4 * range,
                long >= 0,
                range >= 0,
        ;
    }
}

/// Splitting a path of straight segments inside a segment and joining the
/// halves keeps the length of the path, up to a few units of rounding and
/// well within the tolerance.
pub proof fn law_straight_split_keeps_the_length(segments: Seq<LineSegment>, at: N)
    requires
        is_path(segments),
        segments.len() <= usize::MAX,
        forall|i: int|
            0 <= i < segments.len() ==> (#[trigger] segments[i]).spec_length() >= MIN_START_TO_END,
        0 <= at < total_length(segments),
        owner(segments, at as int) matches Some(m) && at - start_offset(segments, m)
            >= MIN_START_TO_END && end_offset(segments, m) - at >= MIN_START_TO_END,
    ensures
        ({
            let first = subsection_chain(segments, 0, at)->0;
            let second = subsection_chain(segments, at, total_length(segments) as N)->0;
            &&& total_length(segments) - 10 <= total_length(first + second) <= total_length(
                segments,
            ) + 4
            &&& at - 5 <= total_length(first) <= at + 2
        }),
{
    let all = total_length(segments) as N;
    law_straight_split_inside_and_concat(segments, at);
    law_split_inside_and_concat(segments, at);
    law_owner(segments, at as int);
    let m = owner(segments, at as int)->0;
    let piece = segments[m];
    let local = (at - start_offset(segments, m)) as N;
    let cut = point_along(segments, at);
    let before = LineSegment { start: piece.start, end: cut };
    let behind = LineSegment { start: cut, end: piece.end };
    lemma_straight_cut(piece, local);
    let first = segments.take(m).push(before);
    let second = seq![behind] + segments.skip(m + 1);
    lemma_total_length_around(segments, m);
    lemma_total_length_around(first, m);
    assert(first.take(m) =~= segments.take(m));
    lemma_total_length_around(second, 0);
    assert(second.take(0) =~= Seq::<LineSegment>::empty());
    assert(second.skip(1) =~= segments.skip(m + 1));
    assert(first.skip(m + 1) =~= Seq::<LineSegment>::empty());
}

/// The two sides of a cut through a straight segment are together as long
/// as the segment, up to a few units of rounding.
pub proof fn lemma_straight_cut(segment: LineSegment, local: N)
    requires
        0 <= local <= segment.spec_length(),
    ensures
        ({
            let cut = segment.spec_along(local);
            let before = LineSegment { start: segment.start, end: cut };
            let behind = LineSegment { start: cut, end: segment.end };
            &&& local - 5 <= before.spec_length() <= local + 2
            &&& segment.spec_length() - local - 5 <= behind.spec_length() <= segment.spec_length()
                - local + 2
        }),
{
    segment.law_ends();
    segment.law_length();
    law_piece_is_as_long_as_its_range(segment, 0, local);
    law_piece_is_as_long_as_its_range(segment, local, segment.spec_length());
}

/// On a closed path of straight segments, the subsection over the seam
/// with a reach inside the first and the last segment is about twice the
/// reach long: the reach on either side, up to a few units of rounding.
pub proof fn law_straight_seam_length(segments: Seq<LineSegment>, reach: N)
    requires
        is_path(segments),
        closed(segments),
        2 <= segments.len() <= usize::MAX,
        MIN_START_TO_END <= reach,
        reach + THICKNESS <= segments[0].spec_length(),
        reach < segments.last().spec_length(),
    ensures
        ({
            let over = subsection_chain(
                segments,
                (total_length(segments) - reach) as N,
                reach,
            )->0;
            2 * reach - 10 <= total_length(over) <= 2 * reach + 4
        }),
{
    let last = segments.last();
    let first = segments[0];
    law_straight_subsection_over_the_seam(segments, reach);
    lemma_straight_cut(last, (last.spec_length() - reach) as N);
    lemma_straight_cut(first, reach);
    let tail = LineSegment {
        start: last.spec_along((last.spec_length() - reach) as N),
        end: last.end,
    };
    let head = LineSegment { start: first.start, end: first.spec_along(reach) };
    let over = seq![tail, head];
    lemma_total_length_around(over, 0);
    assert(over.take(0) =~= Seq::<LineSegment>::empty());
    lemma_total_length_around(over.skip(1), 0);
    assert(over.skip(1).take(0) =~= Seq::<LineSegment>::empty());
    assert(over.skip(1).skip(1) =~= Seq::<LineSegment>::empty());
    assert(over.skip(1)[0] == head);
}

} // verus!
