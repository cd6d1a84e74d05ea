//! The mathematical model of a path: a sequence of segments, and what the
//! path operations mean on it.
use vstd::prelude::*;
use crate::geometry::{
    distance, lemma_points_within, negated, points_within, scalars_within, spec_rebase,
    squared_distance, MAX_SEGMENT_LENGTH, MIN_START_TO_END, N, P2, THICKNESS, V2,
};
use crate::segment::{Intersection, Segment};

verus! {

/// Whether `b` starts where `a` ends, up to the tolerance.
pub open spec fn joined<S: Segment>(a: S, b: S) -> bool {
    points_within(a.spec_end(), b.spec_start(), THICKNESS as int)
}

/// Whether every segment starts where the one before it ends.
pub open spec fn continuous<S: Segment>(segments: Seq<S>) -> bool {
    forall|i: int|
        #![trigger segments[i]]
        0 <= i && i + 1 < segments.len() ==> joined(segments[i], segments[i + 1])
}

/// The invariant of a path: at least one segment, and no gaps.
pub open spec fn is_path<S: Segment>(segments: Seq<S>) -> bool {
    segments.len() > 0 && continuous(segments)
}

/// Whether the last segment ends where the first one starts.
pub open spec fn closed<S: Segment>(segments: Seq<S>) -> bool {
    points_within(segments.last().spec_end(), segments[0].spec_start(), THICKNESS as int)
}

/// The sum of the segments' lengths.
pub open spec fn total_length<S: Segment>(segments: Seq<S>) -> int
    decreases segments.len(),
{
    if segments.len() == 0 {
        0
    } else {
        total_length(segments.drop_last()) + segments.last().spec_length()
    }
}

/// The arc length at which segment `i` starts: the sum of the lengths
/// before it.
pub open spec fn start_offset<S: Segment>(segments: Seq<S>, i: int) -> int {
    total_length(segments.take(i))
}

/// The values that `f` yields on `0..n`, in order, leaving out where it
/// yields nothing.
pub open spec fn collect<T>(f: spec_fn(int) -> Option<T>, n: int) -> Seq<T>
    decreases n,
{
    if n <= 0 {
        Seq::empty()
    } else {
        match f(n - 1) {
            Some(x) => collect(f, n - 1).push(x),
            None => collect(f, n - 1),
        }
    }
}

/// The sequences that `f` yields on `low..high`, one after the other.
pub open spec fn flatten<T>(f: spec_fn(int) -> Seq<T>, low: int, high: int) -> Seq<T>
    decreases high - low,
{
    if high <= low {
        Seq::empty()
    } else {
        flatten(f, low, high - 1) + f(high - 1)
    }
}

/// Whether a local offset sits on an end of a segment of the given length,
/// up to the tolerance.
pub open spec fn at_an_end(along: N, length: N) -> bool {
    scalars_within(along as int, 0, THICKNESS as int) || scalars_within(
        along as int,
        length as int,
        THICKNESS as int,
    )
}

/// Whether a crossing of segments `a` and `b` lies off the ends of both.
pub open spec fn interior_crossing<S: Segment>(crossing: Intersection, a: S, b: S) -> bool {
    !at_an_end(crossing.along_a, a.spec_length()) && !at_an_end(crossing.along_b, b.spec_length())
}

/// A crossing with its two local offsets moved to whole-path arc length.
pub open spec fn rebased(crossing: Intersection, offset_a: int, offset_b: int) -> Intersection {
    Intersection {
        position: crossing.position,
        along_a: (offset_a + crossing.along_a) as N,
        along_b: (offset_b + crossing.along_b) as N,
    }
}

/// Maps index `k` to the `k`-th crossing of `found`, rebased.
pub open spec fn rebase_each(found: Seq<Intersection>, offset_a: int, offset_b: int) -> spec_fn(
    int,
) -> Option<Intersection> {
    |k: int| Some(rebased(found[k], offset_a, offset_b))
}

/// Maps index `k` to the `k`-th crossing of `found`, rebased, if it lies
/// off the ends of both segments.
pub open spec fn rebase_interior<S: Segment>(
    found: Seq<Intersection>,
    a: S,
    b: S,
    offset_a: int,
    offset_b: int,
) -> spec_fn(int) -> Option<Intersection> {
    |k: int|
        if interior_crossing(found[k], a, b) {
            Some(rebased(found[k], offset_a, offset_b))
        } else {
            None
        }
}

/// The crossings of segments `i` and `j` of one path that are no artefact
/// of a shared endpoint, in whole-path arc length.
pub open spec fn pair_self_crossings<S: Segment>(segments: Seq<S>, i: int, j: int) -> Seq<
    Intersection,
> {
    let found = segments[i].spec_intersect(&segments[j]);
    collect(
        rebase_interior(
            found,
            segments[i],
            segments[j],
            start_offset(segments, i),
            start_offset(segments, j),
        ),
        found.len() as int,
    )
}

/// Maps `j` to the crossings of segment `i` with segment `j`.
pub open spec fn self_crossings_with<S: Segment>(segments: Seq<S>, i: int) -> spec_fn(int) -> Seq<
    Intersection,
> {
    |j: int| pair_self_crossings(segments, i, j)
}

/// Maps `i` to the crossings of segment `i` with every later segment.
pub open spec fn self_crossings_from<S: Segment>(segments: Seq<S>) -> spec_fn(int) -> Seq<
    Intersection,
> {
    |i: int| flatten(self_crossings_with(segments, i), i + 1, segments.len() as int)
}

/// The self-intersections of a path: for every pair of distinct segments,
/// taken once with the earlier segment first, their crossings off the
/// segments' ends.
pub open spec fn self_crossings<S: Segment>(segments: Seq<S>) -> Seq<Intersection> {
    flatten(self_crossings_from(segments), 0, segments.len() as int)
}

/// The crossings of segment `i` of one path with segment `j` of another,
/// in whole-path arc length.
pub open spec fn pair_crossings<S: Segment>(a: Seq<S>, i: int, b: Seq<S>, j: int) -> Seq<
    Intersection,
> {
    let found = a[i].spec_intersect(&b[j]);
    collect(rebase_each(found, start_offset(a, i), start_offset(b, j)), found.len() as int)
}

/// Maps `j` to the crossings of segment `i` of `a` with segment `j` of `b`.
pub open spec fn crossings_with<S: Segment>(a: Seq<S>, i: int, b: Seq<S>) -> spec_fn(int) -> Seq<
    Intersection,
> {
    |j: int| pair_crossings(a, i, b, j)
}

/// Maps `i` to the crossings of segment `i` of `a` with all of `b`.
pub open spec fn crossings_from<S: Segment>(a: Seq<S>, b: Seq<S>) -> spec_fn(int) -> Seq<
    Intersection,
> {
    |i: int| flatten(crossings_with(a, i, b), 0, b.len() as int)
}

/// The crossings of two paths: those of every segment of the first with
/// every segment of the second.
pub open spec fn crossings<S: Segment>(a: Seq<S>, b: Seq<S>) -> Seq<Intersection> {
    flatten(crossings_from(a, b), 0, a.len() as int)
}

/// Whether a chain is taken for a ring when it is welded: its last end
/// lies within three times the tolerance of its first start.
pub open spec fn nearly_closed<S: Segment>(segments: Seq<S>) -> bool {
    points_within(segments.last().spec_end(), segments[0].spec_start(), 3 * THICKNESS)
}

/// The chain that welding works on: the segments, with the first one
/// once more at the end where they are taken for a ring.
pub open spec fn ring<S: Segment>(segments: Seq<S>) -> Seq<S> {
    if nearly_closed(segments) {
        segments.push(segments[0])
    } else {
        segments
    }
}

/// The piece that stands for `a` when `b` follows it: it starts where `a`
/// starts and ends where `b` starts, a line if `a` is one, else an arc that
/// leaves in the direction in which `a` leaves.
pub open spec fn weld<S: Segment>(a: S, b: S) -> Option<S> {
    if a.spec_is_linear() {
        S::spec_line(a.spec_start(), b.spec_start())
    } else {
        S::spec_arc_with_direction(a.spec_start(), a.spec_start_direction(), b.spec_start())
    }
}

/// The weld of the pair of segments at `i` and `i + 1`.
pub open spec fn weld_at<S: Segment>(chain: Seq<S>, i: int) -> Option<S> {
    weld(chain[i], chain[i + 1])
}

/// Whether every adjacent pair of the chain to weld has its weld.
pub open spec fn weldable<S: Segment>(segments: Seq<S>) -> bool {
    forall|i: int|
        0 <= i && i + 1 < ring(segments).len() ==> (#[trigger] weld_at(ring(segments), i)) is Some
}

/// The welded chain: the weld of every adjacent pair, and after them the
/// last segment as it is unless the chain is taken for a ring.
pub open spec fn welded<S: Segment>(segments: Seq<S>) -> Seq<S> {
    let chain = ring(segments);
    let run = Seq::new((chain.len() - 1) as nat, |i: int| weld_at(chain, i)->0);
    if nearly_closed(segments) {
        run
    } else {
        run.push(segments.last())
    }
}

/// Maps `i` to segment `i` displaced to the right, where that exists.
pub open spec fn shift_each<S: Segment>(segments: Seq<S>, shift_to_right: N) -> spec_fn(
    int,
) -> Option<S> {
    |i: int| segments[i].spec_shift_orthogonally(shift_to_right)
}

/// The displaced copies of the segments, without those that have none.
pub open spec fn shifted<S: Segment>(segments: Seq<S>, shift_to_right: N) -> Seq<S> {
    collect(shift_each(segments, shift_to_right), segments.len() as int)
}

/// The pieces with a straight bridge put into every gap between two of
/// them; nothing where some bridge cannot be built.
pub open spec fn bridged<S: Segment>(pieces: Seq<S>) -> Option<Seq<S>>
    decreases pieces.len(),
{
    if pieces.len() <= 1 {
        Some(pieces)
    } else {
        let a = pieces[pieces.len() - 2];
        let b = pieces.last();
        match bridged(pieces.drop_last()) {
            None => None,
            Some(glued) => if joined(a, b) {
                Some(glued.push(b))
            } else {
                match S::spec_line(a.spec_end(), b.spec_start()) {
                    Some(bridge) => Some(glued.push(bridge).push(b)),
                    None => None,
                }
            },
        }
    }
}

/// The chain with a straight bridge from its end back to its start, where
/// it is to be a ring and is not one yet; nothing where that bridge cannot
/// be built.
pub open spec fn closed_off<S: Segment>(glued: Seq<S>, as_ring: bool) -> Option<Seq<S>> {
    if as_ring && !closed(glued) {
        match S::spec_line(glued.last().spec_end(), glued[0].spec_start()) {
            Some(bridge) => Some(glued.push(bridge)),
            None => None,
        }
    } else {
        Some(glued)
    }
}

/// The chain parallel to a path at a signed distance to its right: every
/// segment displaced on its own, gaps bridged, and the ring closed again if
/// the path was one. Nothing where no segment has a displaced copy or a
/// bridge cannot be built.
pub open spec fn offset_chain<S: Segment>(segments: Seq<S>, shift_to_right: N) -> Option<Seq<S>> {
    match bridged(shifted(segments, shift_to_right)) {
        None => None,
        Some(glued) => if glued.len() == 0 {
            None
        } else {
            closed_off(glued, closed(segments))
        },
    }
}

/// The part of segment `i` that lies between two whole-path offsets:
/// nothing if the segment lies wholly before `start` or wholly after `end`,
/// else what the segment gives for the range seen from its own start.
pub open spec fn piece_of<S: Segment>(segments: Seq<S>, start: N, end: N, i: int) -> Option<S> {
    let from = start_offset(segments, i);
    let to = from + segments[i].spec_length();
    if from > end || to < start {
        None
    } else {
        segments[i].spec_subsection(spec_rebase(start, from), spec_rebase(end, from))
    }
}

/// Maps `i` to the part of segment `i` between two whole-path offsets.
pub open spec fn piece_each<S: Segment>(segments: Seq<S>, start: N, end: N) -> spec_fn(
    int,
) -> Option<S> {
    |i: int| piece_of(segments, start, end, i)
}

/// The parts of the segments between two whole-path offsets, in order.
pub open spec fn pieces_between<S: Segment>(segments: Seq<S>, start: N, end: N) -> Seq<S> {
    collect(piece_each(segments, start, end), segments.len() as int)
}

/// The stretch of a path from `start` to `end`, read forwards: the parts
/// of its segments in that range, where they form a path.
pub open spec fn stretch<S: Segment>(segments: Seq<S>, start: N, end: N) -> Option<Seq<S>> {
    let pieces = pieces_between(segments, start, end);
    if is_path(pieces) {
        Some(pieces)
    } else {
        None
    }
}

/// Whether a range runs over the seam of a closed path: it starts behind
/// its end by more than the tolerance.
pub open spec fn wraps<S: Segment>(segments: Seq<S>, start: N, end: N) -> bool {
    start > end + THICKNESS && closed(segments)
}

/// The subsection of a path between two offsets. A range over the seam of
/// a closed path is the stretch from `start` to the path's end followed by
/// the stretch from its start to `end`, or the one of the two that exists.
pub open spec fn subsection_chain<S: Segment>(segments: Seq<S>, start: N, end: N) -> Option<
    Seq<S>,
> {
    if wraps(segments, start, end) {
        let tail = stretch(segments, start, total_length(segments) as N);
        let head = stretch(segments, 0, end);
        match (tail, head) {
            (Some(tail), Some(head)) => if joined(tail.last(), head[0]) {
                Some(tail + head)
            } else {
                None
            },
            (Some(tail), None) => Some(tail),
            (None, Some(head)) => Some(head),
            (None, None) => None,
        }
    } else {
        stretch(segments, start, end)
    }
}

/// The edge of a hull from its corner `k` to the next one, the first
/// corner following the last: the line between the two points, unless they
/// lie within the minimum span of each other.
pub open spec fn hull_edge<S: Segment>(points: Seq<P2>, corners: Seq<usize>, k: int) -> Option<S> {
    let from = points[corners[k] as int];
    let to = points[corners.push(corners[0])[k + 1] as int];
    if points_within(from, to, MIN_START_TO_END as int) {
        None
    } else {
        S::spec_line(from, to)
    }
}

/// Maps `k` to the hull's edge from corner `k` to the next one.
pub open spec fn hull_edge_each<S: Segment>(points: Seq<P2>, corners: Seq<usize>) -> spec_fn(
    int,
) -> Option<S> {
    |k: int| hull_edge(points, corners, k)
}

/// The edges of a hull, given as the indices of its corners in order.
pub open spec fn hull_edges<S: Segment>(points: Seq<P2>, corners: Seq<usize>) -> Seq<S> {
    collect(hull_edge_each(points, corners), corners.len() as int)
}

/// The arc length at which segment `i` ends.
pub open spec fn end_offset<S: Segment>(segments: Seq<S>, i: int) -> int {
    start_offset(segments, i + 1)
}

/// Whether segment `i` is the first that ends behind `distance`.
pub open spec fn owns<S: Segment>(segments: Seq<S>, i: int, distance: int) -> bool {
    &&& 0 <= i < segments.len()
    &&& end_offset(segments, i) > distance
    &&& forall|k: int| 0 <= k < i ==> #[trigger] end_offset(segments, k) <= distance
}

/// The index of the first segment that ends behind `distance`, if there
/// is one.
pub open spec fn owner<S: Segment>(segments: Seq<S>, distance: int) -> Option<int>
    decreases segments.len(),
{
    if segments.len() == 0 {
        None
    } else {
        match owner(segments.drop_last(), distance) {
            Some(i) => Some(i),
            None => if total_length(segments) > distance {
                Some(segments.len() - 1)
            } else {
                None
            },
        }
    }
}

/// The point of a path at an arc-length offset: the start for a negative
/// offset, the end for one that no segment owns, else the sample of the
/// owning segment at the offset seen from its own start.
pub open spec fn point_along<S: Segment>(segments: Seq<S>, distance: N) -> P2 {
    if distance < 0 {
        segments[0].spec_start()
    } else {
        match owner(segments, distance as int) {
            Some(i) => segments[i].spec_along((distance - start_offset(segments, i)) as N),
            None => segments.last().spec_end(),
        }
    }
}

/// The direction of a path at an arc-length offset, in the same way.
pub open spec fn direction_at<S: Segment>(segments: Seq<S>, distance: N) -> V2 {
    if distance < 0 {
        segments[0].spec_start_direction()
    } else {
        match owner(segments, distance as int) {
            Some(i) => segments[i].spec_direction_along(
                (distance - start_offset(segments, i)) as N,
            ),
            None => segments.last().spec_end_direction(),
        }
    }
}

/// The whole-path offset of the projection of `point` onto segment `i`.
pub open spec fn projection_on<S: Segment>(
    segments: Seq<S>,
    point: P2,
    tolerance: N,
    i: int,
) -> Option<N> {
    match segments[i].spec_project_with_tolerance(point, tolerance) {
        Some(offset) => Some((offset + start_offset(segments, i)) as N),
        None => None,
    }
}

/// Maps `i` to the projection of `point` onto segment `i`.
pub open spec fn projection_each<S: Segment>(segments: Seq<S>, point: P2, tolerance: N) -> spec_fn(
    int,
) -> Option<N> {
    |i: int| projection_on(segments, point, tolerance, i)
}

/// The projections of `point` onto the segments that have one, in order.
pub open spec fn projections<S: Segment>(segments: Seq<S>, point: P2, tolerance: N) -> Seq<N> {
    collect(projection_each(segments, point, tolerance), segments.len() as int)
}

/// The squared distance from `point` to the path at an offset.
pub open spec fn squared_gap<S: Segment>(segments: Seq<S>, point: P2, offset: N) -> int {
    squared_distance(point_along(segments, offset), point)
}

/// The first of the offsets at which the path comes nearest to `point`.
pub open spec fn nearest<S: Segment>(segments: Seq<S>, point: P2, offsets: Seq<N>) -> Option<N>
    decreases offsets.len(),
{
    if offsets.len() == 0 {
        None
    } else {
        match nearest(segments, point, offsets.drop_last()) {
            None => Some(offsets.last()),
            Some(best) => if squared_gap(segments, point, offsets.last()) < squared_gap(
                segments,
                point,
                best,
            ) {
                Some(offsets.last())
            } else {
                Some(best)
            },
        }
    }
}

/// The projection of `point` onto a path: of its projections onto the
/// segments, the first at which the path comes nearest to it.
pub open spec fn projection<S: Segment>(segments: Seq<S>, point: P2, tolerance: N) -> Option<N> {
    nearest(segments, point, projections(segments, point, tolerance))
}

/// The distance from `point` to a path, rounded down: to the point of the
/// path at its projection, or where it has none to the nearer of the path's
/// two ends.
pub open spec fn distance_from<S: Segment>(segments: Seq<S>, point: P2) -> int {
    match projection(segments, point, THICKNESS) {
        Some(offset) => distance(point, point_along(segments, offset)),
        None => {
            let to_start = distance(point, segments[0].spec_start());
            let to_end = distance(point, segments.last().spec_end());
            if to_start <= to_end {
                to_start
            } else {
                to_end
            }
        },
    }
}

/// Whether two chains have the same number of segments and are pairwise
/// the same up to `tolerance`.
pub open spec fn chains_within<S: Segment>(a: Seq<S>, b: Seq<S>, tolerance: N) -> bool {
    &&& a.len() == b.len()
    &&& forall|i: int| 0 <= i < a.len() ==> (#[trigger] a[i]).spec_is_roughly_within(&b[i], tolerance)
}

/// Whether `point` lies on some segment.
pub open spec fn on_chain<S: Segment>(segments: Seq<S>, point: P2) -> bool {
    exists|i: int| 0 <= i < segments.len() && (#[trigger] segments[i]).spec_includes(point)
}

/// The chain travelled the other way: the segments in reverse order, each
/// reversed.
pub open spec fn reversed<S: Segment>(segments: Seq<S>) -> Seq<S> {
    Seq::new(segments.len(), |i: int| segments[segments.len() - 1 - i].spec_reverse())
}

/// Maps `i` to the path data of segment `i`.
pub open spec fn svg_each<S: Segment>(segments: Seq<S>) -> spec_fn(int) -> Seq<char> {
    |i: int| segments[i].spec_to_svg()
}

/// The path data of a chain: that of its segments, one after the other.
pub open spec fn svg_of<S: Segment>(segments: Seq<S>) -> Seq<char> {
    flatten(svg_each(segments), 0, segments.len() as int)
}

/// The point at the right edge of the plane on the height of `point`.
pub open spec fn far_right(point: P2) -> P2 {
    P2 { x: i32::MAX, y: point.y }
}

/// Whether a ray from `point` to the right edge of the plane crosses the
/// path an odd number of times. A point so close to the edge that no ray
/// fits has nothing to its right and is not inside.
pub open spec fn inside<S: Segment>(segments: Seq<S>, point: P2) -> bool {
    match S::spec_line(point, far_right(point)) {
        Some(ray) => crossings(segments, seq![ray]).len() % 2 == 1,
        None => false,
    }
}

/// A sum of lengths is bounded by the number of segments.
pub proof fn lemma_total_length_bounds<S: Segment>(segments: Seq<S>)
    ensures
        0 <= total_length(segments) <= segments.len() * MAX_SEGMENT_LENGTH,
    decreases segments.len(),
{
    if segments.len() > 0 {
        lemma_total_length_bounds(segments.drop_last());
        segments.last().law_length();
        assert(segments.drop_last().len() * MAX_SEGMENT_LENGTH + MAX_SEGMENT_LENGTH
            == segments.len() * MAX_SEGMENT_LENGTH) by (nonlinear_arith)
            requires
                segments.drop_last().len() + 1 == segments.len(),
        ;
    } else {
        assert(segments.len() * MAX_SEGMENT_LENGTH == 0) by (nonlinear_arith)
            requires
                segments.len() == 0,
        ;
    }
}

/// The offsets of a path: the first is zero, each is the one before plus
/// that segment's length, none is negative, and all fit a scalar with room
/// for one more segment.
pub proof fn lemma_start_offset<S: Segment>(segments: Seq<S>, i: int)
    requires
        0 <= i <= segments.len(),
        segments.len() <= usize::MAX,
    ensures
        start_offset(segments, 0) == 0,
        i < segments.len() ==> start_offset(segments, i + 1) == start_offset(segments, i)
            + segments[i].spec_length(),
        i < segments.len() ==> 0 <= segments[i].spec_length() <= MAX_SEGMENT_LENGTH,
        start_offset(segments, segments.len() as int) == total_length(segments),
        0 <= start_offset(segments, i) <= total_length(segments),
        total_length(segments) + MAX_SEGMENT_LENGTH <= N::MAX,
{
    assert(segments.take(segments.len() as int) =~= segments);
    lemma_total_length_bounds(segments);
    assert(segments.len() * MAX_SEGMENT_LENGTH <= 0xffff_ffff_ffff_ffff * MAX_SEGMENT_LENGTH)
        by (nonlinear_arith)
        requires
            segments.len() <= 0xffff_ffff_ffff_ffff,
    ;
    lemma_total_length_bounds(segments.take(i));
    lemma_offsets_grow(segments, i, segments.len() as int);
    if i < segments.len() {
        assert(segments.take(i + 1).drop_last() =~= segments.take(i));
        segments[i].law_length();
    }
}

/// Offsets never shrink along the path.
pub proof fn lemma_offsets_grow<S: Segment>(segments: Seq<S>, i: int, j: int)
    requires
        0 <= i <= j <= segments.len(),
    ensures
        start_offset(segments, i) <= start_offset(segments, j),
    decreases j - i,
{
    if i < j {
        lemma_offsets_grow(segments, i, j - 1);
        assert(segments.take(j).drop_last() =~= segments.take(j - 1));
        segments[j - 1].law_length();
    }
}

/// A weld runs from the start of the first segment to the start of the
/// second.
pub proof fn lemma_weld_ends<S: Segment>(a: S, b: S)
    ensures
        weld(a, b) matches Some(w) ==> w.spec_start() == a.spec_start() && w.spec_end()
            == b.spec_start(),
{
    S::law_line(a.spec_start(), b.spec_start());
    S::law_arc(a.spec_start(), a.spec_start_direction(), b.spec_start());
}

/// Welding leaves no gaps: a chain that can be welded gives a path, which
/// is closed where the chain was taken for a ring.
pub proof fn lemma_welded_is_path<S: Segment>(segments: Seq<S>)
    requires
        segments.len() > 0,
        weldable(segments),
    ensures
        is_path(welded(segments)),
        nearly_closed(segments) ==> closed(welded(segments)),
        welded(segments)[0].spec_start() == segments[0].spec_start(),
{
    let chain = ring(segments);
    let run = welded(segments);
    assert forall|i: int| 0 <= i && i + 1 < chain.len() implies {
        &&& run[i].spec_start() == chain[i].spec_start()
        &&& run[i].spec_end() == chain[i + 1].spec_start()
    } by {
        assert(weld_at(chain, i) is Some);
        lemma_weld_ends(chain[i], chain[i + 1]);
    }
    assert forall|i: int| 0 <= i && i + 1 < run.len() implies joined(run[i], #[trigger] run[i + 1]) by {
        lemma_points_within(run[i].spec_end(), run[i].spec_end(), THICKNESS as int, THICKNESS as int);
        if i + 1 < chain.len() - 1 {
            assert(run[i + 1].spec_start() == chain[i + 1].spec_start());
        }
    }
    assert(continuous(run)) by {
        assert forall|i: int| #![trigger run[i]] 0 <= i && i + 1 < run.len() implies joined(
            run[i],
            run[i + 1],
        ) by {
            let next = i + 1;
            assert(joined(run[i], run[next]));
        }
    }
    if nearly_closed(segments) {
        let last = chain.len() - 2;
        assert(run.last() == run[last]);
        assert(run[last].spec_end() == chain[last + 1].spec_start());
        lemma_points_within(
            run[0].spec_start(),
            run[0].spec_start(),
            THICKNESS as int,
            THICKNESS as int,
        );
    }
}

/// Putting a segment behind a continuous chain that ends where the segment
/// starts gives a continuous chain.
pub proof fn lemma_continuous_push<S: Segment>(chain: Seq<S>, next: S)
    requires
        continuous(chain),
        chain.len() > 0 ==> joined(chain.last(), next),
    ensures
        continuous(chain.push(next)),
{
    let longer = chain.push(next);
    assert forall|i: int| #![trigger longer[i]] 0 <= i && i + 1 < longer.len() implies joined(
        longer[i],
        longer[i + 1],
    ) by {
        if i + 1 < chain.len() {
            assert(longer[i] == chain[i]);
            assert(longer[i + 1] == chain[i + 1]);
        }
    }
}

/// The owner found in the first `n` segments is the owner in all of them.
pub proof fn lemma_owner_prefix<S: Segment>(segments: Seq<S>, distance: int, n: int)
    requires
        0 <= n <= segments.len(),
        owner(segments.take(n), distance) is Some,
    ensures
        owner(segments, distance) == owner(segments.take(n), distance),
    decreases segments.len() - n,
{
    if n < segments.len() {
        assert(segments.take(n + 1).drop_last() =~= segments.take(n));
        lemma_owner_prefix(segments, distance, n + 1);
    } else {
        assert(segments.take(n) =~= segments);
    }
}

/// The owner of an offset is the first segment that ends behind it; there
/// is none exactly from the path's length on.
pub proof fn lemma_owner<S: Segment>(segments: Seq<S>, distance: int)
    ensures
        owner(segments, distance) matches Some(i) ==> owns(segments, i, distance),
        segments.len() > 0 ==> (owner(segments, distance) is None <==> distance >= total_length(
            segments,
        )),
        forall|i: int| owns(segments, i, distance) ==> owner(segments, distance) == Some(i),
    decreases segments.len(),
{
    if segments.len() > 0 {
        let front = segments.drop_last();
        let n = segments.len() as int;
        lemma_owner(front, distance);
        segments.last().law_length();
        assert(segments.take(n) =~= segments);
        assert forall|k: int| 0 <= k < n - 1 implies end_offset(front, k) == end_offset(
            segments,
            k,
        ) by {
            assert(front.take(k + 1) =~= segments.take(k + 1));
        }
        lemma_total_length_bounds(front);
        match owner(front, distance) {
            Some(i) => {
                assert(end_offset(front, i) == end_offset(segments, i));
                assert forall|k: int| 0 <= k < i implies #[trigger] end_offset(segments, k)
                    <= distance by {
                    assert(end_offset(front, k) <= distance);
                }
                assert forall|j: int| owns(segments, j, distance) implies j == i by {
                    if j < i {
                        assert(end_offset(segments, j) <= distance);
                    } else if i < j {
                        assert(end_offset(segments, i) <= distance);
                    }
                }
            },
            None => {
                assert forall|k: int| 0 <= k < n - 1 implies #[trigger] end_offset(segments, k)
                    <= distance by {
                    lemma_offsets_grow(front, k + 1, n - 1);
                    assert(front.take(n - 1) =~= front);
                    assert(end_offset(front, k) == end_offset(segments, k));
                }
                assert forall|j: int| owns(segments, j, distance) implies owner(
                    segments,
                    distance,
                ) == Some(j) by {
                    if j < n - 1 {
                        assert(end_offset(segments, j) <= distance);
                    }
                }
            },
        }
    } else {
        assert forall|j: int| owns(segments, j, distance) implies false by {}
    }
}

/// The reverse of a path is a path.
pub proof fn lemma_reversed_is_path<S: Segment>(segments: Seq<S>)
    requires
        is_path(segments),
    ensures
        is_path(reversed(segments)),
{
    let back = reversed(segments);
    let n = segments.len() as int;
    assert forall|i: int| #![trigger back[i]] 0 <= i && i + 1 < back.len() implies joined(
        back[i],
        back[i + 1],
    ) by {
        let k = n - 2 - i;
        segments[k + 1].law_reverse();
        segments[k].law_reverse();
        assert(joined(segments[k], segments[k + 1]));
        lemma_points_within(
            segments[k].spec_end(),
            segments[k + 1].spec_start(),
            THICKNESS as int,
            THICKNESS as int,
        );
    }
}

/// The length of two chains put together is the sum of their lengths.
pub proof fn lemma_total_length_concat<S: Segment>(first: Seq<S>, second: Seq<S>)
    ensures
        total_length(first + second) == total_length(first) + total_length(second),
    decreases second.len(),
{
    if second.len() == 0 {
        assert(first + second =~= first);
    } else {
        lemma_total_length_concat(first, second.drop_last());
        assert((first + second).drop_last() =~= first + second.drop_last());
    }
}

/// The length of a chain is the length before segment `m`, that segment's
/// length, and the length behind it; a chain of one segment is as long as
/// the segment.
pub proof fn lemma_total_length_around<S: Segment>(segments: Seq<S>, m: int)
    requires
        0 <= m < segments.len(),
    ensures
        total_length(segments) == total_length(segments.take(m)) + segments[m].spec_length()
            + total_length(segments.skip(m + 1)),
        total_length(seq![segments[m]]) == segments[m].spec_length(),
        total_length(segments.take(m).push(segments[m])) == total_length(segments.take(m))
            + segments[m].spec_length(),
{
    let one = seq![segments[m]];
    assert(one.drop_last() =~= Seq::<S>::empty());
    assert(total_length(one.drop_last()) == 0);
    assert(one.last() == segments[m]);
    assert(segments.take(m).push(segments[m]).drop_last() =~= segments.take(m));
    assert(segments =~= segments.take(m).push(segments[m]) + segments.skip(m + 1));
    lemma_total_length_concat(segments.take(m).push(segments[m]), segments.skip(m + 1));
}

/// Reversal keeps the length of a chain.
pub proof fn lemma_reversed_length<S: Segment>(segments: Seq<S>)
    ensures
        total_length(reversed(segments)) == total_length(segments),
    decreases segments.len(),
{
    if segments.len() > 0 {
        let front = segments.drop_last();
        let turned = seq![segments.last().spec_reverse()];
        lemma_reversed_length(front);
        segments.last().law_reverse();
        assert(reversed(segments) =~= turned + reversed(front));
        lemma_total_length_concat(turned, reversed(front));
        assert(turned.drop_last() =~= Seq::<S>::empty());
        assert(total_length(turned.drop_last()) == 0);
        assert(turned.last() == segments.last().spec_reverse());
        assert(total_length(turned) == segments.last().spec_length());
    } else {
        assert(reversed(segments) =~= segments);
    }
}

/// The reverse of a path starts where the path ends and ends where it
/// starts, leaves against the direction in which the path arrives and
/// arrives against the direction in which it leaves, is as long, has as
/// many segments, and is closed if the path is.
pub proof fn lemma_reversed_ends<S: Segment>(segments: Seq<S>)
    requires
        segments.len() > 0,
    ensures
        reversed(segments).len() == segments.len(),
        reversed(segments)[0].spec_start() == segments.last().spec_end(),
        reversed(segments).last().spec_end() == segments[0].spec_start(),
        reversed(segments)[0].spec_start_direction() == negated(
            segments.last().spec_end_direction(),
        ),
        reversed(segments).last().spec_end_direction() == negated(
            segments[0].spec_start_direction(),
        ),
        total_length(reversed(segments)) == total_length(segments),
        closed(reversed(segments)) == closed(segments),
{
    segments[0].law_reverse();
    segments.last().law_reverse();
    lemma_reversed_length(segments);
    lemma_points_within(
        segments.last().spec_end(),
        segments[0].spec_start(),
        THICKNESS as int,
        THICKNESS as int,
    );
}

/// Two paths, the second starting where the first ends, make one path.
pub proof fn lemma_continuous_concat<S: Segment>(first: Seq<S>, second: Seq<S>)
    requires
        is_path(first),
        is_path(second),
        joined(first.last(), second[0]),
    ensures
        is_path(first + second),
{
    let both = first + second;
    assert forall|i: int| #![trigger both[i]] 0 <= i && i + 1 < both.len() implies joined(
        both[i],
        both[i + 1],
    ) by {
        if i + 1 < first.len() {
            assert(both[i] == first[i]);
            assert(both[i + 1] == first[i + 1]);
        } else if i + 1 == first.len() {
            assert(both[i] == first.last());
            assert(both[i + 1] == second[0]);
        } else {
            let k = i - first.len();
            assert(both[i] == second[k]);
            assert(both[i + 1] == second[k + 1]);
        }
    }
}

/// Points within one tolerance of each other are within every wider one.
pub proof fn lemma_points_within_wider(a: P2, b: P2, tolerance: int, wider: int)
    requires
        points_within(a, b, tolerance),
        tolerance <= wider,
    ensures
        points_within(a, b, wider),
{
    lemma_points_within(a, b, tolerance, wider);
}

/// A straight bridge, where one exists, closes the gap it was built for.
pub proof fn lemma_bridge_joins<S: Segment>(a: S, b: S)
    ensures
        S::spec_line(a.spec_end(), b.spec_start()) matches Some(bridge) ==> joined(a, bridge)
            && joined(bridge, b),
{
    S::law_line(a.spec_end(), b.spec_start());
    lemma_points_within(a.spec_end(), a.spec_end(), THICKNESS as int, THICKNESS as int);
    lemma_points_within(b.spec_start(), b.spec_start(), THICKNESS as int, THICKNESS as int);
}

/// Bridging leaves no gaps, keeps the two ends, and drops nothing.
pub proof fn lemma_bridged<S: Segment>(pieces: Seq<S>)
    ensures
        bridged(pieces) matches Some(glued) ==> {
            &&& continuous(glued)
            &&& glued.len() >= pieces.len()
            &&& pieces.len() > 0 ==> glued[0] == pieces[0] && glued.last() == pieces.last()
            &&& pieces.len() == 0 ==> glued.len() == 0
        },
    decreases pieces.len(),
{
    if pieces.len() > 1 {
        let a = pieces[pieces.len() - 2];
        let b = pieces.last();
        lemma_bridged(pieces.drop_last());
        lemma_bridge_joins(a, b);
        if let Some(glued) = bridged(pieces.drop_last()) {
            assert(glued.last() == a);
            if joined(a, b) {
                lemma_continuous_push(glued, b);
            } else if let Some(bridge) = S::spec_line(a.spec_end(), b.spec_start()) {
                lemma_continuous_push(glued, bridge);
                lemma_continuous_push(glued.push(bridge), b);
            }
        }
    }
}

/// A bridge that cannot be built in a part of the pieces cannot be built in
/// the whole.
pub proof fn lemma_bridged_prefix<S: Segment>(pieces: Seq<S>, n: int)
    requires
        0 <= n <= pieces.len(),
        bridged(pieces.take(n)) is None,
    ensures
        bridged(pieces) is None,
    decreases pieces.len() - n,
{
    if n < pieces.len() {
        assert(pieces.take(n + 1).drop_last() =~= pieces.take(n));
        lemma_bridged_prefix(pieces, n + 1);
    } else {
        assert(pieces.take(n) =~= pieces);
    }
}

/// Where an offset chain exists it is a path, and a closed one if it was
/// made from a closed path.
pub proof fn lemma_offset_chain_is_path<S: Segment>(segments: Seq<S>, shift_to_right: N)
    ensures
        offset_chain(segments, shift_to_right) matches Some(chain) ==> {
            &&& is_path(chain)
            &&& closed(segments) ==> closed(chain)
        },
{
    let pieces = shifted(segments, shift_to_right);
    lemma_bridged(pieces);
    if let Some(glued) = bridged(pieces) {
        if glued.len() > 0 && closed(segments) && !closed(glued) {
            let end = glued.last().spec_end();
            let start = glued[0].spec_start();
            S::law_line(end, start);
            lemma_points_within(end, end, THICKNESS as int, THICKNESS as int);
            lemma_points_within(start, start, THICKNESS as int, THICKNESS as int);
            if let Some(bridge) = S::spec_line(end, start) {
                lemma_continuous_push(glued, bridge);
                assert(glued.push(bridge).last() == bridge);
                assert(glued.push(bridge)[0] == glued[0]);
            }
        }
    }
}

/// Collecting over one more index appends what `f` yields there.
pub proof fn lemma_collect_step<T>(f: spec_fn(int) -> Option<T>, n: int)
    requires
        0 <= n,
    ensures
        collect(f, 0) == Seq::<T>::empty(),
        collect(f, n + 1) == match f(n) {
            Some(x) => collect(f, n).push(x),
            None => collect(f, n),
        },
        collect(f, n).len() <= n,
    decreases n,
{
    if n > 0 {
        lemma_collect_step(f, n - 1);
    }
}

/// Flattening over one more index appends what `f` yields there.
pub proof fn lemma_flatten_step<T>(f: spec_fn(int) -> Seq<T>, low: int, high: int)
    requires
        low <= high,
    ensures
        flatten(f, low, low) == Seq::<T>::empty(),
        flatten(f, low, high + 1) == flatten(f, low, high) + f(high),
{
}

} // verus!
