//! Paths: continuous chains of segments, and the algorithms on them.
use vstd::prelude::*;
use crate::chain::{
    bridged, chains_within, closed, collect, continuous, crossings, crossings_from,
    crossings_with, direction_at, distance_from, flatten, hull_edge_each, hull_edges, inside,
    is_path, joined, lemma_bridged, lemma_bridged_prefix, lemma_collect_step,
    lemma_continuous_concat, lemma_flatten_step, lemma_offset_chain_is_path, lemma_owner,
    lemma_owner_prefix, lemma_reversed_ends, lemma_reversed_is_path, lemma_start_offset,
    lemma_welded_is_path, nearest, nearly_closed, offset_chain, on_chain, owner, piece_each,
    point_along, projection, projection_each, rebase_each, rebase_interior, reversed, ring,
    self_crossings, self_crossings_from, self_crossings_with, shift_each, shifted, squared_gap,
    start_offset, stretch, subsection_chain, svg_each, svg_of, total_length, weld_at, weldable,
    welded,
};
use crate::geometry::{
    is_roughly_within, negated, rebase, MAX_SEGMENT_LENGTH, MIN_START_TO_END, N, P2, THICKNESS,
    V2,
};
use crate::segment::{Intersection, Segment};

verus! {

/// Why a chain of segments is not a path.
#[derive(Clone, Copy, Debug, PartialEq, Eq, Structural)]
pub enum PathError {
    /// There is no segment.
    EmptyPath,
    /// Some segment does not start where the one before it ends.
    NotContinuous,
}

/// Anything that is backed by a continuous chain of segments.
///
/// An implementation says where its segments are and how to build itself
/// from a chain known to be a path; the algorithms come with the trait.
pub trait Path<S: Segment>: Sized + Clone + View<V = Seq<S>> {
    /// The segments, in order. They always form a path.
    fn segments(&self) -> (r: &[S])
        ensures
            r@ == self@,
            is_path(self@),
    ;

    /// Wraps a chain that is already known to be a path.
    fn new_unchecked(segments: Vec<S>) -> (r: Self)
        requires
            is_path(segments@),
        ensures
            r@ == segments@,
    ;

    /// Builds a path from a chain of segments, or says why the chain is not
    /// one.
    fn new(segments: Vec<S>) -> (r: Result<Self, PathError>)
        ensures
            match r {
                Ok(path) => is_path(segments@) && path@ == segments@,
                Err(PathError::EmptyPath) => segments@.len() == 0,
                Err(PathError::NotContinuous) => segments@.len() > 0 && !continuous(segments@),
            },
    {
        if segments.len() == 0 {
            return Err(PathError::EmptyPath);
        }
        let mut i: usize = 0;
        while i + 1 < segments.len()
            invariant
                segments@.len() > 0,
                i < segments@.len(),
                forall|k: int|
                    #![trigger segments@[k]]
                    0 <= k < i ==> joined(segments@[k], segments@[k + 1]),
            decreases segments.len() - i,
        {
            let end = segments[i].end();
            if !end.is_roughly_within(segments[i + 1].start(), THICKNESS) {
                proof {
                    let witness = i as int;
                    assert(!joined(segments@[witness], segments@[witness + 1]));
                }
                return Err(PathError::NotContinuous);
            }
            i = i + 1;
        }
        Ok(Self::new_unchecked(segments))
    }

    /// Builds a path from segments whose ends are only close to each
    /// other, by replacing each segment with one that ends exactly where
    /// the next one starts.
    ///
    /// A chain whose last end lies within three times the tolerance of its
    /// first start is taken for a ring, and its last piece then ends on the
    /// first start. Otherwise the last segment stays as it is. Where some
    /// connecting piece cannot be built the chain cannot be made continuous,
    /// and that is the error.
    fn new_welded(segments: Vec<S>) -> (r: Result<Self, PathError>)
        ensures
            match r {
                Ok(path) => {
                    &&& segments@.len() > 0
                    &&& weldable(segments@)
                    &&& path@ == welded(segments@)
                    &&& nearly_closed(segments@) ==> closed(path@)
                },
                Err(PathError::EmptyPath) => segments@.len() == 0,
                Err(PathError::NotContinuous) => segments@.len() > 0 && !weldable(segments@),
            },
    {
        if segments.len() == 0 {
            return Err(PathError::EmptyPath);
        }
        let mut chain = segments;
        let count = chain.len();
        let last = chain[count - 1];
        let probably_closed = last.end().is_roughly_within(chain[0].start(), THICKNESS * 3);
        if probably_closed {
            let first_again = chain[0];
            chain.push(first_again);
        }
        assert(chain@ == ring(segments@));
        let mut welded_segments: Vec<S> = Vec::new();
        let links = chain.len() - 1;
        let mut i: usize = 0;
        while i < links
            invariant
                i <= links == chain@.len() - 1,
                chain@ == ring(segments@),
                welded_segments@.len() == i,
                forall|k: int|
                    0 <= k < i ==> #[trigger] weld_at(chain@, k) == Some(welded_segments@[k]),
            decreases links - i,
        {
            let a = chain[i];
            let b = chain[i + 1];
            let connection = if a.is_linear() {
                S::line(a.start(), b.start())
            } else {
                S::arc_with_direction(a.start(), a.start_direction(), b.start())
            };
            assert(connection == weld_at(chain@, i as int));
            match connection {
                Some(piece) => {
                    welded_segments.push(piece);
                },
                None => {
                    return Err(PathError::NotContinuous);
                },
            }
            i = i + 1;
        }
        if !probably_closed {
            welded_segments.push(last);
        }
        proof {
            assert(weldable(segments@));
            assert(welded_segments@ =~= welded(segments@));
            lemma_welded_is_path(segments@);
        }
        Self::new(welded_segments)
    }

    /// The part of the path between two arc-length offsets, if there is
    /// one.
    ///
    /// Where the path is closed and `start` lies behind `end` by more than
    /// the tolerance, the range runs over the seam: the result is the
    /// stretch from `start` to the path's end followed by the stretch from
    /// its start to `end`, or the one of the two that exists; where both
    /// exist and the second does not start where the first ends, there is
    /// no result. Otherwise it is the stretch from `start` to `end`. A
    /// stretch holds, for every segment that reaches into the range, what
    /// that segment gives for the range seen from its own start; there is
    /// none where nothing is left or what is left has a gap.
    fn subsection(&self, start: N, end: N) -> (r: Option<Self>)
        ensures
            match r {
                Some(path) => subsection_chain(self@, start, end) == Some(path@) && is_path(
                    path@,
                ),
                None => subsection_chain(self@, start, end) is None,
            },
    {
        let over_seam = match end.checked_add(THICKNESS) {
            Some(limit) => start > limit && self.is_closed(),
            None => false,
        };
        if over_seam {
            let maybe_first_half = self.forward_subsection(start, self.length());
            let maybe_second_half = self.forward_subsection(0, end);
            match (maybe_first_half, maybe_second_half) {
                (Some(first_half), Some(second_half)) => {
                    match first_half.concat(&second_half) {
                        Ok(path) => Some(path),
                        Err(_) => None,
                    }
                },
                (Some(first_half), None) => Some(first_half),
                (None, Some(second_half)) => Some(second_half),
                (None, None) => None,
            }
        } else {
            self.forward_subsection(start, end)
        }
    }

    /// The part of the path between two arc-length offsets, read forwards
    /// and never over the seam: for every segment that reaches into the
    /// range, what that segment gives for the range seen from its own
    /// start. There is none where nothing is left or what is left has a gap.
    fn forward_subsection(&self, start: N, end: N) -> (r: Option<Self>)
        ensures
            match r {
                Some(found) => stretch(self@, start, end) == Some(found@) && is_path(found@),
                None => stretch(self@, start, end) is None,
            },
    {
        let segments = self.segments();
        let mut pieces: Vec<S> = Vec::new();
        let mut state = StartOffsetState(0);
        let mut i: usize = 0;
        while i < segments.len()
            invariant
                i <= segments@.len(),
                state.0 == start_offset(segments@, i as int),
                pieces@ == collect(piece_each(segments@, start, end), i as int),
            decreases segments.len() - i,
        {
            let segment = &segments[i];
            proof {
                lemma_start_offset(segments@, i as int);
                lemma_collect_step(piece_each(segments@, start, end), i as int);
            }
            let start_offset = state.0;
            let _ = Self::scan_segments(&mut state, segment);
            let end_offset = state.0;
            if !(start_offset > end || end_offset < start) {
                let local_start = rebase(start, start_offset);
                let local_end = rebase(end, start_offset);
                match segment.subsection(local_start, local_end) {
                    Some(piece) => {
                        pieces.push(piece);
                    },
                    None => {},
                }
            }
            i = i + 1;
        }
        match Self::new(pieces) {
            Ok(found) => Some(found),
            Err(_) => None,
        }
    }

    /// This path followed by `other`, if `other` starts where this path
    /// ends; the segments are taken as they are.
    fn concat(&self, other: &Self) -> (r: Result<Self, PathError>)
        ensures
            match r {
                Ok(path) => {
                    &&& joined(self@.last(), other@[0])
                    &&& path@ == self@ + other@
                    &&& is_path(path@)
                },
                Err(error) => error == PathError::NotContinuous && !joined(
                    self@.last(),
                    other@[0],
                ),
            },
    {
        if self.end().is_roughly_within(other.start(), THICKNESS) {
            let first = self.segments();
            let second = other.segments();
            let mut segments: Vec<S> = Vec::new();
            let mut i: usize = 0;
            while i < first.len()
                invariant
                    i <= first@.len(),
                    segments@ == first@.take(i as int),
                decreases first.len() - i,
            {
                segments.push(first[i]);
                proof {
                    assert(segments@ =~= first@.take(i + 1));
                }
                i = i + 1;
            }
            let mut j: usize = 0;
            while j < second.len()
                invariant
                    j <= second@.len(),
                    segments@ == first@ + second@.take(j as int),
                decreases second.len() - j,
            {
                proof {
                    assert(first@.take(first@.len() as int) =~= first@);
                    assert(first@ + second@.take(0) =~= first@);
                }
                segments.push(second[j]);
                proof {
                    assert(segments@ =~= first@ + second@.take(j + 1));
                }
                j = j + 1;
            }
            proof {
                assert(second@.take(j as int) =~= second@);
                lemma_continuous_concat(self@, other@);
            }
            Ok(Self::new_unchecked(segments))
        } else {
            Err(PathError::NotContinuous)
        }
    }

    /// The arc length of the path: the sum of its segments' lengths.
    fn length(&self) -> (r: N)
        ensures
            r == total_length(self@),
    {
        let segments = self.segments();
        let mut state = StartOffsetState(0);
        let mut i: usize = 0;
        while i < segments.len()
            invariant
                i <= segments@.len(),
                state.0 == start_offset(segments@, i as int),
            decreases segments.len() - i,
        {
            proof {
                lemma_start_offset(segments@, i as int);
            }
            let _ = Self::scan_segments(&mut state, &segments[i]);
            i = i + 1;
        }
        proof {
            lemma_start_offset(segments@, 0);
        }
        state.0
    }

    /// The path parallel to this one at a signed distance to its right.
    ///
    /// Every segment is displaced on its own; one that has no displaced
    /// copy is left out. A straight bridge goes into every gap between two
    /// neighbours, and one more from the end back to the start if this path
    /// is closed and the result is not. There is no result where nothing is
    /// left or a bridge cannot be built.
    fn shift_orthogonally(&self, shift_to_right: N) -> (r: Option<Self>)
        ensures
            match r {
                Some(path) => {
                    &&& offset_chain(self@, shift_to_right) == Some(path@)
                    &&& is_path(path@)
                    &&& closed(self@) ==> closed(path@)
                },
                None => offset_chain(self@, shift_to_right) is None,
            },
    {
        let segments = self.segments();
        let mut pieces: Vec<S> = Vec::new();
        let mut i: usize = 0;
        while i < segments.len()
            invariant
                i <= segments@.len(),
                pieces@ == collect(shift_each(segments@, shift_to_right), i as int),
            decreases segments.len() - i,
        {
            proof {
                lemma_collect_step(shift_each(segments@, shift_to_right), i as int);
            }
            match segments[i].shift_orthogonally(shift_to_right) {
                Some(piece) => {
                    pieces.push(piece);
                },
                None => {},
            }
            i = i + 1;
        }
        assert(pieces@ == shifted(self@, shift_to_right));
        let mut glued_segments: Vec<S> = Vec::new();
        let mut i: usize = 0;
        while i < pieces.len()
            invariant
                i <= pieces@.len(),
                pieces@ == shifted(self@, shift_to_right),
                bridged(pieces@.take(i as int)) == Some(glued_segments@),
            decreases pieces.len() - i,
        {
            let segment = pieces[i];
            proof {
                assert(pieces@.take(i + 1).drop_last() =~= pieces@.take(i as int));
            }
            if i > 0 {
                let previous = pieces[i - 1];
                if !previous.end().is_roughly_within(segment.start(), THICKNESS) {
                    match S::line(previous.end(), segment.start()) {
                        Some(bridge) => {
                            glued_segments.push(bridge);
                        },
                        None => {
                            proof {
                                lemma_bridged_prefix(pieces@, i + 1);
                            }
                            return None;
                        },
                    }
                }
            }
            glued_segments.push(segment);
            i = i + 1;
        }
        proof {
            assert(pieces@.take(i as int) =~= pieces@);
            lemma_bridged(pieces@);
            lemma_offset_chain_is_path(self@, shift_to_right);
        }
        if glued_segments.len() == 0 {
            return None;
        }
        let was_closed = self.end().is_roughly_within(self.start(), THICKNESS);
        let new_end = glued_segments[glued_segments.len() - 1].end();
        let new_start = glued_segments[0].start();
        if was_closed && !new_end.is_roughly_within(new_start, THICKNESS) {
            match S::line(new_end, new_start) {
                Some(bridge) => {
                    glued_segments.push(bridge);
                },
                None => {
                    return None;
                },
            }
        }
        match Self::new(glued_segments) {
            Ok(path) => Some(path),
            Err(_) => None,
        }
    }

    /// Where the path starts.
    fn start(&self) -> (r: P2)
        ensures
            r == self@[0].spec_start(),
    {
        self.segments()[0].start()
    }

    /// The direction in which the path leaves its start.
    fn start_direction(&self) -> (r: V2)
        ensures
            r == self@[0].spec_start_direction(),
    {
        self.segments()[0].start_direction()
    }

    /// Where the path ends.
    fn end(&self) -> (r: P2)
        ensures
            r == self@.last().spec_end(),
    {
        let segments = self.segments();
        segments[segments.len() - 1].end()
    }

    /// The direction in which the path arrives at its end.
    fn end_direction(&self) -> (r: V2)
        ensures
            r == self@.last().spec_end_direction(),
    {
        let segments = self.segments();
        segments[segments.len() - 1].end_direction()
    }

    /// Whether the path ends where it starts, up to the tolerance.
    fn is_closed(&self) -> (r: bool)
        ensures
            r == closed(self@),
    {
        self.end().is_roughly_within(self.start(), THICKNESS)
    }

    /// The segment that owns an arc-length offset, and the offset seen from
    /// that segment's start: the first segment that ends behind `distance`.
    /// There is none from the path's length on.
    fn find_on_segment(&self, distance: N) -> (r: Option<(&S, N)>)
        ensures
            match r {
                Some((segment, on_segment)) => {
                    &&& owner(self@, distance as int) matches Some(i) && *segment == self@[i]
                        && on_segment == distance - start_offset(self@, i)
                },
                None => owner(self@, distance as int) is None,
            },
            r is None <==> distance >= total_length(self@),
    {
        let segments = self.segments();
        let mut state = StartOffsetState(0);
        let mut i: usize = 0;
        while i < segments.len()
            invariant
                i <= segments@.len(),
                segments@ == self@,
                state.0 == start_offset(segments@, i as int),
                owner(segments@.take(i as int), distance as int) is None,
                i > 0 ==> state.0 <= distance,
            decreases segments.len() - i,
        {
            let segment = &segments[i];
            proof {
                lemma_start_offset(segments@, i as int);
                assert(segments@.take(i + 1).drop_last() =~= segments@.take(i as int));
            }
            let distance_covered = state.0;
            let _ = Self::scan_segments(&mut state, segment);
            if state.0 > distance {
                proof {
                    lemma_owner_prefix(segments@, distance as int, i + 1);
                    lemma_owner(self@, distance as int);
                }
                return Some((segment, distance - distance_covered));
            }
            i = i + 1;
        }
        proof {
            assert(segments@.take(i as int) =~= segments@);
            lemma_owner(self@, distance as int);
        }
        None
    }

    /// The point of the path at an arc-length offset. An offset before the
    /// path gives its start, one from its length on its end.
    fn along(&self, distance: N) -> (r: P2)
        ensures
            r == point_along(self@, distance),
    {
        if distance < 0 {
            return self.start();
        }
        match self.find_on_segment(distance) {
            Some((segment, distance_on_segment)) => segment.along(distance_on_segment),
            None => self.end(),
        }
    }

    /// The direction of travel at an arc-length offset. An offset before
    /// the path gives its start direction, one from its length on its end
    /// direction.
    fn direction_along(&self, distance: N) -> (r: V2)
        ensures
            r == direction_at(self@, distance),
    {
        if distance < 0 {
            return self.start_direction();
        }
        match self.find_on_segment(distance) {
            Some((segment, distance_on_segment)) => segment.direction_along(distance_on_segment),
            None => self.end_direction(),
        }
    }

    /// The arc-length offset of the point of the path nearest to `point`:
    /// of the projections onto the segments beside which `point` lies, up
    /// to `tolerance` along their course, the first at which the path
    /// comes nearest to `point`.
    fn project_with_tolerance(&self, point: P2, tolerance: N) -> (r: Option<N>)
        ensures
            r == projection(self@, point, tolerance),
    {
        let segments = self.segments();
        let mut state = StartOffsetState(0);
        let mut best: Option<(N, N)> = None;
        let ghost mut seen: Seq<N> = Seq::empty();
        let mut i: usize = 0;
        while i < segments.len()
            invariant
                i <= segments@.len(),
                segments@ == self@,
                state.0 == start_offset(segments@, i as int),
                seen == collect(projection_each(segments@, point, tolerance), i as int),
                match best {
                    Some((offset, gap)) => nearest(segments@, point, seen) == Some(offset) && gap
                        == squared_gap(segments@, point, offset),
                    None => nearest(segments@, point, seen) is None,
                },
            decreases segments.len() - i,
        {
            let segment = &segments[i];
            proof {
                lemma_start_offset(segments@, i as int);
                lemma_collect_step(projection_each(segments@, point, tolerance), i as int);
                segment.law_projection(point, tolerance);
            }
            let start_offset = state.0;
            let _ = Self::scan_segments(&mut state, segment);
            match segment.project_with_tolerance(point, tolerance) {
                Some(on_segment) => {
                    let offset = on_segment + start_offset;
                    let gap = self.along(offset).squared_distance_to(point);
                    proof {
                        assert(seen.push(offset).drop_last() =~= seen);
                        seen = seen.push(offset);
                    }
                    match best {
                        Some((_, best_gap)) => {
                            if gap < best_gap {
                                best = Some((offset, gap));
                            }
                        },
                        None => {
                            best = Some((offset, gap));
                        },
                    }
                },
                None => {},
            }
            i = i + 1;
        }
        match best {
            Some((offset, _)) => Some(offset),
            None => None,
        }
    }

    /// The projection of `point` onto the path, with the tolerance.
    fn project(&self, point: P2) -> (r: Option<N>)
        ensures
            r == projection(self@, point, THICKNESS),
    {
        self.project_with_tolerance(point, THICKNESS)
    }

    /// The distance from `point` to the path, rounded down: to its
    /// projection if there is one, else to the nearer end of the path.
    fn distance_to(&self, point: P2) -> (r: N)
        ensures
            r == distance_from(self@, point),
    {
        match self.project(point) {
            Some(offset) => point.distance_to(self.along(offset)),
            None => {
                let to_start = point.distance_to(self.start());
                let to_end = point.distance_to(self.end());
                if to_start <= to_end {
                    to_start
                } else {
                    to_end
                }
            },
        }
    }

    /// Whether `point` lies on some segment of the path.
    fn includes(&self, point: P2) -> (r: bool)
        ensures
            r == on_chain(self@, point),
    {
        let segments = self.segments();
        let mut i: usize = 0;
        while i < segments.len()
            invariant
                i <= segments@.len(),
                segments@ == self@,
                forall|k: int| 0 <= k < i ==> !(#[trigger] segments@[k]).spec_includes(point),
            decreases segments.len() - i,
        {
            if segments[i].includes(point) {
                assert(self@[i as int].spec_includes(point));
                return true;
            }
            i = i + 1;
        }
        false
    }

    /// Whether the two paths have the same number of segments, each the
    /// same as its counterpart up to `tolerance`.
    fn is_roughly_within(&self, other: &Self, tolerance: N) -> (r: bool)
        ensures
            r == chains_within(self@, other@, tolerance),
    {
        let ours = self.segments();
        let theirs = other.segments();
        if ours.len() != theirs.len() {
            return false;
        }
        let mut i: usize = 0;
        while i < ours.len()
            invariant
                i <= ours@.len() == theirs@.len(),
                ours@ == self@,
                theirs@ == other@,
                forall|k: int|
                    0 <= k < i ==> (#[trigger] ours@[k]).spec_is_roughly_within(
                        &theirs@[k],
                        tolerance,
                    ),
            decreases ours.len() - i,
        {
            if !ours[i].is_roughly_within(&theirs[i], tolerance) {
                assert(!self@[i as int].spec_is_roughly_within(&other@[i as int], tolerance));
                return false;
            }
            i = i + 1;
        }
        true
    }

    /// Whether `point` lies inside the path, by the parity of the crossings
    /// of the path with a ray from `point` to the right edge of the plane.
    /// This tells inside from outside for a closed path that does not cross
    /// itself. A point that leaves no room for a ray is not inside.
    fn contains(&self, point: P2) -> (r: bool)
        ensures
            r == inside(self@, point),
    {
        let far = P2 { x: i32::MAX, y: point.y };
        match S::line(point, far) {
            Some(ray) => {
                let mut single: Vec<S> = Vec::new();
                single.push(ray);
                assert(single@ =~= seq![ray]);
                let beam = Self::new_unchecked(single);
                self.intersect(&beam).len() % 2 == 1
            },
            None => false,
        }
    }

    /// The segments, each with the arc length at which it starts.
    fn segments_with_start_offsets(&self) -> (r: Vec<(&S, N)>)
        ensures
            r@.len() == self@.len(),
            forall|i: int|
                0 <= i < self@.len() ==> *(#[trigger] r@[i]).0 == self@[i] && r@[i].1
                    == start_offset(self@, i),
    {
        let segments = self.segments();
        let mut pairs: Vec<(&S, N)> = Vec::new();
        let mut state = StartOffsetState(0);
        let mut i: usize = 0;
        while i < segments.len()
            invariant
                i <= segments@.len(),
                segments@ == self@,
                state.0 == start_offset(segments@, i as int),
                pairs@.len() == i,
                forall|k: int|
                    0 <= k < i ==> *(#[trigger] pairs@[k]).0 == segments@[k] && pairs@[k].1
                        == start_offset(segments@, k),
            decreases segments.len() - i,
        {
            proof {
                lemma_start_offset(segments@, i as int);
            }
            match Self::scan_segments(&mut state, &segments[i]) {
                Some(pair) => {
                    pairs.push(pair);
                },
                None => {},
            }
            i = i + 1;
        }
        pairs
    }

    /// The path as path-data commands of a vector graphic: those of its
    /// segments, one after the other.
    fn to_svg(&self) -> (r: String)
        ensures
            r@ == svg_of(self@),
    {
        let segments = self.segments();
        let mut data = String::new();
        let mut i: usize = 0;
        while i < segments.len()
            invariant
                i <= segments@.len(),
                segments@ == self@,
                data@ == flatten(svg_each(segments@), 0, i as int),
            decreases segments.len() - i,
        {
            let piece = segments[i].to_svg();
            proof {
                lemma_flatten_step(svg_each(segments@), 0, i as int);
            }
            data.append(piece.as_str());
            i = i + 1;
        }
        data
    }

    /// The path travelled the other way: its segments in reverse order,
    /// each reversed.
    fn reverse(&self) -> (r: Self)
        ensures
            r@ == reversed(self@),
            is_path(r@),
            r@.len() == self@.len(),
            r@[0].spec_start() == self@.last().spec_end(),
            r@.last().spec_end() == self@[0].spec_start(),
            r@[0].spec_start_direction() == negated(self@.last().spec_end_direction()),
            r@.last().spec_end_direction() == negated(self@[0].spec_start_direction()),
            total_length(r@) == total_length(self@),
            closed(r@) == closed(self@),
    {
        let segments = self.segments();
        let count = segments.len();
        let mut turned: Vec<S> = Vec::new();
        let mut i: usize = 0;
        while i < count
            invariant
                i <= count == segments@.len(),
                segments@ == self@,
                turned@.len() == i,
                forall|k: int|
                    0 <= k < i ==> #[trigger] turned@[k] == segments@[count - 1 - k].spec_reverse(),
            decreases count - i,
        {
            turned.push(segments[count - 1 - i].reverse());
            i = i + 1;
        }
        proof {
            assert(turned@ =~= reversed(self@));
            lemma_reversed_is_path(self@);
            lemma_reversed_ends(self@);
        }
        Self::new_unchecked(turned)
    }

    /// One step of a walk along a path: pairs the segment with the offset
    /// at which it starts, and moves the offset to where it ends.
    fn scan_segments<'a>(start_offset: &mut StartOffsetState, segment: &'a S) -> (r: Option<
        (&'a S, N),
    >)
        requires
            0 <= old(start_offset).0,
            old(start_offset).0 + MAX_SEGMENT_LENGTH <= N::MAX,
        ensures
            r == Some((segment, old(start_offset).0)),
            final(start_offset).0 == old(start_offset).0 + segment.spec_length(),
    {
        let pair = (segment, start_offset.0);
        proof {
            segment.law_length();
        }
        start_offset.0 = start_offset.0 + segment.length();
        Some(pair)
    }

    /// The crossings of the path with itself, in whole-path arc length:
    /// those of every pair of distinct segments, each pair taken once,
    /// leaving out what lies within the tolerance of an end of either
    /// segment.
    fn self_intersections(&self) -> (r: Vec<Intersection>)
        ensures
            r@ == self_crossings(self@),
    {
        let segments = self.segments();
        let mut found_all: Vec<Intersection> = Vec::new();
        let mut state_a = StartOffsetState(0);
        let mut i: usize = 0;
        while i < segments.len()
            invariant
                i <= segments@.len(),
                state_a.0 == start_offset(segments@, i as int),
                found_all@ == flatten(self_crossings_from(segments@), 0, i as int),
            decreases segments.len() - i,
        {
            let segment_a = &segments[i];
            proof {
                lemma_start_offset(segments@, i as int);
            }
            let offset_a = state_a.0;
            let _ = Self::scan_segments(&mut state_a, segment_a);
            let mut state_b = StartOffsetState(state_a.0);
            let ghost before = found_all@;
            let mut j: usize = i + 1;
            while j < segments.len()
                invariant
                    i < j <= segments@.len(),
                    *segment_a == segments@[i as int],
                    offset_a == start_offset(segments@, i as int),
                    state_b.0 == start_offset(segments@, j as int),
                    found_all@ == before + flatten(
                        self_crossings_with(segments@, i as int),
                        i + 1,
                        j as int,
                    ),
                decreases segments.len() - j,
            {
                let segment_b = &segments[j];
                proof {
                    lemma_start_offset(segments@, j as int);
                    lemma_start_offset(segments@, i as int);
                }
                let offset_b = state_b.0;
                let _ = Self::scan_segments(&mut state_b, segment_b);
                let found = segment_a.intersect(segment_b);
                let ghost row = found_all@;
                let ghost keep = rebase_interior(
                    found@,
                    *segment_a,
                    *segment_b,
                    offset_a as int,
                    offset_b as int,
                );
                let mut k: usize = 0;
                while k < found.len()
                    invariant
                        k <= found@.len(),
                        found@ == segment_a.spec_intersect(segment_b),
                        0 <= offset_a,
                        0 <= offset_b,
                        offset_a + MAX_SEGMENT_LENGTH <= N::MAX,
                        offset_b + MAX_SEGMENT_LENGTH <= N::MAX,
                        keep == rebase_interior(
                            found@,
                            *segment_a,
                            *segment_b,
                            offset_a as int,
                            offset_b as int,
                        ),
                        found_all@ == row + collect(keep, k as int),
                    decreases found.len() - k,
                {
                    let crossing = found[k];
                    proof {
                        segment_a.law_crossings(segment_b);
                        segment_a.law_length();
                        segment_b.law_length();
                        lemma_collect_step(keep, k as int);
                    }
                    let on_an_end = is_roughly_within(crossing.along_a, 0, THICKNESS)
                        || is_roughly_within(crossing.along_a, segment_a.length(), THICKNESS)
                        || is_roughly_within(crossing.along_b, 0, THICKNESS) || is_roughly_within(
                        crossing.along_b,
                        segment_b.length(),
                        THICKNESS,
                    );
                    if !on_an_end {
                        found_all.push(
                            Intersection {
                                position: crossing.position,
                                along_a: offset_a + crossing.along_a,
                                along_b: offset_b + crossing.along_b,
                            },
                        );
                    }
                    k = k + 1;
                    proof {
                        assert(found_all@ =~= row + collect(keep, k as int));
                    }
                }
                proof {
                    lemma_flatten_step(self_crossings_with(segments@, i as int), i + 1, j as int);
                    assert(found_all@ =~= before + flatten(
                        self_crossings_with(segments@, i as int),
                        i + 1,
                        j + 1,
                    ));
                }
                j = j + 1;
            }
            proof {
                lemma_flatten_step(self_crossings_from(segments@), 0, i as int);
            }
            i = i + 1;
        }
        found_all
    }

    /// The crossings of the path with another, in whole-path arc length of
    /// each: those of every segment of this path with every segment of the
    /// other.
    fn intersect(&self, other: &Self) -> (r: Vec<Intersection>)
        ensures
            r@ == crossings(self@, other@),
    {
        let segments_a = self.segments();
        let segments_b = other.segments();
        let count_a = segments_a.len();
        let count_b = segments_b.len();
        let mut found_all: Vec<Intersection> = Vec::new();
        let mut state_a = StartOffsetState(0);
        let mut i: usize = 0;
        while i < count_a
            invariant
                i <= count_a == segments_a@.len(),
                count_b == segments_b@.len(),
                state_a.0 == start_offset(segments_a@, i as int),
                found_all@ == flatten(crossings_from(segments_a@, segments_b@), 0, i as int),
            decreases count_a - i,
        {
            let segment_a = &segments_a[i];
            proof {
                lemma_start_offset(segments_a@, i as int);
                lemma_start_offset(segments_b@, 0);
            }
            let offset_a = state_a.0;
            let _ = Self::scan_segments(&mut state_a, segment_a);
            let mut state_b = StartOffsetState(0);
            let ghost before = found_all@;
            let mut j: usize = 0;
            while j < count_b
                invariant
                    i < count_a == segments_a@.len(),
                    j <= count_b == segments_b@.len(),
                    *segment_a == segments_a@[i as int],
                    offset_a == start_offset(segments_a@, i as int),
                    state_b.0 == start_offset(segments_b@, j as int),
                    found_all@ == before + flatten(
                        crossings_with(segments_a@, i as int, segments_b@),
                        0,
                        j as int,
                    ),
                decreases count_b - j,
            {
                let segment_b = &segments_b[j];
                proof {
                    lemma_start_offset(segments_b@, j as int);
                    lemma_start_offset(segments_a@, i as int);
                }
                let offset_b = state_b.0;
                let _ = Self::scan_segments(&mut state_b, segment_b);
                let found = segment_a.intersect(segment_b);
                let ghost row = found_all@;
                let ghost keep = rebase_each(found@, offset_a as int, offset_b as int);
                let mut k: usize = 0;
                while k < found.len()
                    invariant
                        k <= found@.len(),
                        found@ == segment_a.spec_intersect(segment_b),
                        0 <= offset_a,
                        0 <= offset_b,
                        offset_a + MAX_SEGMENT_LENGTH <= N::MAX,
                        offset_b + MAX_SEGMENT_LENGTH <= N::MAX,
                        keep == rebase_each(found@, offset_a as int, offset_b as int),
                        found_all@ == row + collect(keep, k as int),
                    decreases found.len() - k,
                {
                    let crossing = found[k];
                    proof {
                        segment_a.law_crossings(segment_b);
                        segment_a.law_length();
                        segment_b.law_length();
                        lemma_collect_step(keep, k as int);
                    }
                    found_all.push(
                        Intersection {
                            position: crossing.position,
                            along_a: offset_a + crossing.along_a,
                            along_b: offset_b + crossing.along_b,
                        },
                    );
                    k = k + 1;
                    proof {
                        assert(found_all@ =~= row + collect(keep, k as int));
                    }
                }
                proof {
                    lemma_flatten_step(
                        crossings_with(segments_a@, i as int, segments_b@),
                        0,
                        j as int,
                    );
                    assert(found_all@ =~= before + flatten(
                        crossings_with(segments_a@, i as int, segments_b@),
                        0,
                        j + 1,
                    ));
                }
                j = j + 1;
            }
            proof {
                lemma_flatten_step(crossings_from(segments_a@, segments_b@), 0, i as int);
            }
            i = i + 1;
        }
        found_all
    }
}

/// The running offset of a walk along a path.
pub struct StartOffsetState(pub N);

/// The outline of a convex hull as a closed path of lines.
///
/// `hull_indices` names the hull's corners among `points`, in order. Every
/// corner is joined to the next and the last to the first; a pair of corners
/// within the minimum span of each other gets no line. What is left goes
/// through the validating constructor.
pub fn convex_hull<S: Segment, P: Path<S>>(points: &[P2], hull_indices: &[usize]) -> (r: Result<
    P,
    PathError,
>)
    requires
        hull_indices@.len() > 0,
        forall|k: int| 0 <= k < hull_indices@.len() ==> hull_indices@[k] < points@.len(),
    ensures
        match r {
            Ok(path) => path@ == hull_edges::<S>(points@, hull_indices@) && is_path(path@),
            Err(PathError::EmptyPath) => hull_edges::<S>(points@, hull_indices@).len() == 0,
            Err(PathError::NotContinuous) => {
                &&& hull_edges::<S>(points@, hull_indices@).len() > 0
                &&& !continuous(hull_edges::<S>(points@, hull_indices@))
            },
        },
{
    let first_index = hull_indices[0];
    let count = hull_indices.len();
    let mut edges: Vec<S> = Vec::new();
    let mut k: usize = 0;
    while k < count
        invariant
            k <= count == hull_indices@.len(),
            first_index == hull_indices@[0],
            forall|k: int| 0 <= k < hull_indices@.len() ==> hull_indices@[k] < points@.len(),
            edges@ == collect(hull_edge_each::<S>(points@, hull_indices@), k as int),
        decreases count - k,
    {
        let next_index = if k + 1 < count {
            hull_indices[k + 1]
        } else {
            first_index
        };
        let point_1 = points[hull_indices[k]];
        let point_2 = points[next_index];
        proof {
            lemma_collect_step(hull_edge_each::<S>(points@, hull_indices@), k as int);
        }
        if !point_1.is_roughly_within(point_2, MIN_START_TO_END) {
            match S::line(point_1, point_2) {
                Some(edge) => {
                    edges.push(edge);
                },
                None => {},
            }
        }
        k = k + 1;
    }
    P::new(edges)
}

/// A path that owns its segments in a vector.
pub struct VecPath<S: Segment>(Vec<S>);

impl<S: Segment> View for VecPath<S> {
    type V = Seq<S>;

    closed spec fn view(&self) -> Seq<S> {
        self.0@
    }
}

impl<S: Segment> VecPath<S> {
    #[verifier::type_invariant]
    spec fn well_formed(self) -> bool {
        is_path(self.0@)
    }
}

impl<S: Segment> Clone for VecPath<S> {
    fn clone(&self) -> (r: Self)
        ensures
            r@ == self@,
    {
        proof {
            use_type_invariant(self);
        }
        let mut segments: Vec<S> = Vec::new();
        let mut i: usize = 0;
        while i < self.0.len()
            invariant
                i <= self.0@.len(),
                segments@ == self.0@.take(i as int),
            decreases self.0.len() - i,
        {
            segments.push(self.0[i]);
            proof {
                assert(segments@ =~= self.0@.take(i + 1));
            }
            i = i + 1;
        }
        proof {
            assert(self.0@.take(i as int) =~= self.0@);
        }
        VecPath(segments)
    }
}

impl<S: Segment> Path<S> for VecPath<S> {
    fn segments(&self) -> (r: &[S]) {
        proof {
            use_type_invariant(self);
        }
        self.0.as_slice()
    }

    fn new_unchecked(segments: Vec<S>) -> (r: Self) {
        VecPath(segments)
    }
}

} // verus!
