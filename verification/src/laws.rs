//! What holds of every path, whatever its segments are.
use vstd::prelude::*;
use crate::chain::{
    chains_within, closed, collect, end_offset, flatten, is_path, joined, lemma_collect_step,
    lemma_offsets_grow, lemma_owner, lemma_points_within_wider, lemma_start_offset,
    lemma_total_length_bounds, nearest, nearly_closed, owner, owns, pair_self_crossings,
    piece_each, piece_of, pieces_between, point_along, rebase_interior, reversed, ring,
    self_crossings, self_crossings_from, self_crossings_with, squared_gap, start_offset, stretch,
    subsection_chain, total_length, weld_at, weldable,
};
use crate::geometry::{
    points_within, scalars_within, spec_rebase, MIN_START_TO_END, N, P2, THICKNESS,
};
use crate::segment::{Intersection, Segment};

verus! {

/// The length of a path is the sum of its segments' lengths: nothing for
/// no segment, and one segment's length more for each segment added.
pub proof fn law_length_is_sum<S: Segment>(segments: Seq<S>, next: S)
    ensures
        total_length(Seq::<S>::empty()) == 0,
        total_length(segments.push(next)) == total_length(segments) + next.spec_length(),
        total_length(segments) >= 0,
{
    assert(segments.push(next).drop_last() =~= segments);
    lemma_total_length_bounds(segments);
}

/// Sampling a path at its full length gives its end, and sampling it at
/// zero gives its start where its first segment has a length.
pub proof fn law_sampling_reaches_ends<S: Segment>(segments: Seq<S>)
    requires
        is_path(segments),
        segments.len() <= usize::MAX,
    ensures
        point_along(segments, total_length(segments) as N) == segments.last().spec_end(),
        segments[0].spec_length() > 0 ==> point_along(segments, 0) == segments[0].spec_start(),
{
    lemma_start_offset(segments, 0);
    lemma_owner(segments, total_length(segments));
    lemma_owner(segments, 0);
    if segments[0].spec_length() > 0 {
        assert(end_offset(segments, 0) > 0);
        assert(owns(segments, 0, 0));
        segments[0].law_ends();
    }
}

/// Reversing a path twice gives the path back, segment by segment, up to
/// the tolerance.
pub proof fn law_reverse_twice<S: Segment>(segments: Seq<S>)
    ensures
        chains_within(reversed(reversed(segments)), segments, THICKNESS),
{
    let twice = reversed(reversed(segments));
    assert forall|i: int| 0 <= i < twice.len() implies (#[trigger] twice[i]).spec_is_roughly_within(
        &segments[i],
        THICKNESS,
    ) by {
        segments[i].law_reverse();
    }
}

/// Collecting a function that yields something exactly on `low..high`
/// gives what it yields there, in order.
pub proof fn lemma_collect_window<T>(f: spec_fn(int) -> Option<T>, low: int, high: int, n: int)
    requires
        0 <= low <= high <= n,
        forall|i: int| 0 <= i < n ==> ((#[trigger] f(i)) is Some <==> low <= i < high),
    ensures
        collect(f, n) == Seq::new((high - low) as nat, |j: int| f(low + j)->0),
    decreases n,
{
    let window = Seq::new((high - low) as nat, |j: int| f(low + j)->0);
    if n > 0 {
        lemma_collect_step(f, n - 1);
        if high == n && low < high {
            lemma_collect_window(f, low, high - 1, n - 1);
            assert(collect(f, n) =~= window);
        } else if high == n {
            lemma_collect_window(f, n - 1, n - 1, n - 1);
            assert(collect(f, n) =~= window);
        } else {
            lemma_collect_window(f, low, high, n - 1);
        }
    } else {
        assert(collect(f, n) =~= window);
    }
}

/// What a segment gives for a range that covers it: the segment itself up
/// to the tolerance, with the same two ends.
pub proof fn lemma_covered_piece<S: Segment>(segment: S, start: N, end: N)
    requires
        start <= 0,
        end >= segment.spec_length(),
        segment.spec_length() >= MIN_START_TO_END,
    ensures
        segment.spec_subsection(start, end) matches Some(piece) && {
            &&& piece.spec_is_roughly_within(&segment, THICKNESS)
            &&& piece.spec_start() == segment.spec_start()
            &&& piece.spec_end() == segment.spec_end()
        },
{
    segment.law_subsection(start, end);
    segment.law_ends();
}

/// The stretch of a path between two of its joints is the run of segments
/// between them, each up to the tolerance and with the same two ends.
pub proof fn lemma_stretch_between_joints<S: Segment>(segments: Seq<S>, low: int, high: int)
    requires
        is_path(segments),
        segments.len() <= usize::MAX,
        0 <= low < high <= segments.len(),
        forall|i: int|
            0 <= i < segments.len() ==> (#[trigger] segments[i]).spec_length() >= MIN_START_TO_END,
    ensures
        ({
            let from = start_offset(segments, low) as N;
            let to = start_offset(segments, high) as N;
            stretch(segments, from, to) matches Some(run) && {
                &&& run.len() == high - low
                &&& forall|j: int|
                    0 <= j < high - low ==> {
                        &&& (#[trigger] run[j]).spec_is_roughly_within(
                            &segments[low + j],
                            THICKNESS,
                        )
                        &&& run[j].spec_start() == segments[low + j].spec_start()
                        &&& run[j].spec_end() == segments[low + j].spec_end()
                    }
            }
        }),
{
    let n = segments.len() as int;
    lemma_start_offset(segments, low);
    lemma_start_offset(segments, high);
    let from = start_offset(segments, low) as N;
    let to = start_offset(segments, high) as N;
    let f = piece_each(segments, from, to);
    assert forall|i: int| 0 <= i < n implies ((#[trigger] f(i)) is Some <==> low <= i < high) by {
        lemma_start_offset(segments, i);
        let begin = start_offset(segments, i);
        let length = segments[i].spec_length();
        if i < low {
            lemma_offsets_grow(segments, i + 1, low);
            segments[i].law_subsection(
                spec_rebase(from, begin),
                spec_rebase(to, begin),
            );
        } else if i < high {
            lemma_offsets_grow(segments, low, i);
            lemma_offsets_grow(segments, i + 1, high);
            lemma_covered_piece(
                segments[i],
                spec_rebase(from, begin),
                spec_rebase(to, begin),
            );
        } else {
            lemma_offsets_grow(segments, high, i);
            segments[i].law_subsection(
                spec_rebase(from, begin),
                spec_rebase(to, begin),
            );
        }
    }
    lemma_collect_window(f, low, high, n);
    let run = pieces_between(segments, from, to);
    assert forall|j: int| 0 <= j < high - low implies {
        &&& (#[trigger] run[j]).spec_is_roughly_within(&segments[low + j], THICKNESS)
        &&& run[j].spec_start() == segments[low + j].spec_start()
        &&& run[j].spec_end() == segments[low + j].spec_end()
    } by {
        let i = low + j;
        lemma_start_offset(segments, i);
        lemma_offsets_grow(segments, low, i);
        lemma_offsets_grow(segments, i + 1, high);
        let begin = start_offset(segments, i);
        lemma_covered_piece(
            segments[i],
            spec_rebase(from, begin),
            spec_rebase(to, begin),
        );
        assert(run[j] == f(i)->0);
    }
    assert forall|j: int| #![trigger run[j]] 0 <= j && j + 1 < run.len() implies joined(
        run[j],
        run[j + 1],
    ) by {
        assert(joined(segments[low + j], segments[low + j + 1]));
    }
}

/// The subsection of a path from zero to its full length is the path,
/// segment by segment and up to the tolerance, where no segment is shorter
/// than the minimum span.
pub proof fn law_whole_subsection<S: Segment>(segments: Seq<S>)
    requires
        is_path(segments),
        segments.len() <= usize::MAX,
        forall|i: int|
            0 <= i < segments.len() ==> (#[trigger] segments[i]).spec_length() >= MIN_START_TO_END,
    ensures
        subsection_chain(segments, 0, total_length(segments) as N) matches Some(whole)
            && chains_within(whole, segments, THICKNESS),
{
    lemma_start_offset(segments, 0);
    lemma_stretch_between_joints(segments, 0, segments.len() as int);
}

/// Splitting a path at one of its inner joints and joining the two halves
/// gives the path back, segment by segment and up to the tolerance, where
/// no segment is shorter than the minimum span.
pub proof fn law_split_and_concat<S: Segment>(segments: Seq<S>, joint: int)
    requires
        is_path(segments),
        segments.len() <= usize::MAX,
        0 < joint < segments.len(),
        forall|i: int|
            0 <= i < segments.len() ==> (#[trigger] segments[i]).spec_length() >= MIN_START_TO_END,
    ensures
        ({
            let at = start_offset(segments, joint) as N;
            let all = total_length(segments) as N;
            &&& 0 < at < all
            &&& subsection_chain(segments, 0, at) matches Some(first) && subsection_chain(
                segments,
                at,
                all,
            ) matches Some(second) && {
                &&& joined(first.last(), second[0])
                &&& chains_within(first + second, segments, THICKNESS)
            }
        }),
{
    let n = segments.len() as int;
    lemma_start_offset(segments, 0);
    lemma_start_offset(segments, joint);
    lemma_start_offset(segments, joint - 1);
    lemma_offsets_grow(segments, 0, joint - 1);
    lemma_offsets_grow(segments, joint + 1, n);
    lemma_stretch_between_joints(segments, 0, joint);
    lemma_stretch_between_joints(segments, joint, n);
    let at = start_offset(segments, joint) as N;
    let all = total_length(segments) as N;
    let first = stretch(segments, 0, at)->0;
    let second = stretch(segments, at, all)->0;
    assert(joined(segments[joint - 1], segments[joint]));
    assert(first.last() == first[joint - 1]);
    let both = first + second;
    assert forall|i: int| 0 <= i < both.len() implies (#[trigger] both[i]).spec_is_roughly_within(
        &segments[i],
        THICKNESS,
    ) by {
        if i < joint {
            assert(both[i] == first[i]);
        } else {
            assert(both[i] == second[i - joint]);
        }
    }
}

/// Collecting keeps what the function yields first at the front and what
/// it yields last at the back.
pub proof fn lemma_collect_ends<T>(f: spec_fn(int) -> Option<T>, n: int)
    requires
        0 < n,
    ensures
        f(0) is Some ==> collect(f, n).len() > 0 && collect(f, n)[0] == f(0)->0,
        f(n - 1) is Some ==> collect(f, n).len() > 0 && collect(f, n).last() == f(n - 1)->0,
    decreases n,
{
    lemma_collect_step(f, n - 1);
    if n > 1 {
        lemma_collect_ends(f, n - 1);
    }
}

/// On a closed path without segments shorter than the minimum span, the
/// two halves of a subsection over the seam always meet: where both exist,
/// the first ends on the path's end and the second starts on its start.
pub proof fn law_halves_meet_at_the_seam<S: Segment>(segments: Seq<S>, start: N, end: N)
    requires
        is_path(segments),
        closed(segments),
        segments.len() <= usize::MAX,
        forall|i: int|
            0 <= i < segments.len() ==> (#[trigger] segments[i]).spec_length() >= MIN_START_TO_END,
    ensures
        ({
            let tail = stretch(segments, start, total_length(segments) as N);
            let head = stretch(segments, 0, end);
            tail is Some && head is Some ==> {
                &&& tail->0.last().spec_end() == segments.last().spec_end()
                &&& head->0[0].spec_start() == segments[0].spec_start()
                &&& joined(tail->0.last(), head->0[0])
            }
        }),
{
    let n = segments.len() as int;
    let all = total_length(segments) as N;
    lemma_start_offset(segments, 0);
    lemma_start_offset(segments, n - 1);
    let tail_each = piece_each(segments, start, all);
    let head_each = piece_each(segments, 0, end);
    let last = segments[n - 1];
    let first = segments[0];
    last.law_ends();
    first.law_ends();
    if stretch(segments, start, all) is Some {
        let from = start_offset(segments, n - 1);
        last.law_subsection(spec_rebase(start, from), spec_rebase(all, from));
        if tail_each(n - 1) is None {
            if start <= from {
                lemma_covered_piece(last, spec_rebase(start, from), spec_rebase(all, from));
            }
            assert forall|i: int| 0 <= i < n implies ((#[trigger] tail_each(i)) is Some <==> n
                <= i < n) by {
                lemma_start_offset(segments, i);
                if i < n - 1 {
                    lemma_offsets_grow(segments, i + 1, n - 1);
                }
            }
            lemma_collect_window(tail_each, n, n, n);
        }
        lemma_collect_ends(tail_each, n);
    }
    if stretch(segments, 0, end) is Some {
        first.law_subsection(spec_rebase(0, 0), spec_rebase(end, 0));
        if head_each(0) is None {
            if end >= first.spec_length() {
                lemma_covered_piece(first, spec_rebase(0, 0), spec_rebase(end, 0));
            }
            assert forall|i: int| 0 <= i < n implies ((#[trigger] head_each(i)) is Some <==> 0
                <= i < 0) by {
                lemma_start_offset(segments, i);
                if 1 <= i {
                    lemma_start_offset(segments, 1);
                    lemma_offsets_grow(segments, 1, i);
                }
            }
            lemma_collect_window(head_each, 0, 0, n);
        }
        lemma_collect_ends(head_each, n);
    }
}

/// A chain of straight pieces can be welded exactly if no piece starts
/// within the minimum span of the start of the piece that follows it, the
/// first piece following the last where the chain is taken for a ring.
pub proof fn law_lines_weld<S: Segment>(segments: Seq<S>)
    requires
        segments.len() > 0,
        forall|i: int| 0 <= i < segments.len() ==> (#[trigger] segments[i]).spec_is_linear(),
    ensures
        weldable(segments) <==> forall|i: int|
            0 <= i && i + 1 < ring(segments).len() ==> !points_within(
                (#[trigger] ring(segments)[i]).spec_start(),
                ring(segments)[i + 1].spec_start(),
                MIN_START_TO_END as int,
            ),
{
    let chain = ring(segments);
    assert forall|i: int| 0 <= i && i + 1 < chain.len() implies (weld_at(chain, i) is Some
        <==> !points_within(
        (#[trigger] chain[i]).spec_start(),
        chain[i + 1].spec_start(),
        MIN_START_TO_END as int,
    )) by {
        S::law_line(chain[i].spec_start(), chain[i + 1].spec_start());
    }
    if weldable(segments) {
        assert forall|i: int| 0 <= i && i + 1 < chain.len() implies !points_within(
            (#[trigger] chain[i]).spec_start(),
            chain[i + 1].spec_start(),
            MIN_START_TO_END as int,
        ) by {
            assert(weld_at(chain, i) is Some);
        }
    }
}

/// The index of the first segment that gives a piece to a stretch whose
/// start segment `k` owns: `k` itself, or the one behind it.
pub open spec fn first_kept<S: Segment>(segments: Seq<S>, start: N, end: N, k: int) -> int {
    if piece_of(segments, start, end, k) is Some {
        k
    } else {
        k + 1
    }
}

/// The number of segments that give a piece to a stretch from the start of
/// the path to `end`: all up to the owner of `end` if that gives one, all
/// before it if not, and all where no segment owns `end`.
pub open spec fn kept_from_the_start<S: Segment>(segments: Seq<S>, end: N) -> int {
    match owner(segments, end as int) {
        Some(m) => if piece_of(segments, 0, end, m) is Some {
            m + 1
        } else {
            m
        },
        None => segments.len() as int,
    }
}

/// The stretch from an offset on a path to the path's end, at least the
/// minimum span long, on a path without segments shorter than that: it
/// exists and ends on the path's end. It starts at the sample point of the
/// offset where the owning segment gives a piece, else on the start of the
/// segment behind the owner.
pub proof fn lemma_stretch_to_the_end<S: Segment>(segments: Seq<S>, from: N)
    requires
        is_path(segments),
        segments.len() <= usize::MAX,
        forall|i: int|
            0 <= i < segments.len() ==> (#[trigger] segments[i]).spec_length() >= MIN_START_TO_END,
        0 <= from,
        from + MIN_START_TO_END <= total_length(segments),
    ensures
        ({
            let all = total_length(segments) as N;
            let k = owner(segments, from as int)->0;
            &&& owner(segments, from as int) is Some
            &&& stretch(segments, from, all) matches Some(run) && {
                &&& run.last().spec_end() == segments.last().spec_end()
                &&& piece_of(segments, from, all, k) matches Some(own) ==> run[0] == own
                    && own.spec_start() == point_along(segments, from)
                &&& piece_of(segments, from, all, k) is None ==> k + 1 < segments.len()
                    && run[0].spec_start() == segments[k + 1].spec_start()
                &&& run.len() == segments.len() - first_kept(segments, from, all, k)
                &&& forall|j: int|
                    0 <= j < run.len() ==> {
                        let i = first_kept(segments, from, all, k) + j;
                        &&& (#[trigger] run[j]).spec_end() == segments[i].spec_end()
                        &&& i > k ==> run[j].spec_start() == segments[i].spec_start()
                    }
            }
        }),
{
    let n = segments.len() as int;
    let all = total_length(segments) as N;
    lemma_start_offset(segments, 0);
    law_owner(segments, from as int);
    let k = owner(segments, from as int)->0;
    lemma_start_offset(segments, k);
    let f = piece_each(segments, from, all);
    segments[k].law_subsection(
        spec_rebase(from, start_offset(segments, k)),
        spec_rebase(all, start_offset(segments, k)),
    );
    segments[k].law_ends();
    lemma_offsets_grow(segments, k + 1, n);
    let low = if f(k) is Some {
        k
    } else {
        k + 1
    };
    assert forall|i: int| 0 <= i < n implies ((#[trigger] f(i)) is Some <==> low <= i < n) by {
        lemma_start_offset(segments, i);
        let begin = start_offset(segments, i);
        if i < k {
            assert(end_offset(segments, i) <= from);
            segments[i].law_subsection(spec_rebase(from, begin), spec_rebase(all, begin));
        } else if i > k {
            lemma_offsets_grow(segments, k + 1, i);
            lemma_offsets_grow(segments, i + 1, n);
            lemma_covered_piece(segments[i], spec_rebase(from, begin), spec_rebase(all, begin));
        }
    }
    lemma_collect_window(f, low, n, n);
    let run = pieces_between(segments, from, all);
    assert(low == first_kept(segments, from, all, k));
    assert forall|j: int| 0 <= j < n - low implies {
        &&& (#[trigger] run[j]).spec_end() == segments[low + j].spec_end()
        &&& low + j > k ==> run[j].spec_start() == segments[low + j].spec_start()
    } by {
        let i = low + j;
        lemma_start_offset(segments, i);
        lemma_offsets_grow(segments, i + 1, n);
        let begin = start_offset(segments, i);
        assert(run[j] == f(i)->0);
        segments[i].law_subsection(spec_rebase(from, begin), spec_rebase(all, begin));
        segments[i].law_ends();
        if i > k {
            lemma_offsets_grow(segments, k + 1, i);
        }
    }
    assert forall|j: int| #![trigger run[j]] 0 <= j && j + 1 < run.len() implies joined(
        run[j],
        run[j + 1],
    ) by {
        assert(joined(segments[low + j], segments[low + j + 1]));
    }
    assert(run.last() == run[n - low - 1]);
}

/// The stretch from a path's start to an offset on it, at least the
/// minimum span long, on a path without segments shorter than that: it
/// exists and starts on the path's start. It ends at the sample point of
/// the offset where the offset is the path's length or the owning segment
/// gives a piece, else on the end of the segment before the owner.
pub proof fn lemma_stretch_from_the_start<S: Segment>(segments: Seq<S>, to: N)
    requires
        is_path(segments),
        segments.len() <= usize::MAX,
        forall|i: int|
            0 <= i < segments.len() ==> (#[trigger] segments[i]).spec_length() >= MIN_START_TO_END,
        MIN_START_TO_END <= to <= total_length(segments),
    ensures
        stretch(segments, 0, to) matches Some(run) && {
            &&& run[0].spec_start() == segments[0].spec_start()
            &&& to == total_length(segments) ==> run.last().spec_end() == segments.last().spec_end()
            &&& owner(segments, to as int) matches Some(m) ==> {
                &&& piece_of(segments, 0, to, m) matches Some(own) ==> run.last() == own
                    && own.spec_end() == point_along(segments, to)
                &&& piece_of(segments, 0, to, m) is None ==> 0 < m && run.last().spec_end()
                    == segments[m - 1].spec_end()
            }
            &&& run.len() == kept_from_the_start(segments, to)
            &&& forall|j: int|
                0 <= j < run.len() ==> {
                    &&& (#[trigger] run[j]).spec_start() == segments[j].spec_start()
                    &&& owner(segments, to as int) != Some(j) ==> run[j].spec_end()
                        == segments[j].spec_end()
                }
        },
{
    let n = segments.len() as int;
    lemma_start_offset(segments, 0);
    law_owner(segments, to as int);
    let g = piece_each(segments, 0, to);
    let m = match owner(segments, to as int) {
        Some(m) => m,
        None => n,
    };
    if m < n {
        lemma_start_offset(segments, m);
        segments[m].law_subsection(
            spec_rebase(0, start_offset(segments, m)),
            spec_rebase(to, start_offset(segments, m)),
        );
    }
    let high = if m < n && g(m) is Some {
        m + 1
    } else {
        m
    };
    assert forall|i: int| 0 <= i < n implies ((#[trigger] g(i)) is Some <==> 0 <= i < high) by {
        lemma_start_offset(segments, i);
        let begin = start_offset(segments, i);
        if i < m {
            if m < n {
                lemma_offsets_grow(segments, i + 1, m);
            } else {
                lemma_offsets_grow(segments, i + 1, n);
            }
            lemma_covered_piece(segments[i], spec_rebase(0, begin), spec_rebase(to, begin));
        } else if i > m {
            lemma_offsets_grow(segments, m + 1, i);
        }
    }
    lemma_collect_window(g, 0, high, n);
    assert(high == kept_from_the_start(segments, to));
    let run = pieces_between(segments, 0, to);
    assert forall|j: int| 0 <= j < high implies {
        &&& (#[trigger] run[j]).spec_start() == segments[j].spec_start()
        &&& j < m ==> run[j].spec_end() == segments[j].spec_end()
    } by {
        lemma_start_offset(segments, j);
        let begin = start_offset(segments, j);
        assert(run[j] == g(j)->0);
        segments[j].law_subsection(spec_rebase(0, begin), spec_rebase(to, begin));
        segments[j].law_ends();
        if j < m {
            if m < n {
                lemma_offsets_grow(segments, j + 1, m);
            } else {
                lemma_offsets_grow(segments, j + 1, n);
            }
        }
    }
    assert forall|j: int| #![trigger run[j]] 0 <= j && j + 1 < run.len() implies joined(
        run[j],
        run[j + 1],
    ) by {
        assert(joined(segments[j], segments[j + 1]));
    }
    assert(run.last() == run[high - 1]);
}

/// On a closed path without segments shorter than the minimum span, a
/// subsection that starts a reach before the end and stops the same reach
/// behind the start exists, for every reach of at least the minimum span
/// that leaves more than the tolerance between its two ends. It is the
/// stretch to the path's end followed by the stretch from its start: the
/// lengths of the two add up, the first ends on the path's end and the
/// second starts on its start.
pub proof fn law_subsection_over_the_seam<S: Segment>(segments: Seq<S>, reach: N)
    requires
        is_path(segments),
        closed(segments),
        segments.len() <= usize::MAX,
        forall|i: int|
            0 <= i < segments.len() ==> (#[trigger] segments[i]).spec_length() >= MIN_START_TO_END,
        MIN_START_TO_END <= reach,
        2 * reach + THICKNESS < total_length(segments),
    ensures
        ({
            let all = total_length(segments) as N;
            let from = (all - reach) as N;
            &&& stretch(segments, from, all) matches Some(tail) && stretch(
                segments,
                0,
                reach,
            ) matches Some(head) && {
                &&& subsection_chain(segments, from, reach) == Some(tail + head)
                &&& is_path(tail + head)
                &&& total_length(tail + head) == total_length(tail) + total_length(head)
                &&& tail.last().spec_end() == segments.last().spec_end()
                &&& head[0].spec_start() == segments[0].spec_start()
                &&& piece_of(segments, from, all, owner(segments, from as int)->0) is Some ==> (
                tail + head)[0].spec_start() == point_along(segments, from)
                &&& piece_of(segments, 0, reach, owner(segments, reach as int)->0) is Some ==> (
                tail + head).last().spec_end() == point_along(segments, reach)
            }
        }),
{
    lemma_start_offset(segments, 0);
    let all = total_length(segments) as N;
    let from = (all - reach) as N;
    lemma_stretch_to_the_end(segments, from);
    lemma_stretch_from_the_start(segments, reach);
    law_owner(segments, reach as int);
    let tail = stretch(segments, from, all)->0;
    let head = stretch(segments, 0, reach)->0;
    crate::chain::lemma_continuous_concat(tail, head);
    crate::chain::lemma_total_length_concat(tail, head);
    assert((tail + head)[0] == tail[0]);
    assert((tail + head).last() == head.last());
}

/// Splitting a path inside a segment, at least the minimum span from the
/// segment's two ends, and joining the two halves gives a path along the
/// same segments: both halves exist, the first ends and the second starts
/// at the sample point of the split, the joined path starts on the path's
/// start and ends on its end, and the lengths of the halves add up.
pub proof fn law_split_inside_and_concat<S: Segment>(segments: Seq<S>, at: N)
    requires
        is_path(segments),
        segments.len() <= usize::MAX,
        forall|i: int|
            0 <= i < segments.len() ==> (#[trigger] segments[i]).spec_length() >= MIN_START_TO_END,
        0 <= at < total_length(segments),
        owner(segments, at as int) matches Some(m) && at - start_offset(segments, m)
            >= MIN_START_TO_END && end_offset(segments, m) - at >= MIN_START_TO_END,
    ensures
        ({
            let all = total_length(segments) as N;
            &&& subsection_chain(segments, 0, at) matches Some(first) && subsection_chain(
                segments,
                at,
                all,
            ) matches Some(second) && {
                &&& first.last().spec_end() == point_along(segments, at)
                &&& second[0].spec_start() == point_along(segments, at)
                &&& joined(first.last(), second[0])
                &&& is_path(first + second)
                &&& (first + second)[0].spec_start() == segments[0].spec_start()
                &&& (first + second).last().spec_end() == segments.last().spec_end()
                &&& total_length(first + second) == total_length(first) + total_length(second)
                &&& first.len() == owner(segments, at as int)->0 + 1
                &&& second.len() == segments.len() - owner(segments, at as int)->0
                &&& forall|i: int|
                    0 <= i < first.len() ==> {
                        &&& (#[trigger] first[i]).spec_start() == segments[i].spec_start()
                        &&& i + 1 < first.len() ==> first[i].spec_end() == segments[i].spec_end()
                    }
                &&& forall|j: int|
                    0 <= j < second.len() ==> {
                        let i = owner(segments, at as int)->0 + j;
                        &&& (#[trigger] second[j]).spec_end() == segments[i].spec_end()
                        &&& 0 < j ==> second[j].spec_start() == segments[i].spec_start()
                    }
            }
        }),
{
    lemma_start_offset(segments, 0);
    let all = total_length(segments) as N;
    law_owner(segments, at as int);
    let m = owner(segments, at as int)->0;
    lemma_start_offset(segments, m);
    let begin = start_offset(segments, m);
    segments[m].law_subsection(spec_rebase(0, begin), spec_rebase(at, begin));
    segments[m].law_subsection(spec_rebase(at, begin), spec_rebase(all, begin));
    lemma_offsets_grow(segments, m + 1, segments.len() as int);
    lemma_stretch_from_the_start(segments, at);
    lemma_stretch_to_the_end(segments, at);
    let first = stretch(segments, 0, at)->0;
    let second = stretch(segments, at, all)->0;
    crate::geometry::lemma_points_within(
        first.last().spec_end(),
        first.last().spec_end(),
        THICKNESS as int,
        THICKNESS as int,
    );
    crate::chain::lemma_continuous_concat(first, second);
    crate::chain::lemma_total_length_concat(first, second);
    assert((first + second)[0] == first[0]);
    assert((first + second).last() == second.last());
}

/// A path of two segments reports no self-intersection where every
/// crossing of the two lies within the tolerance of the end of the first
/// or of the start of the second, whatever the segments are: a contact at
/// the shared point is no crossing.
pub proof fn law_contact_at_the_joint_is_no_self_intersection<S: Segment>(a: S, b: S)
    requires
        forall|k: int|
            0 <= k < a.spec_intersect(&b).len() ==> scalars_within(
                (#[trigger] a.spec_intersect(&b)[k]).along_a as int,
                a.spec_length() as int,
                THICKNESS as int,
            ) || scalars_within(a.spec_intersect(&b)[k].along_b as int, 0, THICKNESS as int),
    ensures
        self_crossings(seq![a, b]) == Seq::<Intersection>::empty(),
{
    let segments = seq![a, b];
    let found = a.spec_intersect(&b);
    let keep = rebase_interior(found, a, b, start_offset(segments, 0), start_offset(segments, 1));
    lemma_collect_window(keep, 0, 0, found.len() as int);
    assert(collect(keep, found.len() as int) =~= Seq::empty());
    assert(pair_self_crossings(segments, 0, 1) =~= Seq::empty());
    let with_first = self_crossings_with(segments, 0);
    let with_second = self_crossings_with(segments, 1);
    assert(flatten(with_first, 1, 2) =~= flatten(with_first, 1, 1) + with_first(1));
    assert(flatten(with_first, 1, 1) =~= Seq::empty());
    assert(flatten(with_second, 2, 2) =~= Seq::empty());
    let from = self_crossings_from(segments);
    assert(from(0) =~= Seq::empty());
    assert(from(1) =~= Seq::empty());
    assert(flatten(from, 0, 0) =~= Seq::empty());
    assert(flatten(from, 0, 1) =~= flatten(from, 0, 0) + from(0));
    assert(flatten(from, 0, 2) =~= flatten(from, 0, 1) + from(1));
}

/// A chain whose last end lies within twice the tolerance of its first
/// start is taken for a ring when it is welded.
pub proof fn law_near_rings_are_welded_shut<S: Segment>(segments: Seq<S>)
    requires
        segments.len() > 0,
        points_within(segments.last().spec_end(), segments[0].spec_start(), 2 * THICKNESS),
    ensures
        nearly_closed(segments),
{
    lemma_points_within_wider(
        segments.last().spec_end(),
        segments[0].spec_start(),
        2 * THICKNESS,
        3 * THICKNESS,
    );
}

/// Whether `offsets[j]` is the first of the offsets at which the path
/// comes nearest to `point`: no offset lies nearer, and none before it lies
/// as near.
pub open spec fn first_nearest<S: Segment>(
    segments: Seq<S>,
    point: P2,
    offsets: Seq<N>,
    j: int,
) -> bool {
    &&& 0 <= j < offsets.len()
    &&& forall|k: int|
        0 <= k < offsets.len() ==> squared_gap(segments, point, offsets[j]) <= squared_gap(
            segments,
            point,
            #[trigger] offsets[k],
        )
    &&& forall|k: int|
        0 <= k < j ==> squared_gap(segments, point, offsets[j]) < squared_gap(
            segments,
            point,
            #[trigger] offsets[k],
        )
}

/// The projection onto a path is the first of the candidate offsets at
/// which the path comes nearest to the point, and there is one as soon as
/// there is a candidate.
pub proof fn law_nearest<S: Segment>(segments: Seq<S>, point: P2, offsets: Seq<N>)
    ensures
        nearest(segments, point, offsets) is None <==> offsets.len() == 0,
        nearest(segments, point, offsets) matches Some(best) ==> exists|j: int|
            first_nearest(segments, point, offsets, j) && offsets[j] == best,
    decreases offsets.len(),
{
    if offsets.len() > 0 {
        let front = offsets.drop_last();
        let last = offsets.len() - 1;
        law_nearest(segments, point, front);
        match nearest(segments, point, front) {
            Some(before) => {
                let j = choose|j: int|
                    first_nearest(segments, point, front, j) && front[j] == before;
                assert forall|k: int| 0 <= k < front.len() implies squared_gap(
                    segments,
                    point,
                    before,
                ) <= squared_gap(segments, point, #[trigger] offsets[k]) by {
                    assert(front[k] == offsets[k]);
                }
                assert forall|k: int| 0 <= k < j implies squared_gap(segments, point, before)
                    < squared_gap(segments, point, #[trigger] offsets[k]) by {
                    assert(front[k] == offsets[k]);
                }
                if squared_gap(segments, point, offsets[last]) < squared_gap(
                    segments,
                    point,
                    before,
                ) {
                    assert(first_nearest(segments, point, offsets, last));
                } else {
                    assert(offsets[j] == before);
                    assert(first_nearest(segments, point, offsets, j));
                }
            },
            None => {
                assert(first_nearest(segments, point, offsets, 0));
            },
        }
    }
}

/// No segment owns an offset from the path's length on; below it, the
/// owner is the first segment that ends behind the offset, and an offset
/// that is not negative lies on its owner.
pub proof fn law_owner<S: Segment>(segments: Seq<S>, distance: int)
    requires
        segments.len() > 0,
    ensures
        owner(segments, distance) is None <==> distance >= total_length(segments),
        owner(segments, distance) matches Some(i) ==> {
            &&& 0 <= i < segments.len()
            &&& end_offset(segments, i) > distance
            &&& forall|k: int| 0 <= k < i ==> #[trigger] end_offset(segments, k) <= distance
            &&& distance >= 0 ==> start_offset(segments, i) <= distance
            &&& end_offset(segments, i) == start_offset(segments, i) + segments[i].spec_length()
        },
{
    lemma_owner(segments, distance);
    if let Some(i) = owner(segments, distance) {
        assert(segments.take(i + 1).drop_last() =~= segments.take(i));
        if i > 0 {
            assert(end_offset(segments, i - 1) <= distance);
        }
    }
}

/// Collecting a function that always yields something keeps everything.
pub proof fn lemma_collect_all<T>(f: spec_fn(int) -> Option<T>, n: int)
    requires
        0 <= n,
        forall|i: int| 0 <= i < n ==> (#[trigger] f(i)) is Some,
    ensures
        collect(f, n).len() == n,
    decreases n,
{
    if n > 0 {
        lemma_collect_all(f, n - 1);
    }
}

} // verus!
