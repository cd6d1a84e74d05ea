use descartes::{
    convex_hull, Intersection, LineSegment, Path, PathError, Segment, StartOffsetState, VecPath,
    P2, THICKNESS, V2,
};

fn line(from: (i32, i32), to: (i32, i32)) -> LineSegment {
    LineSegment { start: P2::new(from.0, from.1), end: P2::new(to.0, to.1) }
}

fn square_segments() -> Vec<LineSegment> {
    vec![
        line((0, 0), (10_000, 0)),
        line((10_000, 0), (10_000, 10_000)),
        line((10_000, 10_000), (0, 10_000)),
        line((0, 10_000), (0, 0)),
    ]
}

fn square() -> VecPath<LineSegment> {
    VecPath::new(square_segments()).unwrap()
}

fn corner() -> VecPath<LineSegment> {
    VecPath::new(vec![line((0, 0), (10_000, 0)), line((10_000, 0), (10_000, 10_000))]).unwrap()
}

fn is_continuous(segments: &[LineSegment]) -> bool {
    segments.windows(2).all(|pair| pair[0].end.is_roughly_within(pair[1].start, THICKNESS))
}

#[test]
fn new_rejects_an_empty_chain() {
    let built = VecPath::<LineSegment>::new(vec![]);
    assert_eq!(built.err(), Some(PathError::EmptyPath));
}

#[test]
fn new_rejects_a_gap() {
    let built = VecPath::new(vec![line((0, 0), (10_000, 0)), line((10_000, 101), (10_000, 5_000))]);
    assert_eq!(built.err(), Some(PathError::NotContinuous));
}

#[test]
fn new_rejects_a_gap_late_in_the_chain() {
    let mut segments = square_segments();
    segments.push(line((500, 0), (5_000, 0)));
    assert_eq!(VecPath::new(segments).err(), Some(PathError::NotContinuous));
}

#[test]
fn new_accepts_ends_within_the_tolerance() {
    let segments = vec![line((0, 0), (10_000, 0)), line((10_000, 100), (10_000, 5_000))];
    let built = VecPath::new(segments.clone()).unwrap();
    assert_eq!(built.segments(), &segments[..]);
}

#[test]
fn new_accepts_a_single_segment() {
    let built = VecPath::new(vec![line((0, 0), (10_000, 0))]).unwrap();
    assert_eq!(built.segments().len(), 1);
    assert!(!built.is_closed());
}

#[test]
fn new_unchecked_keeps_the_segments() {
    let built = VecPath::new_unchecked(square_segments());
    assert_eq!(built.segments(), &square_segments()[..]);
    assert_eq!(built.clone().segments(), &square_segments()[..]);
}

#[test]
fn length_is_the_sum_of_the_segment_lengths() {
    let path = square();
    let sum: i128 = path.segments().iter().map(|segment| segment.length()).sum();
    assert_eq!(path.length(), sum);
    assert_eq!(path.length(), 40_000);
    assert_eq!(corner().length(), 20_000);
}

#[test]
fn along_reaches_start_and_end() {
    let path = corner();
    assert_eq!(path.along(0), path.start());
    assert_eq!(path.along(path.length()), path.end());
    assert_eq!(path.start(), P2::new(0, 0));
    assert_eq!(path.end(), P2::new(10_000, 10_000));
}

#[test]
fn along_samples_the_owning_segment() {
    let path = square();
    assert_eq!(path.along(5_000), P2::new(5_000, 0));
    assert_eq!(path.along(10_000), P2::new(10_000, 0));
    assert_eq!(path.along(15_000), P2::new(10_000, 5_000));
    assert_eq!(path.along(39_999), P2::new(0, 1));
}

#[test]
fn along_clamps_offsets_outside_the_path() {
    let path = corner();
    assert_eq!(path.along(-1), P2::new(0, 0));
    assert_eq!(path.along(i128::MIN), P2::new(0, 0));
    assert_eq!(path.along(20_001), P2::new(10_000, 10_000));
    assert_eq!(path.along(i128::MAX), P2::new(10_000, 10_000));
}

#[test]
fn along_skips_segments_without_length() {
    let path = VecPath::new(vec![
        line((0, 0), (0, 0)),
        line((90, 0), (90, 0)),
        line((180, 0), (10_000, 0)),
    ])
    .unwrap();
    assert_eq!(path.start(), P2::new(0, 0));
    assert_eq!(path.along(0), P2::new(180, 0));
}

#[test]
fn direction_along_follows_the_owning_segment() {
    let path = corner();
    assert_eq!(path.direction_along(5_000), V2 { x: 1_000_000, y: 0 });
    assert_eq!(path.direction_along(15_000), V2 { x: 0, y: 1_000_000 });
    assert_eq!(path.direction_along(-3), V2 { x: 1_000_000, y: 0 });
    assert_eq!(path.direction_along(20_000), V2 { x: 0, y: 1_000_000 });
    assert_eq!(path.start_direction(), V2 { x: 1_000_000, y: 0 });
    assert_eq!(path.end_direction(), V2 { x: 0, y: 1_000_000 });
}

#[test]
fn find_on_segment_gives_the_first_segment_that_ends_behind() {
    let path = square();
    let segments = square_segments();
    assert_eq!(path.find_on_segment(0), Some((&segments[0], 0)));
    assert_eq!(path.find_on_segment(9_999), Some((&segments[0], 9_999)));
    assert_eq!(path.find_on_segment(10_000), Some((&segments[1], 0)));
    assert_eq!(path.find_on_segment(15_000), Some((&segments[1], 5_000)));
    assert_eq!(path.find_on_segment(39_999), Some((&segments[3], 9_999)));
    assert_eq!(path.find_on_segment(-7), Some((&segments[0], -7)));
}

#[test]
fn find_on_segment_gives_nothing_from_the_length_on() {
    let path = square();
    assert_eq!(path.find_on_segment(40_000), None);
    assert_eq!(path.find_on_segment(40_001), None);
    assert_eq!(path.find_on_segment(i128::MAX), None);
}

#[test]
fn is_closed_compares_end_and_start() {
    assert!(square().is_closed());
    assert!(!corner().is_closed());
    let nearly = VecPath::new(vec![
        line((0, 0), (10_000, 0)),
        line((10_000, 0), (10_000, 10_000)),
        line((10_000, 10_000), (60, 80)),
    ])
    .unwrap();
    assert!(nearly.is_closed());
    let not_quite = VecPath::new(vec![
        line((0, 0), (10_000, 0)),
        line((10_000, 0), (10_000, 10_000)),
        line((10_000, 10_000), (61, 80)),
    ])
    .unwrap();
    assert!(!not_quite.is_closed());
}

#[test]
fn reverse_turns_the_path_around() {
    let back = corner().reverse();
    assert_eq!(
        back.segments(),
        &[line((10_000, 10_000), (10_000, 0)), line((10_000, 0), (0, 0))][..]
    );
    assert!(is_continuous(back.segments()));
}

#[test]
fn reverse_twice_gives_the_path_back() {
    let path = square();
    let twice = path.reverse().reverse();
    assert!(twice.is_roughly_within(&path, THICKNESS));
    assert!(Path::is_roughly_within(&twice, &path, 0));
    assert!(!path.reverse().is_roughly_within(&path, THICKNESS));
}

#[test]
fn rough_equality_needs_the_same_number_of_segments() {
    let path = square();
    assert!(!path.is_roughly_within(&corner(), THICKNESS));
    assert!(!corner().is_roughly_within(&path, i128::MAX));
    let nudged = VecPath::new(vec![
        line((0, 50), (10_000, 0)),
        line((10_000, 0), (10_050, 10_000)),
        line((10_000, 10_000), (0, 10_000)),
        line((0, 10_000), (0, 0)),
    ])
    .unwrap();
    assert!(path.is_roughly_within(&nudged, THICKNESS));
    assert!(!path.is_roughly_within(&nudged, 49));
}

#[test]
fn subsection_of_the_whole_range_gives_the_path_back() {
    let path = square();
    let whole = path.subsection(0, path.length()).unwrap();
    assert!(whole.is_roughly_within(&path, THICKNESS));
    assert_eq!(whole.segments(), path.segments());
}

#[test]
fn subsection_cuts_the_segments_at_its_ends() {
    let path = square();
    let part = path.subsection(5_000, 25_000).unwrap();
    assert_eq!(
        part.segments(),
        &[
            line((5_000, 0), (10_000, 0)),
            line((10_000, 0), (10_000, 10_000)),
            line((10_000, 10_000), (5_000, 10_000)),
        ][..]
    );
    assert_eq!(part.length(), 20_000);
}

#[test]
fn subsection_inside_one_segment() {
    let part = square().subsection(12_000, 18_000).unwrap();
    assert_eq!(part.segments(), &[line((10_000, 2_000), (10_000, 8_000))][..]);
}

#[test]
fn subsection_of_an_empty_range_is_nothing() {
    let path = corner();
    assert!(path.subsection(5_000, 5_000).is_none());
    assert!(path.subsection(5_000, 5_999).is_none());
    assert!(path.subsection(9_000, 3_000).is_none());
    assert!(path.subsection(20_000, 30_000).is_none());
    assert!(path.subsection(25_000, 30_000).is_none());
    assert!(path.subsection(-9_000, -3_000).is_none());
    assert!(path.subsection(i128::MAX, i128::MIN).is_none());
}

#[test]
fn subsection_reaches_beyond_the_path() {
    let path = corner();
    let all = path.subsection(i128::MIN, i128::MAX).unwrap();
    assert_eq!(all.segments(), path.segments());
    let tail = path.subsection(15_000, i128::MAX).unwrap();
    assert_eq!(tail.segments(), &[line((10_000, 5_000), (10_000, 10_000))][..]);
}

#[test]
fn subsection_wraps_over_the_seam_of_a_closed_path() {
    let path = square();
    let length = path.length();
    let over = path.subsection(length - 5_000, 5_000).unwrap();
    assert_eq!(over.segments(), &[line((0, 5_000), (0, 0)), line((0, 0), (5_000, 0))][..]);
    assert_eq!(over.length(), 10_000);
}

#[test]
fn subsection_over_the_seam_keeps_the_half_that_exists() {
    let path = square();
    let tail_only = path.subsection(35_000, 500).unwrap();
    assert_eq!(tail_only.segments(), &[line((0, 5_000), (0, 0))][..]);
    let head_only = path.subsection(39_500, 5_000).unwrap();
    assert_eq!(head_only.segments(), &[line((0, 0), (5_000, 0))][..]);
    assert!(path.subsection(39_500, 500).is_none());
}

#[test]
fn subsection_far_behind_the_end_of_a_closed_path() {
    let path = square();
    let head = path.subsection(90_000, 5_000).unwrap();
    assert_eq!(head.segments(), &[line((0, 0), (5_000, 0))][..]);
    assert!(path.subsection(5_000, -90_000).is_some());
    assert_eq!(
        path.subsection(5_000, -90_000).unwrap().segments(),
        path.subsection(5_000, 40_000).unwrap().segments()
    );
}

#[test]
fn subsection_does_not_wrap_within_the_tolerance() {
    let path = square();
    assert!(path.subsection(5_100, 5_000).is_none());
    assert!(path.subsection(5_101, 5_000).is_some());
}

#[test]
fn subsection_does_not_wrap_on_an_open_path() {
    assert!(corner().subsection(15_000, 5_000).is_none());
}

#[test]
fn split_at_a_joint_and_concat_gives_the_path_back() {
    let path = square();
    let first = path.subsection(0, 20_000).unwrap();
    let second = path.subsection(20_000, path.length()).unwrap();
    assert_eq!(first.segments().len(), 2);
    assert_eq!(second.segments().len(), 2);
    let joined = first.concat(&second).ok().unwrap();
    assert!(joined.is_roughly_within(&path, THICKNESS));
}

#[test]
fn split_inside_a_segment_and_concat_keeps_the_course() {
    let path = square();
    let first = path.subsection(0, 15_000).unwrap();
    let second = path.subsection(15_000, path.length()).unwrap();
    let joined = first.concat(&second).ok().unwrap();
    assert_eq!(joined.segments().len(), 5);
    assert_eq!(
        joined.segments(),
        &[
            line((0, 0), (10_000, 0)),
            line((10_000, 0), (10_000, 5_000)),
            line((10_000, 5_000), (10_000, 10_000)),
            line((10_000, 10_000), (0, 10_000)),
            line((0, 10_000), (0, 0)),
        ][..]
    );
    assert_eq!(first.end(), path.along(15_000));
    assert_eq!(second.start(), path.along(15_000));
    assert_eq!(joined.length(), path.length());
    assert_eq!(joined.start(), path.start());
    assert_eq!(joined.end(), path.end());
    assert!(!joined.is_roughly_within(&path, THICKNESS));
}

#[test]
fn split_inside_a_skew_segment_keeps_the_length_up_to_rounding() {
    let path = VecPath::new(vec![
        line((0, 0), (7_001, 3_003)),
        line((7_001, 3_003), (-2_222, 9_871)),
        line((-2_222, 9_871), (-2_000, -5_555)),
    ])
    .unwrap();
    let length = path.length();
    let at = path.segments()[0].length() + 4_321;
    let first = path.subsection(0, at).unwrap();
    let second = path.subsection(at, length).unwrap();
    assert_eq!(first.end(), path.along(at));
    assert_eq!(second.start(), path.along(at));
    let joined = first.concat(&second).ok().unwrap();
    assert_eq!(joined.segments().len(), 4);
    assert_eq!(joined.segments()[0], path.segments()[0]);
    assert_eq!(joined.segments()[3], path.segments()[2]);
    assert!(length - 10 <= joined.length() && joined.length() <= length + 4);
    assert!(at - 5 <= first.length() && first.length() <= at + 2);
}

#[test]
fn subsection_over_the_seam_is_about_twice_the_reach_long() {
    let ring = VecPath::new(vec![
        line((0, 0), (7_001, 3_003)),
        line((7_001, 3_003), (-2_222, 9_871)),
        line((-2_222, 9_871), (0, 0)),
    ])
    .unwrap();
    let length = ring.length();
    let over = ring.subsection(length - 3_333, 3_333).unwrap();
    assert_eq!(over.segments().len(), 2);
    assert_eq!(over.start(), ring.along(length - 3_333));
    assert_eq!(over.end(), ring.along(3_333));
    assert!(2 * 3_333 - 10 <= over.length() && over.length() <= 2 * 3_333 + 4);
}

#[test]
fn concat_joins_paths_that_meet() {
    let first = VecPath::new(vec![line((0, 0), (10_000, 0))]).unwrap();
    let second = VecPath::new(vec![line((10_060, 80), (10_000, 10_000))]).unwrap();
    let joined = first.concat(&second).ok().unwrap();
    assert_eq!(
        joined.segments(),
        &[line((0, 0), (10_000, 0)), line((10_060, 80), (10_000, 10_000))][..]
    );
}

#[test]
fn concat_rejects_paths_that_do_not_meet() {
    let first = VecPath::new(vec![line((0, 0), (10_000, 0))]).unwrap();
    let second = VecPath::new(vec![line((10_061, 80), (10_000, 10_000))]).unwrap();
    assert_eq!(first.concat(&second).err(), Some(PathError::NotContinuous));
    assert_eq!(first.concat(&first).err(), Some(PathError::NotContinuous));
}

#[test]
fn contains_tells_inside_from_outside() {
    let path = square();
    assert!(path.contains(P2::new(5_000, 5_000)));
    assert!(!path.contains(P2::new(-50_000, 5_000)));
    assert!(!path.contains(P2::new(50_000, 5_000)));
    assert!(!path.contains(P2::new(5_000, 50_000)));
    assert!(!path.contains(P2::new(5_000, -50_000)));
    assert!(!path.contains(P2::new(1_000_000_000, 1_000_000_000)));
}

#[test]
fn contains_counts_crossings_to_the_right() {
    let path = square();
    assert!(path.contains(P2::new(1, 9_999)));
    assert!(path.contains(P2::new(9_999, 1)));
    assert!(!path.contains(P2::new(10_001, 5_000)));
    assert!(!path.contains(P2::new(-1, 5_000)));
}

#[test]
fn contains_nothing_where_no_ray_fits() {
    let wide = VecPath::new(vec![
        line((0, 0), (i32::MAX, 0)),
        line((i32::MAX, 0), (i32::MAX, 10_000)),
        line((i32::MAX, 10_000), (0, 10_000)),
        line((0, 10_000), (0, 0)),
    ])
    .unwrap();
    assert!(wide.contains(P2::new(i32::MAX - 1_001, 5_000)));
    assert!(!wide.contains(P2::new(i32::MAX - 1_000, 5_000)));
    assert!(!wide.contains(P2::new(i32::MAX, 5_000)));
}

#[test]
fn self_intersections_leave_out_shared_ends() {
    assert_eq!(corner().self_intersections(), vec![]);
    assert_eq!(square().self_intersections(), vec![]);
}

#[test]
fn self_intersections_leave_out_a_contact_near_the_joint() {
    let hooked = VecPath::new(vec![
        line((0, 0), (10_000, 0)),
        line((9_950, -50), (9_950, 10_000)),
    ])
    .unwrap();
    assert_eq!(
        hooked.segments()[0].intersect(&hooked.segments()[1]),
        vec![Intersection { position: P2::new(9_950, 0), along_a: 9_950, along_b: 50 }]
    );
    assert_eq!(hooked.self_intersections(), vec![]);
}

#[test]
fn subsection_over_the_seam_reaches_across_several_segments() {
    let path = square();
    let over = path.subsection(25_000, 15_000).unwrap();
    assert_eq!(
        over.segments(),
        &[
            line((5_000, 10_000), (0, 10_000)),
            line((0, 10_000), (0, 0)),
            line((0, 0), (10_000, 0)),
            line((10_000, 0), (10_000, 5_000)),
        ][..]
    );
    assert_eq!(over.start(), path.along(25_000));
    assert_eq!(over.end(), path.along(15_000));
    assert_eq!(over.length(), 30_000);
}

#[test]
fn self_intersections_find_a_crossing_in_whole_path_offsets() {
    let bow = VecPath::new(vec![
        line((0, 0), (10_000, 10_000)),
        line((10_000, 10_000), (10_000, 0)),
        line((10_000, 0), (0, 10_000)),
    ])
    .unwrap();
    assert_eq!(
        bow.self_intersections(),
        vec![Intersection { position: P2::new(5_000, 5_000), along_a: 7_071, along_b: 31_213 }]
    );
}

#[test]
fn self_intersections_leave_out_crossings_near_an_end() {
    let hook = VecPath::new(vec![
        line((0, 0), (10_000, 0)),
        line((10_000, 0), (10_000, 10_000)),
        line((10_000, 10_000), (100, 10_000)),
        line((100, 10_000), (100, -5_000)),
    ])
    .unwrap();
    assert_eq!(hook.self_intersections(), vec![]);
    let cut = VecPath::new(vec![
        line((0, 0), (10_000, 0)),
        line((10_000, 0), (10_000, 10_000)),
        line((10_000, 10_000), (101, 10_000)),
        line((101, 10_000), (101, -5_000)),
    ])
    .unwrap();
    assert_eq!(
        cut.self_intersections(),
        vec![Intersection { position: P2::new(101, 0), along_a: 101, along_b: 39_899 }]
    );
}

#[test]
fn intersect_finds_the_crossings_of_two_paths() {
    let path = square();
    let through = VecPath::new(vec![line((-5_000, 5_000), (15_000, 5_000))]).unwrap();
    assert_eq!(
        path.intersect(&through),
        vec![
            Intersection { position: P2::new(10_000, 5_000), along_a: 15_000, along_b: 15_000 },
            Intersection { position: P2::new(0, 5_000), along_a: 35_000, along_b: 5_000 },
        ]
    );
    assert_eq!(
        through.intersect(&path),
        vec![
            Intersection { position: P2::new(10_000, 5_000), along_a: 15_000, along_b: 15_000 },
            Intersection { position: P2::new(0, 5_000), along_a: 5_000, along_b: 35_000 },
        ]
    );
}

#[test]
fn intersect_keeps_crossings_at_the_ends() {
    let first = VecPath::new(vec![line((0, 0), (10_000, 0))]).unwrap();
    let second = VecPath::new(vec![line((10_000, 0), (10_000, 10_000))]).unwrap();
    assert_eq!(
        first.intersect(&second),
        vec![Intersection { position: P2::new(10_000, 0), along_a: 10_000, along_b: 0 }]
    );
}

#[test]
fn welding_closes_a_ring_that_is_nearly_closed() {
    let raw = vec![
        line((0, 0), (10_000, 0)),
        line((10_000, 150), (10_000, 10_000)),
        line((10_030, 10_000), (0, 10_000)),
        line((0, 9_990), (0, 150)),
    ];
    assert_eq!(VecPath::new(raw.clone()).err(), Some(PathError::NotContinuous));
    let welded = VecPath::new_welded(raw).ok().unwrap();
    assert!(welded.is_closed());
    assert_eq!(
        welded.segments(),
        &[
            line((0, 0), (10_000, 150)),
            line((10_000, 150), (10_030, 10_000)),
            line((10_030, 10_000), (0, 9_990)),
            line((0, 9_990), (0, 0)),
        ][..]
    );
    assert_eq!(welded.end(), welded.start());
}

#[test]
fn welding_takes_three_tolerances_for_a_ring() {
    let ring = vec![
        line((0, 0), (10_000, 0)),
        line((10_000, 0), (10_000, 10_000)),
        line((10_000, 10_000), (180, 240)),
    ];
    let welded = VecPath::new_welded(ring).ok().unwrap();
    assert_eq!(welded.segments().len(), 3);
    assert!(welded.is_closed());
    let open = vec![
        line((0, 0), (10_000, 0)),
        line((10_000, 0), (10_000, 10_000)),
        line((10_000, 10_000), (181, 240)),
    ];
    let welded = VecPath::new_welded(open).ok().unwrap();
    assert_eq!(welded.segments().len(), 3);
    assert!(!welded.is_closed());
    assert_eq!(welded.end(), P2::new(181, 240));
}

#[test]
fn welding_an_open_chain_keeps_the_last_segment() {
    let raw = vec![
        line((0, 0), (10_000, 0)),
        line((10_000, 150), (10_000, 10_000)),
        line((10_150, 10_000), (20_000, 10_000)),
    ];
    let welded = VecPath::new_welded(raw).ok().unwrap();
    assert_eq!(
        welded.segments(),
        &[
            line((0, 0), (10_000, 150)),
            line((10_000, 150), (10_150, 10_000)),
            line((10_150, 10_000), (20_000, 10_000)),
        ][..]
    );
    assert!(is_continuous(welded.segments()));
}

#[test]
fn welding_a_single_open_segment_keeps_it() {
    let welded = VecPath::new_welded(vec![line((0, 0), (10_000, 0))]).ok().unwrap();
    assert_eq!(welded.segments(), &[line((0, 0), (10_000, 0))][..]);
}

#[test]
fn welding_nothing_is_an_empty_path() {
    assert_eq!(VecPath::<LineSegment>::new_welded(vec![]).err(), Some(PathError::EmptyPath));
}

#[test]
fn welding_fails_where_a_connection_cannot_be_built() {
    let crowded = vec![line((0, 0), (5_000, 0)), line((500, 0), (9_000, 0))];
    assert_eq!(VecPath::new_welded(crowded).err(), Some(PathError::NotContinuous));
    let loop_of_one = vec![line((0, 0), (50, 50))];
    assert_eq!(VecPath::new_welded(loop_of_one).err(), Some(PathError::NotContinuous));
}

#[test]
fn shift_orthogonally_bridges_the_gaps_and_closes_the_ring() {
    let outer = square().shift_orthogonally(1_000).unwrap();
    assert_eq!(
        outer.segments(),
        &[
            line((0, -1_000), (10_000, -1_000)),
            line((10_000, -1_000), (11_000, 0)),
            line((11_000, 0), (11_000, 10_000)),
            line((11_000, 10_000), (10_000, 11_000)),
            line((10_000, 11_000), (0, 11_000)),
            line((0, 11_000), (-1_000, 10_000)),
            line((-1_000, 10_000), (-1_000, 0)),
            line((-1_000, 0), (0, -1_000)),
        ][..]
    );
    assert!(is_continuous(outer.segments()));
    assert!(outer.is_closed());
    assert!(VecPath::new(outer.segments().to_vec()).is_ok());
}

#[test]
fn shift_orthogonally_to_the_left() {
    let inner = square().shift_orthogonally(-1_000).unwrap();
    assert_eq!(inner.segments().len(), 8);
    assert_eq!(inner.segments()[0], line((0, 1_000), (10_000, 1_000)));
    assert_eq!(inner.segments()[1], line((10_000, 1_000), (9_000, 0)));
    assert!(is_continuous(inner.segments()));
    assert!(inner.is_closed());
}

#[test]
fn shift_orthogonally_leaves_an_open_path_open() {
    let beside = corner().shift_orthogonally(1_000).unwrap();
    assert_eq!(
        beside.segments(),
        &[
            line((0, -1_000), (10_000, -1_000)),
            line((10_000, -1_000), (11_000, 0)),
            line((11_000, 0), (11_000, 10_000)),
        ][..]
    );
    assert!(!beside.is_closed());
}

#[test]
fn shift_orthogonally_needs_no_bridge_on_a_straight_course() {
    let straight =
        VecPath::new(vec![line((0, 0), (10_000, 0)), line((10_000, 0), (30_000, 0))]).unwrap();
    let beside = straight.shift_orthogonally(70).unwrap();
    assert_eq!(
        beside.segments(),
        &[line((0, -70), (10_000, -70)), line((10_000, -70), (30_000, -70))][..]
    );
}

#[test]
fn shift_orthogonally_by_nothing_gives_the_path_back() {
    let same = square().shift_orthogonally(0).unwrap();
    assert_eq!(same.segments(), square().segments());
}

#[test]
fn shift_orthogonally_fails_where_a_bridge_cannot_be_built() {
    assert!(corner().shift_orthogonally(500).is_none());
    assert!(corner().shift_orthogonally(71).is_none());
    assert!(corner().shift_orthogonally(70).is_some());
}

#[test]
fn shift_orthogonally_fails_where_nothing_is_left() {
    assert!(corner().shift_orthogonally(i128::MAX).is_none());
    let low = VecPath::new(vec![line((0, i32::MIN), (10_000, i32::MIN))]).unwrap();
    assert!(low.shift_orthogonally(1).is_none());
    assert!(low.shift_orthogonally(-1).is_some());
}

#[test]
fn shift_orthogonally_drops_segments_that_cannot_move() {
    let path = VecPath::new(vec![
        line((0, i32::MIN + 100), (0, i32::MIN)),
        line((0, i32::MIN), (10_000, i32::MIN)),
        line((10_000, i32::MIN), (10_000, i32::MIN + 5_000)),
    ])
    .unwrap();
    let beside = path.shift_orthogonally(2_000).unwrap();
    assert_eq!(
        beside.segments(),
        &[
            line((-2_000, i32::MIN + 100), (-2_000, i32::MIN)),
            line((-2_000, i32::MIN), (12_000, i32::MIN)),
            line((12_000, i32::MIN), (12_000, i32::MIN + 5_000)),
        ][..]
    );
}

#[test]
fn project_picks_the_nearest_candidate() {
    let path = square();
    assert_eq!(path.project_with_tolerance(P2::new(5_000, -30), 100), Some(5_000));
    assert_eq!(path.project_with_tolerance(P2::new(9_990, 40), 100), Some(10_040));
    assert_eq!(path.project_with_tolerance(P2::new(10_040, 10), 100), Some(10_010));
    assert_eq!(path.project_with_tolerance(P2::new(2_000, 9_000), 100), Some(28_000));
    assert_eq!(path.project(P2::new(5_000, -30)), Some(5_000));
    assert_eq!(path.project(P2::new(5_000, -101)), Some(5_000));
    assert_eq!(path.project(P2::new(5_000, -3_000)), Some(5_000));
}

#[test]
fn project_keeps_the_first_of_equal_candidates() {
    let path = square();
    assert_eq!(path.project_with_tolerance(P2::new(10_020, -20), 100), Some(10_000));
    assert_eq!(path.project_with_tolerance(P2::new(0, 0), 0), Some(0));
    assert_eq!(path.project_with_tolerance(P2::new(5_000, 5_000), 100), Some(5_000));
    assert_eq!(path.project_with_tolerance(P2::new(5_000, 5_000), 5_000), Some(5_000));
}

#[test]
fn project_gives_nothing_where_no_foot_is_near_a_segment() {
    let path = square();
    assert_eq!(path.project_with_tolerance(P2::new(-5_000, -5_000), 100), None);
    assert_eq!(path.project_with_tolerance(P2::new(15_000, 15_000), 100), None);
    assert_eq!(path.project_with_tolerance(P2::new(-5_000, -5_000), 5_000), Some(0));
    assert_eq!(corner().project(P2::new(-3_000, -4_000)), None);
}

#[test]
fn distance_to_measures_to_the_projection() {
    let path = corner();
    assert_eq!(path.distance_to(P2::new(5_000, -30)), 30);
    assert_eq!(path.distance_to(P2::new(10_000, 4_000)), 0);
    assert_eq!(path.distance_to(P2::new(5_000, 5_000)), 5_000);
    assert_eq!(path.distance_to(P2::new(5_000, -70_000)), 70_000);
    assert_eq!(path.distance_to(P2::new(13_000, 4_000)), 3_000);
}

#[test]
fn distance_to_a_point_beside_a_straight_path() {
    let path = VecPath::new(vec![line((0, 0), (1_000_000, 0))]).unwrap();
    assert_eq!(path.project(P2::new(500_000, 300_000)), Some(500_000));
    assert_eq!(path.distance_to(P2::new(500_000, 300_000)), 300_000);
    assert_eq!(path.distance_to(P2::new(500_000, -300_000)), 300_000);
    assert_eq!(path.distance_to(P2::new(-100, 400)), 412);
}

#[test]
fn distance_to_measures_to_the_nearer_end_without_a_projection() {
    let path = corner();
    assert_eq!(path.distance_to(P2::new(-3_000, -4_000)), 5_000);
    assert_eq!(path.distance_to(P2::new(13_000, 14_000)), 5_000);
    assert_eq!(path.distance_to(P2::new(-300, -400)), 500);
    let straight = VecPath::new(vec![line((0, 0), (1_000_000, 0))]).unwrap();
    assert_eq!(straight.distance_to(P2::new(-101, 0)), 101);
    assert_eq!(straight.distance_to(P2::new(1_003_000, 4_000)), 5_000);
}

#[test]
fn reverse_swaps_the_ends_and_turns_the_directions() {
    let path = VecPath::new(vec![
        line((0, 0), (3_000, 4_000)),
        line((3_000, 4_000), (3_000, 9_000)),
        line((3_000, 9_000), (-2_000, 9_000)),
    ])
    .unwrap();
    let back = path.reverse();
    assert_eq!(back.segments().len(), 3);
    assert_eq!(back.start(), path.end());
    assert_eq!(back.end(), path.start());
    assert_eq!(path.end_direction(), V2 { x: -1_000_000, y: 0 });
    assert_eq!(back.start_direction(), V2 { x: 1_000_000, y: 0 });
    assert_eq!(path.start_direction(), V2 { x: 600_000, y: 800_000 });
    assert_eq!(back.end_direction(), V2 { x: -600_000, y: -800_000 });
    assert_eq!(back.length(), path.length());
    assert_eq!(back.is_closed(), path.is_closed());
    assert_eq!(square().reverse().is_closed(), square().is_closed());
    assert!(is_continuous(back.segments()));
    assert_eq!(path.segments().len(), 3);
}

#[test]
fn includes_asks_every_segment() {
    let path = corner();
    assert!(path.includes(P2::new(5_000, 50)));
    assert!(path.includes(P2::new(10_050, 5_000)));
    assert!(path.includes(P2::new(10_000, 10_100)));
    assert!(!path.includes(P2::new(5_000, 500)));
    assert!(!path.includes(P2::new(10_000, 10_101)));
}

#[test]
fn segments_come_with_their_start_offsets() {
    let path = square();
    let segments = square_segments();
    assert_eq!(
        path.segments_with_start_offsets(),
        vec![
            (&segments[0], 0),
            (&segments[1], 10_000),
            (&segments[2], 20_000),
            (&segments[3], 30_000),
        ]
    );
}

#[test]
fn scan_segments_moves_the_offset_on() {
    let segment = line((0, 0), (3_000, 4_000));
    let mut state = StartOffsetState(12);
    let pair = VecPath::<LineSegment>::scan_segments(&mut state, &segment);
    assert_eq!(pair, Some((&segment, 12)));
    assert_eq!(state.0, 5_012);
}

#[test]
fn to_svg_strings_the_segments_together() {
    assert_eq!(corner().to_svg(), "M 0 0 L 10000 0M 10000 0 L 10000 10000");
    let single = VecPath::new(vec![line((-5, 7), (2_000, -9))]).unwrap();
    assert_eq!(single.to_svg(), "M -5 7 L 2000 -9");
}

#[test]
fn convex_hull_joins_the_corners_into_a_ring() {
    let points = [
        P2::new(0, 0),
        P2::new(5_000, 5_000),
        P2::new(10_000, 0),
        P2::new(10_000, 10_000),
        P2::new(0, 10_000),
    ];
    let hull: VecPath<LineSegment> = convex_hull(&points, &[0, 2, 3, 4]).ok().unwrap();
    assert_eq!(hull.segments(), &square_segments()[..]);
    assert!(hull.is_closed());
}

#[test]
fn convex_hull_drops_corners_that_are_too_close() {
    let points = [P2::new(0, 0), P2::new(10_000, 0), P2::new(10_000, 50), P2::new(0, 10_000)];
    let hull: VecPath<LineSegment> = convex_hull(&points, &[0, 1, 2, 3]).ok().unwrap();
    assert_eq!(
        hull.segments(),
        &[line((0, 0), (10_000, 0)), line((10_000, 50), (0, 10_000)), line((0, 10_000), (0, 0))][..]
    );
}

#[test]
fn convex_hull_fails_where_a_dropped_pair_leaves_a_gap() {
    let points = [P2::new(0, 0), P2::new(10_000, 0), P2::new(10_000, 500), P2::new(0, 10_000)];
    let hull: Result<VecPath<LineSegment>, PathError> = convex_hull(&points, &[0, 1, 2, 3]);
    assert_eq!(hull.err(), Some(PathError::NotContinuous));
}

#[test]
fn convex_hull_of_one_spot_is_empty() {
    let points = [P2::new(0, 0), P2::new(30, 40), P2::new(0, 0)];
    let hull: Result<VecPath<LineSegment>, PathError> = convex_hull(&points, &[0, 1]);
    assert_eq!(hull.err(), Some(PathError::EmptyPath));
    let hull: Result<VecPath<LineSegment>, PathError> = convex_hull(&points, &[2]);
    assert_eq!(hull.err(), Some(PathError::EmptyPath));
}

#[test]
fn convex_hull_of_two_corners_runs_there_and_back() {
    let points = [P2::new(0, 0), P2::new(10_000, 0)];
    let hull: VecPath<LineSegment> = convex_hull(&points, &[0, 1]).ok().unwrap();
    assert_eq!(hull.segments(), &[line((0, 0), (10_000, 0)), line((10_000, 0), (0, 0))][..]);
}
