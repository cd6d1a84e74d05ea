use descartes::numeric::{append_decimal, quotient, slide};
use descartes::{Intersection, LineSegment, Segment, P2, THICKNESS, V2};

fn sloped() -> LineSegment {
    LineSegment { start: P2::new(0, 0), end: P2::new(3_000, 4_000) }
}

#[test]
fn line_needs_more_than_the_minimum_span() {
    assert_eq!(LineSegment::line(P2::new(0, 0), P2::new(1_000, 0)), None);
    assert_eq!(LineSegment::line(P2::new(0, 0), P2::new(600, 800)), None);
    assert_eq!(LineSegment::line(P2::new(5, 5), P2::new(5, 5)), None);
    assert_eq!(
        LineSegment::line(P2::new(0, 0), P2::new(1_001, 0)),
        Some(LineSegment { start: P2::new(0, 0), end: P2::new(1_001, 0) })
    );
    assert_eq!(
        LineSegment::line(P2::new(0, 0), P2::new(601, 800)),
        Some(LineSegment { start: P2::new(0, 0), end: P2::new(601, 800) })
    );
}

#[test]
fn line_reports_its_ends_and_length() {
    let line = sloped();
    assert_eq!(line.start(), P2::new(0, 0));
    assert_eq!(line.end(), P2::new(3_000, 4_000));
    assert_eq!(line.length(), 5_000);
    assert!(line.is_linear());
}

#[test]
fn line_length_rounds_down() {
    let line = LineSegment { start: P2::new(0, 0), end: P2::new(10_000, 10_000) };
    assert_eq!(line.length(), 14_142);
}

#[test]
fn line_direction_is_scaled_to_the_unit() {
    let line = sloped();
    assert_eq!(line.start_direction(), V2 { x: 600_000, y: 800_000 });
    assert_eq!(line.end_direction(), V2 { x: 600_000, y: 800_000 });
    assert_eq!(line.direction_along(1_234), V2 { x: 600_000, y: 800_000 });
    assert_eq!(line.reverse().start_direction(), V2 { x: -600_000, y: -800_000 });
}

#[test]
fn line_direction_of_a_point_is_zero() {
    let point = LineSegment { start: P2::new(4, 4), end: P2::new(4, 4) };
    assert_eq!(point.length(), 0);
    assert_eq!(point.start_direction(), V2 { x: 0, y: 0 });
    assert_eq!(point.along(0), P2::new(4, 4));
    assert_eq!(point.along(10), P2::new(4, 4));
}

#[test]
fn line_along_reaches_both_ends() {
    let line = sloped();
    assert_eq!(line.along(0), line.start());
    assert_eq!(line.along(line.length()), line.end());
}

#[test]
fn line_along_interpolates_towards_the_start() {
    let line = sloped();
    assert_eq!(line.along(2_500), P2::new(1_500, 2_000));
    assert_eq!(line.along(1), P2::new(0, 0));
    assert_eq!(line.along(4_999), P2::new(2_999, 3_999));
    let back = line.reverse();
    assert_eq!(back.along(1), P2::new(3_000, 4_000));
    assert_eq!(back.along(2_500), P2::new(1_500, 2_000));
    assert_eq!(back.along(4_999), P2::new(1, 1));
}

#[test]
fn line_along_holds_offsets_to_the_segment() {
    let line = sloped();
    assert_eq!(line.along(-1), line.start());
    assert_eq!(line.along(i128::MIN), line.start());
    assert_eq!(line.along(5_001), line.end());
    assert_eq!(line.along(i128::MAX), line.end());
}

#[test]
fn line_along_across_the_whole_grid() {
    let line = LineSegment {
        start: P2::new(i32::MIN, i32::MAX),
        end: P2::new(i32::MAX, i32::MIN),
    };
    assert_eq!(line.length(), 6_074_000_998);
    assert_eq!(line.along(0), line.start);
    assert_eq!(line.along(line.length()), line.end);
    assert_eq!(line.along(3_037_000_499), P2::new(-1, 0));
}

#[test]
fn line_reverse_swaps_the_ends() {
    let line = sloped();
    let back = line.reverse();
    assert_eq!(back, LineSegment { start: P2::new(3_000, 4_000), end: P2::new(0, 0) });
    assert_eq!(back.length(), line.length());
    assert_eq!(back.reverse(), line);
}

#[test]
fn line_subsection_runs_between_the_sample_points() {
    let line = sloped();
    assert_eq!(
        line.subsection(1_000, 4_000),
        Some(LineSegment { start: P2::new(600, 800), end: P2::new(2_400, 3_200) })
    );
}

#[test]
fn line_subsection_is_cut_back_to_the_segment() {
    let line = sloped();
    assert_eq!(line.subsection(-100, 99_999), Some(line));
    assert_eq!(line.subsection(0, 5_000), Some(line));
    assert_eq!(
        line.subsection(2_500, 99_999),
        Some(LineSegment { start: P2::new(1_500, 2_000), end: P2::new(3_000, 4_000) })
    );
    assert_eq!(line.subsection(i128::MIN, i128::MAX), Some(line));
}

#[test]
fn line_subsection_of_a_short_range_is_nothing() {
    let line = sloped();
    assert_eq!(line.subsection(4_500, 9_000), None);
    assert_eq!(line.subsection(1_000, 1_999), None);
    assert_eq!(line.subsection(5_000, 9_000), None);
    assert_eq!(line.subsection(-500, 0), None);
    assert_eq!(line.subsection(4_000, 1_000), None);
    assert_eq!(line.subsection(i128::MAX, i128::MIN), None);
    assert!(line.subsection(1_000, 2_000).is_some());
}

#[test]
fn line_shift_moves_to_the_right_of_travel() {
    let east = LineSegment { start: P2::new(0, 0), end: P2::new(10_000, 0) };
    assert_eq!(
        east.shift_orthogonally(500),
        Some(LineSegment { start: P2::new(0, -500), end: P2::new(10_000, -500) })
    );
    assert_eq!(
        east.shift_orthogonally(-500),
        Some(LineSegment { start: P2::new(0, 500), end: P2::new(10_000, 500) })
    );
    assert_eq!(
        sloped().shift_orthogonally(1_000),
        Some(LineSegment { start: P2::new(800, -600), end: P2::new(3_800, 3_400) })
    );
    assert_eq!(east.shift_orthogonally(0), Some(east));
}

#[test]
fn line_shift_fails_off_the_grid() {
    let edge = LineSegment { start: P2::new(0, i32::MIN + 10), end: P2::new(10_000, i32::MIN + 10) };
    assert_eq!(edge.shift_orthogonally(11), None);
    assert!(edge.shift_orthogonally(10).is_some());
    assert_eq!(edge.shift_orthogonally(i128::MAX), None);
    assert_eq!(edge.shift_orthogonally(i128::MIN), None);
}

#[test]
fn line_shift_of_a_point_fails() {
    let point = LineSegment { start: P2::new(4, 4), end: P2::new(4, 4) };
    assert_eq!(point.shift_orthogonally(10), None);
}

#[test]
fn line_rough_equality_compares_both_ends() {
    let line = sloped();
    let near = LineSegment { start: P2::new(60, 80), end: P2::new(3_000, 3_900) };
    let far = LineSegment { start: P2::new(0, 0), end: P2::new(3_000, 3_899) };
    assert!(line.is_roughly_within(&line, 0));
    assert!(line.is_roughly_within(&near, THICKNESS));
    assert!(!line.is_roughly_within(&far, THICKNESS));
    assert!(!line.is_roughly_within(&line.reverse(), THICKNESS));
}

#[test]
fn line_projection_is_the_foot_of_the_perpendicular() {
    let east = LineSegment { start: P2::new(0, 0), end: P2::new(10_000, 0) };
    assert_eq!(east.project_with_tolerance(P2::new(2_500, 80), 100), Some(2_500));
    assert_eq!(east.project_with_tolerance(P2::new(2_500, 0), 0), Some(2_500));
    assert_eq!(sloped().project_with_tolerance(P2::new(1_500, 2_000), 0), Some(2_500));
    assert_eq!(sloped().project_with_tolerance(P2::new(-2_500, 5_000), 0), Some(2_500));
}

#[test]
fn line_projection_does_not_ask_how_far_the_point_is() {
    let east = LineSegment { start: P2::new(0, 0), end: P2::new(10_000, 0) };
    assert_eq!(east.project_with_tolerance(P2::new(2_500, 101), 100), Some(2_500));
    assert_eq!(east.project_with_tolerance(P2::new(2_500, 3_000_000), 100), Some(2_500));
    assert_eq!(east.project_with_tolerance(P2::new(2_500, i32::MIN), 0), Some(2_500));
    let long = LineSegment { start: P2::new(0, 0), end: P2::new(1_000_000, 0) };
    assert_eq!(long.project_with_tolerance(P2::new(500_000, 300_000), 100), Some(500_000));
}

#[test]
fn line_projection_is_held_to_the_segment() {
    let east = LineSegment { start: P2::new(0, 0), end: P2::new(10_000, 0) };
    assert_eq!(east.project_with_tolerance(P2::new(-60, 80), 100), Some(0));
    assert_eq!(east.project_with_tolerance(P2::new(-100, 80), 100), Some(0));
    assert_eq!(east.project_with_tolerance(P2::new(10_060, -80), 100), Some(10_000));
    assert_eq!(east.project_with_tolerance(P2::new(10_100, 7_000), 100), Some(10_000));
}

#[test]
fn line_projection_needs_the_foot_near_the_segment() {
    let east = LineSegment { start: P2::new(0, 0), end: P2::new(10_000, 0) };
    assert_eq!(east.project_with_tolerance(P2::new(-101, 0), 100), None);
    assert_eq!(east.project_with_tolerance(P2::new(10_101, 5), 100), None);
    assert_eq!(east.project_with_tolerance(P2::new(-1, 0), 0), None);
    assert_eq!(east.project_with_tolerance(P2::new(10_001, 0), 0), None);
    assert_eq!(east.project_with_tolerance(P2::new(i32::MIN, 0), i128::MAX), Some(0));
    assert_eq!(east.project_with_tolerance(P2::new(i32::MAX, 0), i128::MAX), Some(10_000));
}

#[test]
fn line_projection_with_a_negative_tolerance_stays_off_the_ends() {
    let east = LineSegment { start: P2::new(0, 0), end: P2::new(10_000, 0) };
    assert_eq!(east.project_with_tolerance(P2::new(99, 0), -100), None);
    assert_eq!(east.project_with_tolerance(P2::new(100, 0), -100), Some(100));
    assert_eq!(east.project_with_tolerance(P2::new(9_900, 0), -100), Some(9_900));
    assert_eq!(east.project_with_tolerance(P2::new(9_901, 0), -100), None);
    assert_eq!(east.project_with_tolerance(P2::new(5_000, 0), i128::MIN), None);
}

#[test]
fn line_projection_onto_a_point() {
    let point = LineSegment { start: P2::new(4, 4), end: P2::new(4, 4) };
    assert_eq!(point.project_with_tolerance(P2::new(900, -900), 0), Some(0));
    assert_eq!(point.project_with_tolerance(P2::new(4, 4), -1), None);
}

#[test]
fn line_includes_points_within_the_tolerance() {
    let east = LineSegment { start: P2::new(0, 0), end: P2::new(10_000, 0) };
    assert!(east.includes(P2::new(5_000, 0)));
    assert!(east.includes(P2::new(5_000, 100)));
    assert!(!east.includes(P2::new(5_000, 101)));
    assert!(east.includes(P2::new(-100, 0)));
    assert!(!east.includes(P2::new(-101, 0)));
    assert!(east.includes(P2::new(10_060, 80)));
    assert!(!east.includes(P2::new(10_061, 80)));
}

#[test]
fn line_reverse_turns_the_directions_around() {
    let line = sloped();
    let back = line.reverse();
    let end = line.end_direction();
    let start = line.start_direction();
    assert_eq!(back.start_direction(), V2 { x: -end.x, y: -end.y });
    assert_eq!(back.end_direction(), V2 { x: -start.x, y: -start.y });
    let skew = LineSegment { start: P2::new(-7, 13), end: P2::new(4_321, -1_234) };
    let end = skew.end_direction();
    assert_eq!(skew.reverse().start_direction(), V2 { x: -end.x, y: -end.y });
}

#[test]
fn line_intersect_finds_the_crossing() {
    let rising = LineSegment { start: P2::new(0, 0), end: P2::new(10_000, 10_000) };
    let falling = LineSegment { start: P2::new(10_000, 0), end: P2::new(0, 10_000) };
    assert_eq!(
        rising.intersect(&falling),
        vec![Intersection { position: P2::new(5_000, 5_000), along_a: 7_071, along_b: 7_071 }]
    );
    assert_eq!(
        falling.intersect(&rising),
        vec![Intersection { position: P2::new(5_000, 5_000), along_a: 7_071, along_b: 7_071 }]
    );
}

#[test]
fn line_intersect_measures_along_each_segment() {
    let east = LineSegment { start: P2::new(0, 0), end: P2::new(10_000, 0) };
    let north = LineSegment { start: P2::new(2_000, -1_000), end: P2::new(2_000, 3_000) };
    assert_eq!(
        east.intersect(&north),
        vec![Intersection { position: P2::new(2_000, 0), along_a: 2_000, along_b: 1_000 }]
    );
    assert_eq!(
        north.intersect(&east),
        vec![Intersection { position: P2::new(2_000, 0), along_a: 1_000, along_b: 2_000 }]
    );
}

#[test]
fn line_intersect_misses_apart_and_parallel_segments() {
    let east = LineSegment { start: P2::new(0, 0), end: P2::new(10_000, 0) };
    let above = LineSegment { start: P2::new(0, 500), end: P2::new(10_000, 500) };
    let beside = LineSegment { start: P2::new(12_000, -1_000), end: P2::new(12_000, 3_000) };
    let short = LineSegment { start: P2::new(2_000, 1), end: P2::new(2_000, 3_000) };
    assert_eq!(east.intersect(&above), vec![]);
    assert_eq!(east.intersect(&east), vec![]);
    assert_eq!(east.intersect(&beside), vec![]);
    assert_eq!(east.intersect(&short), vec![]);
}

#[test]
fn line_intersect_reports_a_shared_end() {
    let east = LineSegment { start: P2::new(0, 0), end: P2::new(10_000, 0) };
    let north = LineSegment { start: P2::new(10_000, 0), end: P2::new(10_000, 10_000) };
    assert_eq!(
        east.intersect(&north),
        vec![Intersection { position: P2::new(10_000, 0), along_a: 10_000, along_b: 0 }]
    );
}

#[test]
fn line_arc_exists_only_straight_ahead() {
    let start = P2::new(0, 0);
    let end = P2::new(3_000, 4_000);
    assert_eq!(
        LineSegment::arc_with_direction(start, V2 { x: 600_000, y: 800_000 }, end),
        Some(sloped())
    );
    assert_eq!(LineSegment::arc_with_direction(start, V2 { x: 3, y: 4 }, end), Some(sloped()));
    assert_eq!(LineSegment::arc_with_direction(start, V2 { x: -3, y: -4 }, end), None);
    assert_eq!(LineSegment::arc_with_direction(start, V2 { x: 1, y: 0 }, end), None);
    assert_eq!(LineSegment::arc_with_direction(start, V2 { x: 0, y: 0 }, end), None);
    assert_eq!(
        LineSegment::arc_with_direction(start, V2 { x: 3, y: 4 }, P2::new(600, 800)),
        None
    );
    assert_eq!(
        LineSegment::arc_with_direction(start, V2 { x: i64::MAX, y: i64::MIN }, end),
        None
    );
}

#[test]
fn line_to_svg_moves_and_draws() {
    assert_eq!(sloped().to_svg(), "M 0 0 L 3000 4000");
    let line = LineSegment { start: P2::new(-15, 7), end: P2::new(1_200, -340) };
    assert_eq!(line.to_svg(), "M -15 7 L 1200 -340");
    let wide = LineSegment { start: P2::new(i32::MIN, i32::MAX), end: P2::new(0, 10) };
    assert_eq!(wide.to_svg(), "M -2147483648 2147483647 L 0 10");
}

#[test]
fn decimal_text_of_integers() {
    let mut text = String::from("x=");
    append_decimal(&mut text, 0);
    append_decimal(&mut text, -1);
    append_decimal(&mut text, 1_050);
    assert_eq!(text, "x=0-11050");
}

#[test]
fn quotient_rounds_towards_zero() {
    assert_eq!(quotient(7, 2), 3);
    assert_eq!(quotient(-7, 2), -3);
    assert_eq!(quotient(6, 3), 2);
    assert_eq!(quotient(-1, 5), 0);
    assert_eq!(quotient(0, 5), 0);
}

#[test]
fn slide_interpolates_between_coordinates() {
    assert_eq!(slide(0, 10, 0, 4), 0);
    assert_eq!(slide(0, 10, 1, 4), 2);
    assert_eq!(slide(0, 10, 4, 4), 10);
    assert_eq!(slide(10, 0, 1, 4), 8);
    assert_eq!(slide(i32::MIN, i32::MAX, 1, 2), -1);
    assert_eq!(slide(i32::MAX, i32::MIN, 1, 2), 0);
}
