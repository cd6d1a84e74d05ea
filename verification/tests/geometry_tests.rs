use descartes::geometry::{integer_sqrt, is_roughly_within, rebase};
use descartes::{MIN_START_TO_END, N, P2, THICKNESS};

#[test]
fn constants_keep_their_order() {
    assert_eq!(THICKNESS, 100);
    assert_eq!(MIN_START_TO_END, 1_000);
    assert!(THICKNESS * 3 < MIN_START_TO_END);
}

#[test]
fn squared_distance_is_exact() {
    let a = P2::new(0, 0);
    let b = P2::new(3, -4);
    assert_eq!(a.squared_distance_to(b), 25);
    assert_eq!(b.squared_distance_to(a), 25);
    assert_eq!(a.squared_distance_to(a), 0);
}

#[test]
fn squared_distance_across_the_whole_grid() {
    let low = P2::new(i32::MIN, i32::MIN);
    let high = P2::new(i32::MAX, i32::MAX);
    let side: N = (1 << 32) - 1;
    assert_eq!(low.squared_distance_to(high), 2 * side * side);
}

#[test]
fn distance_rounds_down() {
    let origin = P2::new(0, 0);
    assert_eq!(origin.distance_to(P2::new(3, 4)), 5);
    assert_eq!(origin.distance_to(P2::new(1, 1)), 1);
    assert_eq!(origin.distance_to(P2::new(2, 2)), 2);
    assert_eq!(origin.distance_to(P2::new(0, 0)), 0);
    assert_eq!(origin.distance_to(P2::new(10_000, 10_000)), 14_142);
}

#[test]
fn distance_across_the_whole_grid() {
    let low = P2::new(i32::MIN, i32::MIN);
    let high = P2::new(i32::MAX, i32::MAX);
    assert_eq!(low.distance_to(high), 6_074_000_998);
}

#[test]
fn integer_sqrt_brackets_its_argument() {
    let samples: [N; 8] = [0, 1, 2, 3, 4, 99, 100, 0x1_ffff_ffff_ffff_ffff];
    for n in samples {
        let r = integer_sqrt(n);
        assert!(r * r <= n);
        assert!(n < (r + 1) * (r + 1));
    }
}

#[test]
fn points_within_tolerance_is_inclusive() {
    let a = P2::new(0, 0);
    assert!(a.is_roughly_within(P2::new(100, 0), THICKNESS));
    assert!(!a.is_roughly_within(P2::new(101, 0), THICKNESS));
    assert!(a.is_roughly_within(P2::new(60, 80), THICKNESS));
    assert!(!a.is_roughly_within(P2::new(61, 80), THICKNESS));
}

#[test]
fn points_within_zero_tolerance_means_equal() {
    let a = P2::new(7, -9);
    assert!(a.is_roughly_within(a, 0));
    assert!(!a.is_roughly_within(P2::new(7, -8), 0));
}

#[test]
fn points_within_negative_tolerance_is_never() {
    let a = P2::new(7, -9);
    assert!(!a.is_roughly_within(a, -1));
}

#[test]
fn points_within_huge_tolerance_is_always() {
    let low = P2::new(i32::MIN, i32::MIN);
    let high = P2::new(i32::MAX, i32::MAX);
    assert!(low.is_roughly_within(high, N::MAX));
    assert!(low.is_roughly_within(high, 6_074_000_999));
    assert!(!low.is_roughly_within(high, 6_074_000_998));
}

#[test]
fn scalars_within_tolerance() {
    assert!(is_roughly_within(1_000, 1_100, 100));
    assert!(is_roughly_within(1_100, 1_000, 100));
    assert!(!is_roughly_within(1_000, 1_101, 100));
    assert!(!is_roughly_within(5, 5, -1));
    assert!(is_roughly_within(5, 5, 0));
}

#[test]
fn scalars_within_tolerance_at_the_edges_of_the_range() {
    assert!(is_roughly_within(N::MAX, N::MAX - 100, 100));
    assert!(!is_roughly_within(N::MAX, N::MAX - 101, 100));
    assert!(is_roughly_within(N::MIN, N::MIN + 100, 100));
    assert!(!is_roughly_within(N::MIN, N::MAX, 100));
    assert!(!is_roughly_within(N::MAX, N::MIN, N::MAX));
}

#[test]
fn rebase_subtracts_the_offset() {
    assert_eq!(rebase(15_000, 10_000), 5_000);
    assert_eq!(rebase(0, 10_000), -10_000);
    assert_eq!(rebase(-7, 0), -7);
}

#[test]
fn rebase_holds_at_the_low_end() {
    assert_eq!(rebase(N::MIN, 1), N::MIN);
    assert_eq!(rebase(N::MIN + 5, 10), N::MIN);
    assert_eq!(rebase(N::MIN + 5, 5), N::MIN);
}
