use match_linestrings::compare::{CompareLineStrings, Options, RATIO_ONE};
use match_linestrings::geometry::Coord;
use match_linestrings::measures::Measures;

fn measures(direction: i32, length: u64, x: i32, y: i32) -> Measures {
    Measures { direction, length, midpoint: Coord { x, y } }
}

// Coordinate units are millimetres here.
fn usual_limits() -> Options {
    Options {
        buffer: 20_000,
        angle_diff_threshold: 10_000_000,
        length_ratio_threshold: 1_100_000,
        midpt_dist_threshold: 15_000,
    }
}

#[test]
fn parallel_lines_one_unit_apart_are_accepted() {
    let main = measures(0, 100_000, 50_000, 0);
    let candidate = measures(0, 100_000, 50_000, 1_000);
    let metrics = CompareLineStrings::new(&main, &candidate);
    assert_eq!(metrics.angle_main, 0);
    assert_eq!(metrics.angle_candidate, 0);
    assert_eq!(metrics.angle_diff, 0);
    assert_eq!(metrics.length_main, 100_000);
    assert_eq!(metrics.length_candidate, 100_000);
    assert_eq!(metrics.length_ratio, Some(1_000_000));
    assert_eq!(metrics.midpt_dist, 1_000);
    assert!(usual_limits().admits(&metrics));
    assert!(usual_limits().accept(&main, &candidate));
}

#[test]
fn a_line_matches_itself() {
    let m = measures(37_000_000, 123_456, -5, 9);
    let metrics = CompareLineStrings::new(&m, &m);
    assert_eq!(metrics.angle_diff, 0);
    assert_eq!(metrics.length_ratio, Some(RATIO_ONE as u128));
    assert_eq!(metrics.midpt_dist, 0);
    let tight = Options {
        buffer: 0,
        angle_diff_threshold: 0,
        length_ratio_threshold: RATIO_ONE,
        midpt_dist_threshold: 0,
    };
    assert!(tight.accept(&m, &m));
}

#[test]
fn a_line_of_no_length_does_not_match_itself() {
    let m = measures(0, 0, 0, 0);
    let metrics = CompareLineStrings::new(&m, &m);
    assert_eq!(metrics.length_ratio, None);
    assert!(!usual_limits().accept(&m, &m));
}

#[test]
fn a_ratio_limit_below_one_accepts_nothing() {
    let m = measures(0, 100, 0, 0);
    let opts = Options { length_ratio_threshold: 500_000, ..usual_limits() };
    assert!(!opts.accept(&m, &m));
}

#[test]
fn the_length_ratio_is_the_longer_by_the_shorter() {
    let metrics = CompareLineStrings::new(&measures(0, 100, 0, 0), &measures(0, 150, 0, 0));
    assert_eq!(metrics.length_ratio, Some(1_500_000));
    let metrics = CompareLineStrings::new(&measures(0, 150, 0, 0), &measures(0, 100, 0, 0));
    assert_eq!(metrics.length_ratio, Some(1_500_000));
}

#[test]
fn the_length_ratio_is_rounded_up() {
    let metrics = CompareLineStrings::new(&measures(0, 100, 0, 0), &measures(0, 3, 0, 0));
    assert_eq!(metrics.length_ratio, Some(33_333_334));
    let metrics = CompareLineStrings::new(&measures(0, 2_000_001, 0, 0), &measures(0, 2_000_000, 0, 0));
    assert_eq!(metrics.length_ratio, Some(1_000_001));
}

#[test]
fn the_length_ratio_of_the_longest_line_does_not_overflow() {
    let metrics = CompareLineStrings::new(&measures(0, u64::MAX, 0, 0), &measures(0, 1, 0, 0));
    assert_eq!(metrics.length_ratio, Some(u64::MAX as u128 * 1_000_000));
}

#[test]
fn there_is_no_length_ratio_with_a_line_of_no_length() {
    let metrics = CompareLineStrings::new(&measures(0, 100, 0, 0), &measures(0, 0, 0, 0));
    assert_eq!(metrics.length_ratio, None);
    assert!(!usual_limits().admits(&metrics));
    let metrics = CompareLineStrings::new(&measures(0, 0, 0, 0), &measures(0, 100, 0, 0));
    assert_eq!(metrics.length_ratio, None);
}

#[test]
fn the_length_ratio_is_never_below_one() {
    for (a, b) in [(1u64, 1u64), (1, 2), (2, 1), (7, 1_000_000), (u64::MAX, u64::MAX - 1)] {
        let metrics = CompareLineStrings::new(&measures(0, a, 0, 0), &measures(0, b, 0, 0));
        assert!(metrics.length_ratio.unwrap() >= RATIO_ONE as u128);
    }
}

#[test]
fn bearings_across_the_seam_are_far_apart() {
    let main = measures(179_000_000, 100, 0, 0);
    let candidate = measures(1_000_000, 100, 0, 0);
    let metrics = CompareLineStrings::new(&main, &candidate);
    assert_eq!(metrics.angle_main, 179_000_000);
    assert_eq!(metrics.angle_candidate, 1_000_000);
    assert_eq!(metrics.angle_diff, 178_000_000);
    assert!(!usual_limits().accept(&main, &candidate));
}

#[test]
fn opposite_directions_have_the_same_bearing() {
    let main = measures(30_000_000, 100, 0, 0);
    let candidate = measures(-150_000_000, 100, 0, 0);
    let metrics = CompareLineStrings::new(&main, &candidate);
    assert_eq!(metrics.angle_main, 30_000_000);
    assert_eq!(metrics.angle_candidate, 30_000_000);
    assert_eq!(metrics.angle_diff, 0);
    assert!(usual_limits().accept(&main, &candidate));
}

#[test]
fn each_limit_is_inclusive() {
    let main = measures(0, 1_000_000, 0, 0);
    let at_the_limits = measures(10_000_000, 1_100_000, 9_000, 12_000);
    let metrics = CompareLineStrings::new(&main, &at_the_limits);
    assert_eq!(metrics.angle_diff, 10_000_000);
    assert_eq!(metrics.length_ratio, Some(1_100_000));
    assert_eq!(metrics.midpt_dist, 15_000);
    assert!(usual_limits().accept(&main, &at_the_limits));
}

#[test]
fn an_angle_beyond_the_limit_is_rejected() {
    let main = measures(0, 1_000_000, 0, 0);
    assert!(!usual_limits().accept(&main, &measures(10_000_001, 1_000_000, 0, 0)));
}

#[test]
fn a_length_ratio_beyond_the_limit_is_rejected() {
    let main = measures(0, 1_000_000, 0, 0);
    assert!(!usual_limits().accept(&main, &measures(0, 1_100_001, 0, 0)));
    assert!(!usual_limits().accept(&measures(0, 1_100_001, 0, 0), &main));
}

#[test]
fn a_ratio_just_above_the_limit_is_not_rounded_away() {
    // 3_300_001 / 3_000_000 is above 1.1 by a third of a millionth.
    let main = measures(0, 3_000_000, 0, 0);
    let candidate = measures(0, 3_300_001, 0, 0);
    assert!(!usual_limits().accept(&main, &candidate));
    assert!(usual_limits().accept(&main, &measures(0, 3_300_000, 0, 0)));
}

#[test]
fn midpoints_beyond_the_limit_are_rejected() {
    let main = measures(0, 1_000_000, 0, 0);
    assert!(!usual_limits().accept(&main, &measures(0, 1_000_000, 9_000, 12_001)));
    // 15_000.00003 units apart: beyond the limit by less than a unit.
    assert!(!usual_limits().accept(&main, &measures(0, 1_000_000, 15_000, 1)));
}

#[test]
fn admits_goes_by_the_metrics_alone() {
    let metrics = CompareLineStrings {
        angle_main: 5,
        angle_candidate: 7,
        angle_diff: 2,
        length_main: 10,
        length_candidate: 10,
        length_ratio: Some(1_000_000),
        midpt_dist: 3,
    };
    let opts = Options {
        buffer: 0,
        angle_diff_threshold: 2,
        length_ratio_threshold: 1_000_000,
        midpt_dist_threshold: 3,
    };
    assert!(opts.admits(&metrics));
    assert!(!Options { angle_diff_threshold: 1, ..opts }.admits(&metrics));
    assert!(!Options { length_ratio_threshold: 999_999, ..opts }.admits(&metrics));
    assert!(!Options { midpt_dist_threshold: 2, ..opts }.admits(&metrics));
    assert!(!opts.admits(&CompareLineStrings { length_ratio: None, ..metrics }));
}
