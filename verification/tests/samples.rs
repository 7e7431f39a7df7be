use rmr::common::{GraphOptions, Point};
use rmr::samples::{get_window, get_y_max, get_y_min, sanitize, Sample};

const UNIT: i64 = 1_000_000;

fn sample(x: i64, y: i64) -> Sample {
    Sample { x: Some(x * UNIT), y: Some(y * UNIT) }
}

fn options() -> GraphOptions {
    GraphOptions { y_min: -7 * UNIT, y_max: 7 * UNIT, width: 240, height: 120 }
}

#[test]
fn y_min_test() {
    //Given
    let points = vec![sample(1, 1), sample(2, 2), sample(3, 3)];

    //When
    let min = get_y_min(&points);

    //Then
    assert_eq!(UNIT, min);
}

#[test]
fn y_max_test() {
    //Given
    let points = vec![sample(1, 1), sample(2, 2), sample(3, 3)];

    //When
    let max = get_y_max(&points);

    //Then
    assert_eq!(3 * UNIT, max);
}

#[test]
fn extremes_pass_over_missing_values() {
    let points = vec![
        Sample { x: Some(0), y: None },
        Sample { x: None, y: Some(-4) },
        Sample { x: Some(2), y: Some(9) },
    ];
    assert_eq!(get_y_min(&points), -4);
    assert_eq!(get_y_max(&points), 9);
    assert_eq!(get_y_min(&Vec::new()), i64::MAX);
    assert_eq!(get_y_max(&Vec::new()), i64::MIN);
    let none = vec![Sample { x: Some(0), y: None }];
    assert_eq!(get_y_min(&none), i64::MAX);
    assert_eq!(get_y_max(&none), i64::MIN);
}

#[test]
fn sample_that_lacks_a_coordinate_becomes_the_origin() {
    let points = vec![
        Sample { x: Some(1), y: Some(2) },
        Sample { x: None, y: Some(3) },
        Sample { x: Some(4), y: None },
        Sample { x: None, y: None },
    ];
    assert_eq!(
        sanitize(&points),
        vec![Point::new(1, 2), Point::new(0, 0), Point::new(0, 0), Point::new(0, 0)]
    );
}

#[test]
fn window_follows_curves_that_are_close() {
    let curve = vec![sample(0, -2), sample(1, 2)];
    assert_eq!(get_window(&options(), &vec![curve]), (-2_500_000, 2_500_000));
}

#[test]
fn window_keeps_its_end_where_the_curve_is_far() {
    let curve = vec![sample(0, -60), sample(1, 57)];
    // 57 is just 50 from 7 and is not taken; -60 is 53 from -7.
    assert_eq!(get_window(&options(), &vec![curve]), (-7_500_000, 7_500_000));
    let near = vec![
        Sample { x: Some(0), y: Some(-57 * UNIT + 1) },
        Sample { x: Some(1), y: Some(57 * UNIT - 1) },
    ];
    assert_eq!(
        get_window(&options(), &vec![near]),
        (-57 * UNIT + 1 - 500_000, 57 * UNIT - 1 + 500_000)
    );
}

#[test]
fn window_is_the_widest_over_all_curves() {
    let first = vec![sample(0, -1), sample(1, 1)];
    let second = vec![sample(0, -3), sample(1, 0)];
    assert_eq!(get_window(&options(), &vec![first, second]), (-3_500_000, 1_500_000));
    // The ends move with each curve: 40 is close to 7, and 80 is close to 40.
    let third = vec![sample(0, 40)];
    let fourth = vec![sample(0, 80)];
    assert_eq!(get_window(&options(), &vec![third, fourth]), (39_500_000, 80_500_000));
}

#[test]
fn window_without_curves() {
    assert_eq!(get_window(&options(), &Vec::new()), (i64::MAX - 500_000, i64::MIN + 500_000));
}

#[test]
fn window_at_the_end_of_the_range() {
    let go = GraphOptions { y_min: i64::MIN, y_max: i64::MAX, width: 4, height: 4 };
    let curve = vec![Sample { x: Some(0), y: Some(0) }];
    assert_eq!(get_window(&go, &vec![curve]), (i64::MIN, i64::MAX));
}
