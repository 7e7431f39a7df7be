use rmr::bezier_curve::{
    add_control_point_markers, cubic_bezier, interpolate, quadratic_bezier, render_curve, to_cell,
};
use rmr::common::{GraphOptions, Point};

const UNIT: i64 = 1_000_000;

fn get_graph_options() -> GraphOptions {
    GraphOptions { y_max: 7 * UNIT, y_min: -7 * UNIT, width: 240, height: 120 }
}

fn at(x: i64, y: i64) -> Point {
    Point::new(x * UNIT, y * UNIT)
}

fn picture_rows(g: &str) -> Vec<Vec<char>> {
    g.lines()
        .filter(|l| l.starts_with('│'))
        .map(|l| l.chars().skip(1).take_while(|c| *c != '│').collect())
        .collect()
}

fn is_lit(rows: &Vec<Vec<char>>, row: usize, col: usize) -> bool {
    let bits = rows[row / 4][col / 2] as u32 - 0x2800;
    let dot = if row % 4 < 3 { 3 * (col % 2) + row % 4 } else { 6 + col % 2 };
    bits >> dot & 1 == 1
}

#[test]
fn quadratic_bezier_renders() {
    //Given
    let go = get_graph_options();

    let p1 = at(10, 10);
    let p2 = at(50, 80);
    let p3 = at(90, 10);

    //When
    let out = quadratic_bezier(p1, p2, p3, &go);

    //Then - should produce output
    assert!(!out.is_empty());
}

#[test]
fn cubic_bezier_renders() {
    //Given
    let go = get_graph_options();

    let p1 = at(10, 10);
    let p2 = at(30, 80);
    let p3 = at(70, 80);
    let p4 = at(90, 10);

    //When
    let out = cubic_bezier(p1, p2, p3, p4, &go);

    //Then
    assert!(!out.is_empty());
}

#[test]
fn interpolation_hits_both_ends() {
    assert_eq!(interpolate(3 * UNIT, 11 * UNIT, 0), 3 * UNIT);
    assert_eq!(interpolate(3 * UNIT, 11 * UNIT, 1000), 11 * UNIT);
    assert_eq!(interpolate(11 * UNIT, 3 * UNIT, 0), 11 * UNIT);
    assert_eq!(interpolate(11 * UNIT, 3 * UNIT, 1000), 3 * UNIT);
    assert_eq!(interpolate(i64::MIN, i64::MAX, 1000), i64::MAX);
    assert_eq!(interpolate(i64::MAX, i64::MIN, 1000), i64::MIN);
    assert_eq!(interpolate(i64::MAX, i64::MIN, 0), i64::MAX);
}

#[test]
fn interpolation_is_linear() {
    assert_eq!(interpolate(0, 10 * UNIT, 500), 5 * UNIT);
    assert_eq!(interpolate(0, 10 * UNIT, 1), 10_000);
    assert_eq!(interpolate(-4 * UNIT, 4 * UNIT, 250), -2 * UNIT);
    // A step that is no whole number of millionths is rounded down.
    assert_eq!(interpolate(0, 10, 1), 0);
    assert_eq!(interpolate(0, 10, 999), 9);
    assert_eq!(interpolate(10, 0, 1), 9);
    assert_eq!(interpolate(0, -10, 1), -1);
}

#[test]
fn curve_passes_through_its_ends_and_its_middle() {
    let go = get_graph_options();
    let rows = picture_rows(&quadratic_bezier(at(10, 10), at(50, 80), at(90, 10), &go));
    assert_eq!(rows.len(), 30);
    assert!(is_lit(&rows, 10, 10));
    assert!(is_lit(&rows, 10, 90));
    // At one half the curve is at a quarter of each end and a half of the
    // control point: (50, 45).
    assert!(is_lit(&rows, 45, 50));
    // The control point and its four markers.
    assert!(is_lit(&rows, 80, 50));
    assert!(is_lit(&rows, 79, 49));
    assert!(is_lit(&rows, 79, 51));
    assert!(is_lit(&rows, 81, 49));
    assert!(is_lit(&rows, 81, 51));
    assert!(!is_lit(&rows, 80, 49));
    assert!(!is_lit(&rows, 60, 50));
}

#[test]
fn cubic_curve_passes_through_its_ends_and_its_middle() {
    let go = get_graph_options();
    let rows = picture_rows(&cubic_bezier(at(10, 10), at(30, 80), at(70, 80), at(90, 10), &go));
    assert!(is_lit(&rows, 10, 10));
    assert!(is_lit(&rows, 10, 90));
    // At one half: an eighth of each end and three eighths of each control
    // point, (50, 62.5).
    assert!(is_lit(&rows, 62, 50));
    assert!(is_lit(&rows, 80, 30));
    assert!(is_lit(&rows, 80, 70));
    assert!(is_lit(&rows, 81, 71));
}

#[test]
fn curve_of_one_point() {
    let go = GraphOptions { y_min: 0, y_max: 0, width: 2, height: 4 };
    assert_eq!(
        quadratic_bezier(at(1, 1), at(1, 1), at(1, 1), &go),
        "\n02     \n┌─┐0.00\n│⠽│\n└─┘4.00\n"
    );
}

#[test]
fn markers_stay_on_the_picture() {
    let mut points = vec![at(5, 5)];
    add_control_point_markers(&mut points, &vec![at(0, 0), at(9, 3)], 10, 4);
    assert_eq!(
        points,
        vec![
            at(5, 5),
            at(0, 0),
            at(0, 1),
            at(1, 0),
            at(1, 1),
            at(0, 0),
            at(8, 2),
            at(8, 3),
            at(9, 2),
            at(9, 3),
            at(9, 3),
        ]
    );
    let mut none = Vec::new();
    add_control_point_markers(&mut none, &Vec::new(), 10, 4);
    assert!(none.is_empty());
    let mut far = Vec::new();
    add_control_point_markers(&mut far, &vec![Point::new(i64::MAX, i64::MIN)], 1, 1);
    assert_eq!(
        far,
        vec![at(0, 0), at(0, 0), at(0, 0), at(0, 0), Point::new(i64::MAX, i64::MIN)]
    );
}

#[test]
fn cell_of_a_coordinate() {
    assert_eq!(to_cell(0), 0);
    assert_eq!(to_cell(999_999), 0);
    assert_eq!(to_cell(UNIT), 1);
    assert_eq!(to_cell(62_500_000), 62);
    assert_eq!(to_cell(-1), 0);
    assert_eq!(to_cell(i64::MIN), 0);
    assert_eq!(to_cell(i64::MAX), 9_223_372_036_854);
}

#[test]
fn points_outside_the_picture_are_passed_over() {
    let go = GraphOptions { y_min: 0, y_max: 0, width: 2, height: 4 };
    assert_eq!(
        render_curve(vec![at(3, 0), at(0, 5), at(-1, -1)], &go),
        "\n02     \n┌─┐0.00\n│⠁│\n└─┘4.00\n"
    );
    assert_eq!(render_curve(Vec::new(), &go), "\n02     \n┌─┐0.00\n│⠀│\n└─┘4.00\n");
}
