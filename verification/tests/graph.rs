use rmr::common::GraphOptions;
use rmr::graph::{graph, x_step_fraction, GraphError};
use rmr::samples::Sample;

const UNIT: i64 = 1_000_000;

fn get_graph_options() -> GraphOptions {
    GraphOptions { y_max: 7 * UNIT, y_min: -7 * UNIT, width: 240, height: 120 }
}

fn scalar(v: f64) -> Option<i64> {
    if v.is_nan() {
        None
    } else {
        Some((v * UNIT as f64).round() as i64)
    }
}

fn sample_curve(f: fn(f64) -> f64, x_min: f64, x_max: f64, go: &GraphOptions) -> Vec<Sample> {
    let (num, den) = x_step_fraction(go);
    let step = (x_max - x_min) * num as f64 / den as f64;
    let mut samples = Vec::new();
    let mut k = 0u64;
    loop {
        let x = x_min + step * k as f64;
        if x > x_max {
            break;
        }
        samples.push(Sample { x: scalar(x), y: scalar(f(x)) });
        k += 1;
    }
    samples
}

fn is_graph_string(g: &str) -> bool {
    let empty_braille_char = '⠀';
    let upper_left = '┌';
    let upper_right = '┐';

    g.contains(empty_braille_char) && g.contains(upper_left) && g.contains(upper_right)
}

fn picture_rows(g: &str) -> Vec<Vec<char>> {
    g.lines()
        .filter(|l| l.starts_with('│'))
        .map(|l| l.chars().skip(1).take_while(|c| *c != '│').collect())
        .collect()
}

#[test]
fn line_through_the_origin() {
    let go = get_graph_options();
    let curve = sample_curve(|x| x, -2.0, 2.0, &go);
    let g = graph(&vec![curve], -2 * UNIT, 2 * UNIT, &go).unwrap();
    assert!(g.contains('┌'));
    assert!(g.chars().any(|c| ('\u{2801}'..='\u{28FF}').contains(&c)));
    let rows = picture_rows(&g);
    assert_eq!(rows.len(), 30);
    // The vertical axis is column 120 of the grid, the left half of block 60.
    for row in &rows {
        assert_eq!(row.len(), 120);
        let bits = row[60] as u32 - 0x2800;
        assert_eq!(bits & 0b0100_0111, 0b0100_0111);
    }
    assert!(g.starts_with(&format!("┌{}┐2.50\n", "─".repeat(120))));
    assert!(g.ends_with(&format!("└{}┘-2.50\n-2{}2     ", "─".repeat(120), " ".repeat(119))));
}

#[test]
fn graph_test() {
    //Given
    let x_min = -5f64;
    let x_max = 5f64;

    let go = get_graph_options();
    let curve = sample_curve(|x| x.tan(), x_min, x_max, &go);

    //When
    let g = graph(&vec![curve], -5 * UNIT, 5 * UNIT, &go);

    //Then
    assert!(g.is_ok());
    assert!(is_graph_string(&g.unwrap()));
}

#[test]
fn graph_multiple_equations() {
    let go = get_graph_options();
    let first = sample_curve(|x| x, -2.0, 2.0, &go);
    let second = sample_curve(|x| 2.0 * x, -2.0, 2.0, &go);

    let g = graph(&vec![first, second], -2 * UNIT, 2 * UNIT, &go);

    assert!(g.is_ok());
    assert!(is_graph_string(&g.unwrap()));
}

#[test]
fn graph_three_equations() {
    let go = get_graph_options();
    let curves = vec![
        sample_curve(|x| x, -1.0, 1.0, &go),
        sample_curve(|x| x * x, -1.0, 1.0, &go),
        sample_curve(|x| x * x * x, -1.0, 1.0, &go),
    ];

    let g = graph(&curves, -UNIT, UNIT, &go);

    assert!(g.is_ok());
    assert!(is_graph_string(&g.unwrap()));
}

#[test]
fn window_without_extent_is_refused() {
    let go = get_graph_options();
    let curve = sample_curve(|x| x, -2.0, 2.0, &go);
    assert_eq!(
        graph(&vec![curve.clone()], -2 * UNIT, -3 * UNIT, &go),
        Err(GraphError::DegenerateViewport { x_min: -2 * UNIT, x_max: -3 * UNIT })
    );
    assert_eq!(
        graph(&vec![curve], UNIT, UNIT, &go),
        Err(GraphError::DegenerateViewport { x_min: UNIT, x_max: UNIT })
    );
}

#[test]
fn sample_that_is_not_a_number_is_plotted_at_the_origin() {
    let go = get_graph_options();
    let mut curve = sample_curve(|x| x, -2.0, 2.0, &go);
    let clean = graph(&vec![curve.clone()], -2 * UNIT, 2 * UNIT, &go).unwrap();
    assert!(clean.starts_with(&format!("┌{}┐2.50\n", "─".repeat(120))));
    curve[100] = Sample { x: None, y: Some(3 * UNIT) };
    let g = graph(&vec![curve], -2 * UNIT, 2 * UNIT, &go);
    assert!(g.is_ok());
    let g = g.unwrap();
    assert!(is_graph_string(&g));
    // The value of the bad sample still widens the window, and the sample
    // itself is drawn at the height of zero.
    assert!(g.starts_with(&format!("┌{}┐3.50\n", "─".repeat(120))));
    assert_ne!(g, clean);
}

fn is_lit(rows: &Vec<Vec<char>>, row: usize, col: usize) -> bool {
    let bits = rows[row / 4][col / 2] as u32 - 0x2800;
    let dot = if row % 4 < 3 { 3 * (col % 2) + row % 4 } else { 6 + col % 2 };
    bits >> dot & 1 == 1
}

#[test]
fn wide_window_takes_no_tick_marks() {
    let go = GraphOptions { y_max: 1000 * UNIT, y_min: -1000 * UNIT, width: 80, height: 40 };
    let curve = sample_curve(|x| x, -1000.0, 1000.0, &go);
    let g = graph(&vec![curve], -1000 * UNIT, 1000 * UNIT, &go).unwrap();
    assert!(g.starts_with(&format!("┌{}┐1000.50\n", "─".repeat(40))));
    let rows = picture_rows(&g);
    assert_eq!(rows.len(), 10);
    let mut lit = 0;
    for row in 0..40usize {
        for col in 0..80usize {
            if is_lit(&rows, row, col) {
                lit += 1;
                // Row 20 and column 40 are the axes; the curve falls one row
                // for every two columns.
                let on_curve = (2 * row as i64 + col as i64 - 80).abs() <= 2;
                assert!(row == 20 || col == 40 || on_curve, "({row}, {col})");
            }
        }
    }
    assert!(lit >= 80 + 40 - 1);
    // Seen closer, the same picture has tick marks away from curve and axes.
    let near = sample_curve(|x| x, -4.0, 4.0, &go);
    let close = GraphOptions { y_max: 4 * UNIT, y_min: -4 * UNIT, ..go };
    let g = graph(&vec![near], -4 * UNIT, 4 * UNIT, &close).unwrap();
    let rows = picture_rows(&g);
    // The tick mark of x = -4 and y = 4: the window is 4.5 high, so y = 4
    // lies 2 rows below the top.
    assert!(is_lit(&rows, 2, 0));
    assert!(!is_lit(&rows, 3, 0));
    assert!(!is_lit(&rows, 2, 1));
}

#[test]
fn graph_without_curves_shows_axes_only() {
    let go = GraphOptions { y_max: 7 * UNIT, y_min: -7 * UNIT, width: 8, height: 8 };
    let g = graph(&Vec::new(), -UNIT, UNIT, &go).unwrap();
    let rows = picture_rows(&g);
    assert_eq!(rows.len(), 2);
    assert_eq!(rows[0].len(), 4);
}

#[test]
fn step_between_samples() {
    let go = get_graph_options();
    assert_eq!(x_step_fraction(&go), (16, 57_600));
}
