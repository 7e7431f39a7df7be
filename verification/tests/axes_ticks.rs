use rmr::common::{make_cell_matrix, make_matrix, Cell, GraphOptions};
use rmr::graphing::{check_add_tick_marks, check_add_x_axis, check_add_y_axis, x_y_axis_setup};

const UNIT: i64 = 1_000_000;

fn lit_cells(matrix: &Vec<Vec<Cell>>) -> Vec<(usize, usize)> {
    let mut cells = Vec::new();
    for (r, row) in matrix.iter().enumerate() {
        for (c, cell) in row.iter().enumerate() {
            if cell.value {
                cells.push((r, c));
            }
        }
    }
    cells
}

#[test]
fn axis_in_the_middle_of_a_balanced_window() {
    assert_eq!(x_y_axis_setup(-5 * UNIT, 5 * UNIT, 240), (true, 120));
    assert_eq!(x_y_axis_setup(-5 * UNIT, 5 * UNIT, 81), (true, 41));
    assert_eq!(x_y_axis_setup(-5 * UNIT, 5 * UNIT, 0), (true, 0));
}

#[test]
fn axis_out_of_view() {
    assert_eq!(x_y_axis_setup(UNIT, 5 * UNIT, 240), (false, 60));
    assert!(!x_y_axis_setup(0, 5 * UNIT, 240).0);
    assert!(!x_y_axis_setup(-5 * UNIT, 0, 240).0);
    assert_eq!(x_y_axis_setup(-5 * UNIT, -UNIT, 240), (false, 300));
    assert_eq!(x_y_axis_setup(3, 3, 240), (false, 0));
    assert_eq!(x_y_axis_setup(5, -5, 240), (false, 0));
}

#[test]
fn axis_location_is_rounded() {
    // 1 / 4 of 10 is 2.5, which rounds up; 1 / 3 of 10 is 3.33.
    assert_eq!(x_y_axis_setup(-1, 3, 10), (true, 3));
    assert_eq!(x_y_axis_setup(-1, 2, 10), (true, 3));
    assert_eq!(x_y_axis_setup(-2, 1, 10), (true, 7));
    assert_eq!(x_y_axis_setup(i64::MIN, i64::MAX, 65_535), (true, 32_768));
}

#[test]
fn horizontal_axis_lights_its_row() {
    let mut m = make_matrix(5, 3);
    check_add_x_axis(-UNIT, UNIT, 4, &mut m);
    assert_eq!(lit_cells(&m), vec![(2, 0), (2, 1), (2, 2)]);
    let mut m = make_matrix(5, 3);
    check_add_x_axis(UNIT, 2 * UNIT, 4, &mut m);
    assert!(lit_cells(&m).is_empty());
    let mut m = make_matrix(2, 3);
    check_add_x_axis(-UNIT, UNIT, 4, &mut m);
    assert!(lit_cells(&m).is_empty());
}

#[test]
fn vertical_axis_lights_its_column() {
    let mut m = make_matrix(3, 5);
    check_add_y_axis(-UNIT, 3 * UNIT, 4, &mut m);
    assert_eq!(lit_cells(&m), vec![(0, 1), (1, 1), (2, 1)]);
    let mut m = make_matrix(3, 5);
    check_add_y_axis(-3 * UNIT, -UNIT, 4, &mut m);
    assert!(lit_cells(&m).is_empty());
    let mut m = vec![vec![Cell::new(); 1], vec![Cell::new(); 3]];
    check_add_y_axis(-UNIT, UNIT, 4, &mut m);
    assert_eq!(lit_cells(&m), vec![(1, 2)]);
}

#[test]
fn tick_marks_where_whole_numbers_meet() {
    let go = GraphOptions { y_min: 0, y_max: 0, width: 8, height: 4 };
    let mut m = make_cell_matrix(&go);
    check_add_tick_marks(&mut m, -2 * UNIT, 2 * UNIT, -UNIT, UNIT, &go);
    let mut expected = Vec::new();
    for r in [0, 2, 4] {
        for c in [0, 2, 4, 6, 8] {
            expected.push((r, c));
        }
    }
    assert_eq!(lit_cells(&m), expected);
}

#[test]
fn tick_marks_of_a_window_between_whole_numbers() {
    let go = GraphOptions { y_min: 0, y_max: 0, width: 10, height: 10 };
    let mut m = make_cell_matrix(&go);
    // x from -0.5 to 1.5 holds 0 and 1, at a quarter and three quarters;
    // y from 0.25 to 1.25 holds 1, at three quarters.
    check_add_tick_marks(&mut m, -500_000, 1_500_000, 250_000, 1_250_000, &go);
    assert_eq!(lit_cells(&m), vec![(8, 3), (8, 8)]);
    let mut none = make_cell_matrix(&go);
    check_add_tick_marks(&mut none, 100_000, 900_000, -UNIT, UNIT, &go);
    assert!(lit_cells(&none).is_empty());
}

#[test]
fn too_many_tick_marks_are_left_out() {
    let go = GraphOptions { y_min: 0, y_max: 0, width: 80, height: 40 };
    let mut m = make_cell_matrix(&go);
    check_add_tick_marks(&mut m, -1000 * UNIT, 1000 * UNIT, -1000 * UNIT, 1000 * UNIT, &go);
    assert!(lit_cells(&m).is_empty());
}

#[test]
fn cap_on_tick_marks_follows_the_width() {
    // 9 by 9 tick marks are 81: one more than a narrow picture takes.
    let narrow = GraphOptions { y_min: 0, y_max: 0, width: 75, height: 40 };
    let mut m = make_cell_matrix(&narrow);
    check_add_tick_marks(&mut m, -4 * UNIT, 4 * UNIT, -4 * UNIT, 4 * UNIT, &narrow);
    assert!(lit_cells(&m).is_empty());
    let mut m = make_cell_matrix(&narrow);
    check_add_tick_marks(&mut m, -4 * UNIT, 4 * UNIT, -4 * UNIT, 3_900_000, &narrow);
    assert_eq!(lit_cells(&m).len(), 72);
    let medium = GraphOptions { y_min: 0, y_max: 0, width: 76, height: 40 };
    let mut m = make_cell_matrix(&medium);
    check_add_tick_marks(&mut m, -4 * UNIT, 4 * UNIT, -4 * UNIT, 4 * UNIT, &medium);
    assert_eq!(lit_cells(&m).len(), 81);
    // 13 by 13 are 169, 18 by 17 are 306, 21 by 20 are 420.
    let mut m = make_cell_matrix(&medium);
    check_add_tick_marks(&mut m, -6 * UNIT, 6 * UNIT, -6 * UNIT, 6 * UNIT, &medium);
    assert!(lit_cells(&m).is_empty());
    let large = GraphOptions { y_min: 0, y_max: 0, width: 151, height: 40 };
    let mut m = make_cell_matrix(&large);
    check_add_tick_marks(&mut m, -6 * UNIT, 6 * UNIT, -6 * UNIT, 6 * UNIT, &large);
    assert_eq!(lit_cells(&m).len(), 169);
    let mut m = make_cell_matrix(&large);
    check_add_tick_marks(&mut m, 0, 17 * UNIT, 0, 16 * UNIT, &large);
    assert!(lit_cells(&m).is_empty());
    let wide = GraphOptions { y_min: 0, y_max: 0, width: 301, height: 40 };
    let mut m = make_cell_matrix(&wide);
    check_add_tick_marks(&mut m, 0, 17 * UNIT, 0, 16 * UNIT, &wide);
    assert_eq!(lit_cells(&m).len(), 306);
    let mut m = make_cell_matrix(&wide);
    check_add_tick_marks(&mut m, 0, 20 * UNIT, 0, 19 * UNIT, &wide);
    assert!(lit_cells(&m).is_empty());
}

#[test]
fn tick_marks_without_cells_do_not_count() {
    let go = GraphOptions { y_min: 0, y_max: 0, width: 75, height: 40 };
    // The matrix has one row only: of 81 tick marks 9 have a cell.
    let mut m = make_matrix(1, 76);
    check_add_tick_marks(&mut m, -4 * UNIT, 4 * UNIT, -4 * UNIT, 4 * UNIT, &go);
    assert_eq!(lit_cells(&m).len(), 9);
}
