use rmr::common::Point;
use rmr::string_maker::{
    chars_of, count_lines, make_curve_string, make_graph_string, make_table_string, push_chars,
    push_decimal, push_plain, push_repeated, push_two_places, string_of,
};

const UNIT: i64 = 1_000_000;

fn two_places(v: i64) -> String {
    let mut s = String::new();
    push_two_places(&mut s, v);
    s
}

fn plain(v: i64) -> String {
    let mut s = String::new();
    push_plain(&mut s, v);
    s
}

fn is_table_string(g: &str) -> bool {
    //Table uses the same upper left and right but no braille
    let empty_braille_char = '⠀';
    let upper_left = '┌';
    let upper_right = '┐';

    !g.contains(empty_braille_char) && g.contains(upper_left) && g.contains(upper_right)
}

#[test]
fn make_table_test() {
    //Given
    let points = vec![
        Point::new(UNIT, UNIT),
        Point::new(2 * UNIT, 2 * UNIT),
        Point::new(3 * UNIT, 3 * UNIT),
    ];

    //When
    let table_string = make_table_string(points);

    //Then
    assert!(is_table_string(&table_string));
}

#[test]
fn table_is_written_row_by_row() {
    let points = vec![Point::new(UNIT, -2_500_000), Point::new(12_345_678, 1_004_999)];
    assert_eq!(
        make_table_string(points),
        "┌─────────────┐ \n\
         │\u{1b}[4m X   │ Y     \u{1b}[0m│\n\
         │\u{1b}[4m1    │ -2.5  \u{1b}[0m│\n\
         │\u{1b}[4m12.35 │ 1     \u{1b}[0m│\n\
         └─────────────┘ "
    );
    assert_eq!(
        make_table_string(Vec::new()),
        "┌─────────────┐ \n│\u{1b}[4m X   │ Y     \u{1b}[0m│\n└─────────────┘ "
    );
}

#[test]
fn scalars_with_two_places() {
    assert_eq!(two_places(2_500_000), "2.50");
    assert_eq!(two_places(-7_500_000), "-7.50");
    assert_eq!(two_places(0), "0.00");
    assert_eq!(two_places(1_234_567), "1.23");
    assert_eq!(two_places(1_235_000), "1.24");
    assert_eq!(two_places(-1_235_000), "-1.24");
    assert_eq!(two_places(1_234_999), "1.23");
    assert_eq!(two_places(999_995_000), "1000.00");
    assert_eq!(two_places(50_000), "0.05");
    assert_eq!(two_places(-1), "-0.00");
    assert_eq!(two_places(i64::MAX), "9223372036854.78");
    assert_eq!(two_places(i64::MIN), "-9223372036854.78");
}

#[test]
fn scalars_with_the_places_they_need() {
    assert_eq!(plain(-2 * UNIT), "-2");
    assert_eq!(plain(2 * UNIT), "2");
    assert_eq!(plain(0), "0");
    assert_eq!(plain(500_000), "0.5");
    assert_eq!(plain(-1_250_000), "-1.25");
    assert_eq!(plain(1), "0.000001");
    assert_eq!(plain(100_010), "0.10001");
    assert_eq!(plain(120 * UNIT), "120");
    assert_eq!(plain(i64::MAX), "9223372036854.775807");
    assert_eq!(plain(i64::MIN), "-9223372036854.775808");
}

#[test]
fn digits_and_repetition() {
    let mut s = String::from("n=");
    push_decimal(&mut s, 0);
    push_decimal(&mut s, 907);
    push_decimal(&mut s, u64::MAX);
    assert_eq!(s, "n=090718446744073709551615");
    let mut s = String::from("a");
    push_repeated(&mut s, '─', 3);
    push_repeated(&mut s, 'x', 0);
    push_chars(&mut s, &vec!['b', '⣿']);
    assert_eq!(s, "a───b⣿");
}

#[test]
fn text_and_characters() {
    assert_eq!(chars_of("a⠀é"), vec!['a', '⠀', 'é']);
    assert_eq!(chars_of(""), Vec::<char>::new());
    assert_eq!(string_of(&vec!['┌', 'x']), "┌x");
    assert_eq!(string_of(&Vec::new()), "");
}

#[test]
fn lines_are_counted() {
    assert_eq!(count_lines(""), 1);
    assert_eq!(count_lines("abc"), 1);
    assert_eq!(count_lines("a\nb\n"), 3);
    assert_eq!(count_lines("\n\n\n"), 4);
}

#[test]
fn graph_in_its_frame() {
    let chars = vec![vec!['a', 'b'], vec!['c', 'd']];
    assert_eq!(
        make_graph_string(chars, -2 * UNIT, 2 * UNIT, -7_500_000, 7_500_000),
        "┌──┐7.50\n│ab│\n│cd│\n└──┘-7.50\n-2 2     "
    );
    let wide = vec![vec!['w'; 5]];
    assert_eq!(
        make_graph_string(wide, 500_000, 1_500_000, 0, UNIT),
        "┌─────┐1.00\n│wwwww│\n└─────┘0.00\n0.5    1.5     "
    );
}

#[test]
fn graph_without_rows() {
    assert_eq!(make_graph_string(Vec::new(), -UNIT, UNIT, 0, 0), "┌┐0.00\n└┘0.00\n-11     ");
    assert_eq!(
        make_graph_string(vec![Vec::new()], -UNIT, UNIT, 0, 0),
        "┌┐0.00\n││\n└┘0.00\n-11     "
    );
}

#[test]
fn curve_in_its_frame() {
    let chars = vec![vec!['a', 'b'], vec!['c', 'd']];
    assert_eq!(
        make_curve_string(chars, 0, 240 * UNIT, 0, 120 * UNIT),
        "\n0 240     \n┌──┐0.00\n│ab│\n│cd│\n└──┘120.00\n"
    );
}
