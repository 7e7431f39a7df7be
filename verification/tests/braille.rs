use rmr::braille::{decode_braille, get_braille};
use rmr::common::{make_matrix, Cell, GraphOptions};

fn options(width: usize, height: usize) -> GraphOptions {
    GraphOptions { y_min: -7_000_000, y_max: 7_000_000, width, height }
}

fn block_of(pattern: u8) -> Vec<Vec<Cell>> {
    let order = [(0, 0), (1, 0), (2, 0), (0, 1), (1, 1), (2, 1), (3, 0), (3, 1)];
    let mut block = make_matrix(4, 2);
    for (k, (r, c)) in order.iter().enumerate() {
        block[*r][*c].value = (pattern >> k) & 1 == 1;
    }
    block
}

#[test]
fn every_pattern_survives_the_round_trip() {
    for pattern in 0..=255u8 {
        let mut block = block_of(pattern);
        let chars = get_braille(&options(2, 4), &mut block);
        assert_eq!(chars.len(), 1);
        assert_eq!(chars[0].len(), 1);
        assert_eq!(chars[0][0] as u32, 0x2800 + pattern as u32);
        assert_eq!(decode_braille(chars[0][0]), Some(pattern));
    }
}

#[test]
fn encoder_marks_every_cell() {
    let mut block = block_of(0b1010_0101);
    let _ = get_braille(&options(2, 4), &mut block);
    assert!(block.iter().all(|row| row.iter().all(|cell| cell.visited)));
}

fn grid(rows: &[&str]) -> Vec<Vec<Cell>> {
    rows.iter()
        .map(|row| row.chars().map(|c| Cell { value: c == '#', visited: false }).collect())
        .collect()
}

#[test]
fn picture_of_the_usual_size() {
    // Five rows of five cells for a picture 4 wide and 4 high: the fifth
    // row and the fifth column give no character.
    let mut m = grid(&["#...#", ".#..#", "..#.#", "...##", "#####"]);
    let chars = get_braille(&options(4, 4), &mut m);
    assert_eq!(chars, vec![vec!['\u{2811}', '\u{2884}']]);
    assert!(m.iter().all(|row| row.iter().all(|cell| cell.visited)));
    assert!(m[4][4].value);
}

#[test]
fn blocks_cut_by_the_edge_use_the_lowest_bits() {
    // Three rows of three cells: the second block has one column, and no
    // block has a fourth row.
    let mut m = grid(&["#.#", ".#.", "#.#"]);
    let chars = get_braille(&options(4, 4), &mut m);
    assert_eq!(chars, vec![vec!['\u{2815}', '\u{2805}']]);
}

#[test]
fn picture_larger_than_the_grid() {
    let mut m = grid(&["##"]);
    let chars = get_braille(&options(6, 12), &mut m);
    assert_eq!(chars, vec![vec!['\u{2803}'], Vec::new(), Vec::new()]);
    let mut none: Vec<Vec<Cell>> = Vec::new();
    assert_eq!(get_braille(&options(4, 8), &mut none), vec![Vec::<char>::new(), Vec::new()]);
    let mut small = grid(&["#"]);
    assert_eq!(get_braille(&options(1, 3), &mut small), Vec::<Vec<char>>::new());
    assert!(small[0][0].visited);
}

#[test]
fn other_characters_have_no_dots() {
    assert_eq!(decode_braille('a'), None);
    assert_eq!(decode_braille('\u{27FF}'), None);
    assert_eq!(decode_braille('\u{2900}'), None);
    assert_eq!(decode_braille('\u{2800}'), Some(0));
    assert_eq!(decode_braille('\u{28FF}'), Some(255));
}
