//! Folding the grid into braille characters, one per block of two columns by
//! four rows.

use crate::common::{rows_of, Cell, CellMatrix, CharMatrix, GraphOptions};
use vstd::prelude::*;

verus! {

/// The code point of the braille pattern without dots.
pub const BRAILLE_BASE: u32 = 0x2800;

/// `i` is a Unicode scalar value.
pub open spec fn is_scalar_value(i: u32) -> bool {
    i < 0xD800 || (0xE000 <= i && i <= 0x10FFFF)
}

/// `char::from_u32` of the standard library: the character with code point
/// `i` where `i` is a scalar value, and nothing for a surrogate or a number
/// past the last code point.
pub assume_specification[ char::from_u32 ](i: u32) -> (c: Option<char>)
    ensures
        is_scalar_value(i) ==> c == Some(i as char),
        !is_scalar_value(i) ==> c.is_none(),
;

/// The braille character whose dots are the bits of `bits`.
pub open spec fn braille_char(bits: u8) -> char {
    (BRAILLE_BASE + bits) as char
}

/// The state of a scan after looking at (`row`, `col`): a cell of the grid
/// gives its lit state to the next free bit; a position outside the grid
/// gives nothing and uses no bit. `acc` is the mask so far and the number of
/// bits used.
pub open spec fn dot_scan(grid: Seq<Seq<Cell>>, row: int, col: int, acc: (u8, u8)) -> (u8, u8) {
    if 0 <= row < grid.len() && 0 <= col < grid[row].len() && acc.1 < 8 {
        (acc.0 | ((if grid[row][col].value { 1u8 } else { 0u8 }) << acc.1), (acc.1 + 1) as u8)
    } else {
        acc
    }
}

/// The mask of the block whose upper left cell is (`row`, `col`). The left
/// column is scanned downwards over three rows, then the right one, then the
/// fourth row from left to right: the order in which braille numbers its
/// dots.
pub open spec fn block_bits(grid: Seq<Seq<Cell>>, row: int, col: int) -> u8 {
    let a = dot_scan(grid, row, col, (0u8, 0u8));
    let a = dot_scan(grid, row + 1, col, a);
    let a = dot_scan(grid, row + 2, col, a);
    let a = dot_scan(grid, row, col + 1, a);
    let a = dot_scan(grid, row + 1, col + 1, a);
    let a = dot_scan(grid, row + 2, col + 1, a);
    let a = dot_scan(grid, row + 3, col, a);
    let a = dot_scan(grid, row + 3, col + 1, a);
    a.0
}

/// Cell (`row`, `col`) lies in the block whose upper left cell is
/// (`top`, `left`).
pub open spec fn in_block(top: int, left: int, row: int, col: int) -> bool {
    top <= row < top + 4 && left <= col < left + 2
}

/// `grid` with the cells for which `seen(row, col)` holds marked as visited.
pub open spec fn with_visited(grid: Seq<Seq<Cell>>, seen: spec_fn(int, int) -> bool) -> Seq<
    Seq<Cell>,
> {
    Seq::new(
        grid.len(),
        |r: int|
            Seq::new(
                grid[r].len(),
                |c: int|
                    Cell { value: grid[r][c].value, visited: grid[r][c].visited || seen(r, c) },
            ),
    )
}

/// No cell of `grid` is marked as visited.
pub open spec fn unvisited(grid: Seq<Seq<Cell>>) -> bool {
    forall|r: int, c: int|
        0 <= r < grid.len() && 0 <= c < grid[r].len() ==> !(#[trigger] grid[r][c]).visited
}

/// All rows of `grid` are as long as the first.
pub open spec fn rectangular(grid: Seq<Seq<Cell>>) -> bool {
    forall|r: int| 0 <= r < grid.len() ==> (#[trigger] grid[r]).len() == grid[0].len()
}

/// The number of columns of a rectangular grid.
pub open spec fn col_count(grid: Seq<Seq<Cell>>) -> int {
    if grid.len() == 0 {
        0
    } else {
        grid[0].len() as int
    }
}

/// The number of blocks that start in one row of the grid and give a
/// character, where a row of characters has at most `limit` of them.
pub open spec fn blocks_across(grid: Seq<Seq<Cell>>, limit: int) -> int {
    if (col_count(grid) + 1) / 2 < limit {
        (col_count(grid) + 1) / 2
    } else {
        limit
    }
}

/// Character row `i` of the encoding: one character for each of the first
/// `limit` blocks that start in grid row `4 * i`. A character row below the
/// grid is empty.
pub open spec fn braille_row(grid: Seq<Seq<Cell>>, i: int, limit: int) -> Seq<char> {
    Seq::new(
        (if 4 * i < grid.len() {
            blocks_across(grid, limit)
        } else {
            0
        }) as nat,
        |j: int| braille_char(block_bits(grid, 4 * i, 2 * j)),
    )
}

/// The encoding of `grid` in `count` character rows of at most `limit`
/// characters.
pub open spec fn braille_rows(grid: Seq<Seq<Cell>>, count: int, limit: int) -> Seq<Seq<char>> {
    Seq::new(count as nat, |i: int| braille_row(grid, i, limit))
}

/// Looks at the cell `down` rows below and `right` columns beside
/// (`row`, `col`), if the matrix has it: the cell gives its bit and is
/// marked.
fn scan_dot(
    matrix: &mut CellMatrix,
    row: usize,
    col: usize,
    down: usize,
    right: usize,
    acc: (u8, u8),
) -> (out: (u8, u8))
    requires
        row < old(matrix)@.len(),
        col < old(matrix)@[row as int]@.len(),
        down < 4,
        right < 2,
    ensures
        out == dot_scan(rows_of(old(matrix)@), row + down, col + right, acc),
        out.1 <= acc.1 + 1,
        rows_of(final(matrix)@) == with_visited(
            rows_of(old(matrix)@),
            |r: int, c: int| r == row + down && c == col + right && acc.1 < 8,
        ),
{
    let ghost before = rows_of(matrix@);
    let mut out = acc;
    if acc.1 < 8 && down < matrix.len() - row {
        let r: usize = row + down;
        if col < matrix[r].len() && right < matrix[r].len() - col {
            let c: usize = col + right;
            let bit: u8 = if matrix[r][c].value {
                1u8
            } else {
                0u8
            };
            out = (acc.0 | (bit << acc.1), acc.1 + 1);
            matrix[r][c].visited = true;
        }
    }
    proof {
        let after = with_visited(
            before,
            |r: int, c: int| r == row + down && c == col + right && acc.1 < 8,
        );
        assert(rows_of(matrix@).len() == after.len());
        assert forall|r: int| 0 <= r < after.len() implies #[trigger] rows_of(matrix@)[r]
            =~= after[r] by {
            assert(before[r] == old(matrix)@[r]@);
        }
        assert(rows_of(matrix@) =~= after);
    }
    out
}

/// Two grids of one shape whose cells are lit alike.
pub open spec fn same_picture(a: Seq<Seq<Cell>>, b: Seq<Seq<Cell>>) -> bool {
    &&& a.len() == b.len()
    &&& forall|r: int| 0 <= r < a.len() ==> (#[trigger] a[r]).len() == b[r].len()
    &&& forall|r: int, c: int|
        0 <= r < a.len() && 0 <= c < a[r].len() ==> (#[trigger] a[r][c]).value == b[r][c].value
}

/// Marking cells as visited changes no block's mask.
pub proof fn lemma_block_bits_of_picture(a: Seq<Seq<Cell>>, b: Seq<Seq<Cell>>, row: int, col: int)
    requires
        same_picture(a, b),
    ensures
        block_bits(a, row, col) == block_bits(b, row, col),
{
    assert forall|r: int, c: int, acc: (u8, u8)| #[trigger]
        dot_scan(a, r, c, acc) == dot_scan(b, r, c, acc) by {
        if 0 <= r < a.len() && 0 <= c < a[r].len() {
            assert(a[r][c].value == b[r][c].value);
        }
    }
}

/// Encodes the block whose upper left cell is (`row`, `col`) and marks the
/// cells it has.
fn encode_block(matrix: &mut CellMatrix, row: usize, col: usize) -> (bits: u8)
    requires
        row < old(matrix)@.len(),
        col < old(matrix)@[row as int]@.len(),
    ensures
        bits == block_bits(rows_of(old(matrix)@), row as int, col as int),
        rows_of(final(matrix)@) == with_visited(
            rows_of(old(matrix)@),
            |r: int, c: int| in_block(row as int, col as int, r, c),
        ),
{
    let ghost g0 = rows_of(matrix@);
    let a = scan_dot(matrix, row, col, 0, 0, (0u8, 0u8));
    let ghost g1 = rows_of(matrix@);
    assert(same_picture(g0, g1));
    let a = scan_dot(matrix, row, col, 1, 0, a);
    let ghost g2 = rows_of(matrix@);
    assert(same_picture(g0, g2));
    let a = scan_dot(matrix, row, col, 2, 0, a);
    let ghost g3 = rows_of(matrix@);
    assert(same_picture(g0, g3));
    let a = scan_dot(matrix, row, col, 0, 1, a);
    let ghost g4 = rows_of(matrix@);
    assert(same_picture(g0, g4));
    let a = scan_dot(matrix, row, col, 1, 1, a);
    let ghost g5 = rows_of(matrix@);
    assert(same_picture(g0, g5));
    let a = scan_dot(matrix, row, col, 2, 1, a);
    let ghost g6 = rows_of(matrix@);
    assert(same_picture(g0, g6));
    let a = scan_dot(matrix, row, col, 3, 0, a);
    let ghost g7 = rows_of(matrix@);
    assert(same_picture(g0, g7));
    let a = scan_dot(matrix, row, col, 3, 1, a);
    proof {
        assert forall|r: int, c: int, acc: (u8, u8)| #[trigger]
            dot_scan(g0, r, c, acc) == dot_scan(g1, r, c, acc) && dot_scan(g0, r, c, acc)
                == dot_scan(g2, r, c, acc) && dot_scan(g0, r, c, acc) == dot_scan(g3, r, c, acc)
                && dot_scan(g0, r, c, acc) == dot_scan(g4, r, c, acc) && dot_scan(g0, r, c, acc)
                == dot_scan(g5, r, c, acc) && dot_scan(g0, r, c, acc) == dot_scan(g6, r, c, acc)
                && dot_scan(g0, r, c, acc) == dot_scan(g7, r, c, acc) by {
            if 0 <= r < g0.len() && 0 <= c < g0[r].len() {
                assert(g0[r][c].value == g1[r][c].value);
                assert(g0[r][c].value == g2[r][c].value);
                assert(g0[r][c].value == g3[r][c].value);
                assert(g0[r][c].value == g4[r][c].value);
                assert(g0[r][c].value == g5[r][c].value);
                assert(g0[r][c].value == g6[r][c].value);
                assert(g0[r][c].value == g7[r][c].value);
            }
        }
        let after = with_visited(g0, |r: int, c: int| in_block(row as int, col as int, r, c));
        assert(rows_of(matrix@).len() == after.len());
        assert forall|r: int| 0 <= r < after.len() implies #[trigger] rows_of(matrix@)[r]
            =~= after[r] by {
            assert(g7[r].len() == g0[r].len());
            assert forall|c: int| 0 <= c < after[r].len() implies rows_of(matrix@)[r][c]
                == after[r][c] by {
                assert(g1[r][c].visited == (g0[r][c].visited || (r == row && c == col)));
                assert(g2[r][c].visited == (g1[r][c].visited || (r == row + 1 && c == col)));
                assert(g3[r][c].visited == (g2[r][c].visited || (r == row + 2 && c == col)));
                assert(g4[r][c].visited == (g3[r][c].visited || (r == row && c == col + 1)));
                assert(g5[r][c].visited == (g4[r][c].visited || (r == row + 1 && c == col + 1)));
                assert(g6[r][c].visited == (g5[r][c].visited || (r == row + 2 && c == col + 1)));
                assert(g7[r][c].visited == (g6[r][c].visited || (r == row + 3 && c == col)));
            }
        }
        assert(rows_of(matrix@) =~= after);
    }
    a.0
}

/// While the scan stands at (`row`, `col`): the block of cell (`r`, `c`)
/// starts before that position, so the cell has been consumed.
pub open spec fn seen_before(row: int, col: int, r: int, c: int) -> bool {
    r - r % 4 < row || (r - r % 4 == row && c - c % 2 < col)
}

/// Character row `i` while the scan stands at (`row`, `col`).
pub open spec fn partial_row(
    grid: Seq<Seq<Cell>>,
    i: int,
    row: int,
    col: int,
    limit: int,
) -> Seq<char> {
    Seq::new(
        (if 4 * i < row {
            blocks_across(grid, limit)
        } else if 4 * i == row {
            if (col + 1) / 2 < limit {
                (col + 1) / 2
            } else {
                limit
            }
        } else {
            0
        }) as nat,
        |j: int| braille_char(block_bits(grid, 4 * i, 2 * j)),
    )
}

/// `count` empty character rows.
fn empty_rows(count: usize) -> (chars: CharMatrix)
    ensures
        chars@.len() == count,
        forall|i: int| 0 <= i < count ==> (#[trigger] chars@[i])@.len() == 0,
{
    let mut chars: CharMatrix = Vec::new();
    let mut i: usize = 0;
    while i < count
        invariant
            i <= count,
            chars@.len() == i,
            forall|k: int| 0 <= k < i ==> (#[trigger] chars@[k])@.len() == 0,
        decreases count - i,
    {
        chars.push(Vec::new());
        i = i + 1;
    }
    chars
}

/// Turns the grid into braille: `go.height / 4` rows of `go.width / 2`
/// characters, one character per block of two columns by four rows, read
/// from the upper left corner. A block that the edge of the grid cuts gives
/// a character made of the cells it has, packed into the lowest bits, and
/// where the grid ends early the rows of characters are shorter or empty.
/// Blocks beyond `go.height / 4` rows and `go.width / 2` columns are
/// consumed without giving characters. Every cell ends up marked as
/// visited.
pub fn get_braille(go: &GraphOptions, matrix: &mut CellMatrix) -> (chars: CharMatrix)
    requires
        rectangular(rows_of(old(matrix)@)),
        unvisited(rows_of(old(matrix)@)),
    ensures
        rows_of(chars@) == braille_rows(
            rows_of(old(matrix)@),
            (go.height / 4) as int,
            (go.width / 2) as int,
        ),
        rows_of(final(matrix)@) == with_visited(rows_of(old(matrix)@), |r: int, c: int| true),
{
    let row_char_count = go.height / 4;
    let col_char_count = go.width / 2;
    let mut chars = empty_rows(row_char_count);
    let ghost g0 = rows_of(matrix@);
    let row_count = matrix.len();
    let mut row: usize = 0;
    assert(rows_of(matrix@) =~~= with_visited(g0, |r: int, c: int| seen_before(0, 0, r, c)));
    while row < row_count
        invariant
            row <= row_count,
            row_count == g0.len(),
            matrix@.len() == row_count,
            rectangular(g0),
            unvisited(g0),
            rows_of(matrix@) == with_visited(
                g0,
                |r: int, c: int| seen_before(row as int, 0, r, c),
            ),
            chars@.len() == row_char_count,
            forall|i: int|
                0 <= i < row_char_count ==> (#[trigger] chars@[i])@ == partial_row(
                    g0,
                    i,
                    row as int,
                    0,
                    col_char_count as int,
                ),
        decreases row_count - row,
    {
        assert(rows_of(matrix@)[row as int] == matrix@[row as int]@);
        let col_count = matrix[row].len();
        let mut col: usize = 0;
        while col < col_count
            invariant
                row < row_count,
                col <= col_count,
                row_count == g0.len(),
                matrix@.len() == row_count,
                col_count == g0[row as int].len(),
                rectangular(g0),
                unvisited(g0),
                rows_of(matrix@) == with_visited(
                    g0,
                    |r: int, c: int| seen_before(row as int, col as int, r, c),
                ),
                chars@.len() == row_char_count,
                forall|i: int|
                    0 <= i < row_char_count ==> (#[trigger] chars@[i])@ == partial_row(
                        g0,
                        i,
                        row as int,
                        col as int,
                        col_char_count as int,
                    ),
            decreases col_count - col,
        {
            let ghost g = rows_of(matrix@);
            let ghost old_chars = chars@;
            assert(g[row as int] == matrix@[row as int]@);
            assert(g[row as int][col as int].visited == seen_before(
                row as int,
                col as int,
                row as int,
                col as int,
            ));
            if !matrix[row][col].visited {
                assert(row % 4 == 0 && col % 2 == 0);
                let bits = encode_block(matrix, row, col);
                proof {
                    assert(same_picture(g, g0));
                    lemma_block_bits_of_picture(g, g0, row as int, col as int);
                }
                if row / 4 < chars.len() && col / 2 < col_char_count {
                    let code: u32 = BRAILLE_BASE + bits as u32;
                    if let Some(v) = char::from_u32(code) {
                        chars[row / 4].push(v);
                    }
                    assert(chars@[row as int / 4]@ =~= partial_row(
                        g0,
                        row as int / 4,
                        row as int,
                        col + 1,
                        col_char_count as int,
                    ));
                }
                assert(rows_of(matrix@) =~~= with_visited(
                    g0,
                    |r: int, c: int| seen_before(row as int, col + 1, r, c),
                ));
            } else {
                assert(row % 4 != 0 || col % 2 != 0);
                assert(rows_of(matrix@) =~~= with_visited(
                    g0,
                    |r: int, c: int| seen_before(row as int, col + 1, r, c),
                ));
            }
            col = col + 1;
            assert forall|i: int| 0 <= i < row_char_count implies (#[trigger] chars@[i])@
                == partial_row(g0, i, row as int, col as int, col_char_count as int) by {
                if 4 * i != row {
                    assert(chars@[i] == old_chars[i]);
                    assert(partial_row(g0, i, row as int, col as int, col_char_count as int)
                        =~= partial_row(g0, i, row as int, col - 1, col_char_count as int));
                } else if old_chars[i] == chars@[i] {
                    assert(partial_row(g0, i, row as int, col as int, col_char_count as int)
                        =~= partial_row(g0, i, row as int, col - 1, col_char_count as int));
                }
            }
        }
        assert(rows_of(matrix@) =~~= with_visited(
            g0,
            |r: int, c: int| seen_before(row + 1, 0, r, c),
        ));
        assert forall|i: int| 0 <= i < row_char_count implies (#[trigger] chars@[i])@
            == partial_row(g0, i, row + 1, 0, col_char_count as int) by {
            assert(partial_row(g0, i, row as int, col as int, col_char_count as int)
                =~= partial_row(g0, i, row + 1, 0, col_char_count as int));
        }
        row = row + 1;
    }
    proof {
        assert(rows_of(matrix@) =~~= with_visited(g0, |r: int, c: int| true));
        assert forall|i: int| 0 <= i < row_char_count implies #[trigger] rows_of(chars@)[i]
            == braille_rows(g0, row_char_count as int, col_char_count as int)[i] by {
            assert(partial_row(g0, i, row as int, 0, col_char_count as int) =~= braille_row(
                g0,
                i,
                col_char_count as int,
            ));
        }
        assert(rows_of(chars@) =~= braille_rows(g0, row_char_count as int, col_char_count as int));
    }
    chars
}

/// The dots of a braille character: the inverse of [`braille_char`].
pub open spec fn braille_dots(c: char) -> Option<u8> {
    if BRAILLE_BASE <= c as u32 <= BRAILLE_BASE + 0xFF {
        Some((c as u32 - BRAILLE_BASE) as u8)
    } else {
        None
    }
}

/// The mask of a braille character, and nothing for any other character.
pub fn decode_braille(c: char) -> (bits: Option<u8>)
    ensures
        bits == braille_dots(c),
{
    let code: u32 = c as u32;
    if BRAILLE_BASE <= code && code <= BRAILLE_BASE + 0xFF {
        Some((code - BRAILLE_BASE) as u8)
    } else {
        None
    }
}

/// Bit `k` of `pattern` is set.
pub open spec fn has_dot(pattern: u8, k: u8) -> bool {
    (pattern >> k) & 1u8 == 1u8
}

/// The number of the dot `down` rows below and `right` columns beside the
/// upper left corner of a block, counted from 0 in scan order.
pub open spec fn dot_number(down: int, right: int) -> u8 {
    if down < 3 {
        (3 * right + down) as u8
    } else {
        (6 + right) as u8
    }
}

/// The full block, four rows of two cells, in which exactly the dots of
/// `pattern` are lit.
pub open spec fn pattern_block(pattern: u8) -> Seq<Seq<Cell>> {
    Seq::new(
        4,
        |r: int|
            Seq::new(
                2,
                |c: int| Cell { value: has_dot(pattern, dot_number(r, c)), visited: false },
            ),
    )
}

/// Round trip: the block that shows `pattern` is encoded as the character
/// `U+2800 + pattern`, and that character decodes to `pattern`. This holds of
/// each of the 256 patterns.
pub proof fn lemma_braille_round_trip(pattern: u8)
    ensures
        block_bits(pattern_block(pattern), 0, 0) == pattern,
        braille_rows(pattern_block(pattern), 1, 1) == seq![seq![braille_char(pattern)]],
        braille_char(pattern) as u32 == BRAILLE_BASE + pattern,
        braille_dots(braille_char(pattern)) == Some(pattern),
{
    let g = pattern_block(pattern);
    let b0: u8 = if has_dot(pattern, 0) { 1 } else { 0 };
    let b1: u8 = if has_dot(pattern, 1) { 1 } else { 0 };
    let b2: u8 = if has_dot(pattern, 2) { 1 } else { 0 };
    let b3: u8 = if has_dot(pattern, 3) { 1 } else { 0 };
    let b4: u8 = if has_dot(pattern, 4) { 1 } else { 0 };
    let b5: u8 = if has_dot(pattern, 5) { 1 } else { 0 };
    let b6: u8 = if has_dot(pattern, 6) { 1 } else { 0 };
    let b7: u8 = if has_dot(pattern, 7) { 1 } else { 0 };
    let a0 = dot_scan(g, 0, 0, (0u8, 0u8));
    let a1 = dot_scan(g, 1, 0, a0);
    let a2 = dot_scan(g, 2, 0, a1);
    let a3 = dot_scan(g, 0, 1, a2);
    let a4 = dot_scan(g, 1, 1, a3);
    let a5 = dot_scan(g, 2, 1, a4);
    let a6 = dot_scan(g, 3, 0, a5);
    let a7 = dot_scan(g, 3, 1, a6);
    assert(g[0][0].value == has_dot(pattern, 0));
    assert(g[1][0].value == has_dot(pattern, 1));
    assert(g[2][0].value == has_dot(pattern, 2));
    assert(g[0][1].value == has_dot(pattern, 3));
    assert(g[1][1].value == has_dot(pattern, 4));
    assert(g[2][1].value == has_dot(pattern, 5));
    assert(g[3][0].value == has_dot(pattern, 6));
    assert(g[3][1].value == has_dot(pattern, 7));
    assert(a0 == (0u8 | (b0 << 0u8), 1u8));
    assert(a1 == (a0.0 | (b1 << 1u8), 2u8));
    assert(a2 == (a1.0 | (b2 << 2u8), 3u8));
    assert(a3 == (a2.0 | (b3 << 3u8), 4u8));
    assert(a4 == (a3.0 | (b4 << 4u8), 5u8));
    assert(a5 == (a4.0 | (b5 << 5u8), 6u8));
    assert(a6 == (a5.0 | (b6 << 6u8), 7u8));
    assert(a7 == (a6.0 | (b7 << 7u8), 8u8));
    let m0 = a0.0;
    let m1 = a1.0;
    let m2 = a2.0;
    let m3 = a3.0;
    let m4 = a4.0;
    let m5 = a5.0;
    let m6 = a6.0;
    let m7 = a7.0;
    assert(m7 == pattern) by (bit_vector)
        requires
            b0 == (if (pattern >> 0u8) & 1u8 == 1u8 { 1u8 } else { 0u8 }),
            b1 == (if (pattern >> 1u8) & 1u8 == 1u8 { 1u8 } else { 0u8 }),
            b2 == (if (pattern >> 2u8) & 1u8 == 1u8 { 1u8 } else { 0u8 }),
            b3 == (if (pattern >> 3u8) & 1u8 == 1u8 { 1u8 } else { 0u8 }),
            b4 == (if (pattern >> 4u8) & 1u8 == 1u8 { 1u8 } else { 0u8 }),
            b5 == (if (pattern >> 5u8) & 1u8 == 1u8 { 1u8 } else { 0u8 }),
            b6 == (if (pattern >> 6u8) & 1u8 == 1u8 { 1u8 } else { 0u8 }),
            b7 == (if (pattern >> 7u8) & 1u8 == 1u8 { 1u8 } else { 0u8 }),
            m0 == 0u8 | (b0 << 0u8),
            m1 == m0 | (b1 << 1u8),
            m2 == m1 | (b2 << 2u8),
            m3 == m2 | (b3 << 3u8),
            m4 == m3 | (b4 << 4u8),
            m5 == m4 | (b5 << 5u8),
            m6 == m5 | (b6 << 6u8),
            m7 == m6 | (b7 << 7u8),
    ;
    assert(braille_row(g, 0, 1) =~= seq![braille_char(pattern)]);
    assert(braille_rows(g, 1, 1) =~= seq![seq![braille_char(pattern)]]);
}

} // verus!
