//! The data shared by every renderer: scalars, points, cells and the grid.

use vstd::prelude::*;

verus! {

/// How many steps of a scalar make one whole: a real quantity `q` is held as
/// the integer `q * UNIT`.
pub const UNIT: i64 = 1_000_000;

/// The largest width or height, in cells, that a picture may have.
pub const MAX_SIDE: usize = 65_535;

/// A point of the plane; both coordinates are scalars.
#[derive(Debug, Clone, Copy, PartialEq, Eq, Structural)]
pub struct Point {
    pub x: i64,
    pub y: i64,
}

impl Point {
    /// The point (`x`, `y`).
    pub fn new(x: i64, y: i64) -> (p: Point)
        ensures
            p.x == x,
            p.y == y,
    {
        Point { x, y }
    }
}

/// One pixel of the grid. `value` says whether it is lit; `visited` is
/// scratch space of the braille encoder and means nothing between renders.
#[derive(Debug, Clone, Copy, PartialEq, Eq, Structural)]
pub struct Cell {
    pub value: bool,
    pub visited: bool,
}

impl Cell {
    /// An unlit cell that no encoder has consumed.
    pub fn new() -> (c: Cell)
        ensures
            c == blank_cell(),
    {
        Cell { value: false, visited: false }
    }
}

pub type CellMatrix = Vec<Vec<Cell>>;

pub type CharMatrix = Vec<Vec<char>>;

/// A sample after normalization: its column, its row, and the value it was
/// computed from.
#[derive(Debug, Clone, Copy, PartialEq, Eq, Structural)]
pub struct NormalizedPoint {
    pub x: usize,
    pub y: usize,
    pub y_acc: i64,
}

impl NormalizedPoint {
    /// The sample in column `x` and row `y` with the value `y_acc`.
    pub fn new(x: usize, y: usize, y_acc: i64) -> (np: NormalizedPoint)
        ensures
            np == (NormalizedPoint { x, y, y_acc }),
    {
        NormalizedPoint { x, y, y_acc }
    }
}

/// What one render is asked for: the vertical window, as scalars, and the
/// size of the picture in cells.
#[derive(Debug, Clone, Copy, PartialEq, Eq, Structural)]
pub struct GraphOptions {
    pub y_min: i64,
    pub y_max: i64,
    pub height: usize,
    pub width: usize,
}

impl GraphOptions {
    /// Both sides are at least one cell and at most [`MAX_SIDE`] cells long.
    pub open spec fn wf(&self) -> bool {
        &&& 1 <= self.width <= MAX_SIDE
        &&& 1 <= self.height <= MAX_SIDE
    }

    /// Tests [`GraphOptions::wf`].
    pub fn is_valid(&self) -> (ok: bool)
        ensures
            ok == self.wf(),
    {
        1 <= self.width && self.width <= MAX_SIDE && 1 <= self.height && self.height <= MAX_SIDE
    }
}

/// The cell every fresh grid is made of.
pub open spec fn blank_cell() -> Cell {
    Cell { value: false, visited: false }
}

/// A matrix as a sequence of rows, each a sequence of items.
pub open spec fn rows_of<T>(matrix: Seq<Vec<T>>) -> Seq<Seq<T>> {
    Seq::new(matrix.len(), |r: int| matrix[r]@)
}

/// The grid of `rows` by `cols` blank cells.
pub open spec fn blank_grid(rows: int, cols: int) -> Seq<Seq<Cell>> {
    Seq::new(rows as nat, |r: int| Seq::new(cols as nat, |c: int| blank_cell()))
}

/// Cell (`row`, `col`) of `grid` exists.
pub open spec fn has_cell(grid: Seq<Seq<Cell>>, row: int, col: int) -> bool {
    0 <= row < grid.len() && 0 <= col < grid[row].len()
}

/// Cell (`row`, `col`) exists in `grid` and is lit.
pub open spec fn lit(grid: Seq<Seq<Cell>>, row: int, col: int) -> bool {
    has_cell(grid, row, col) && grid[row][col].value
}

/// `grid` with every cell for which `on(row, col)` holds lit as well; nothing
/// else changes.
pub open spec fn with_lit(grid: Seq<Seq<Cell>>, on: spec_fn(int, int) -> bool) -> Seq<Seq<Cell>> {
    Seq::new(
        grid.len(),
        |r: int|
            Seq::new(
                grid[r].len(),
                |c: int| Cell { value: grid[r][c].value || on(r, c), visited: grid[r][c].visited },
            ),
    )
}

/// Lights cell (`row`, `col`) where the matrix has one; otherwise nothing
/// happens.
pub fn light_cell(matrix: &mut CellMatrix, row: usize, col: usize)
    ensures
        rows_of(final(matrix)@) == with_lit(
            rows_of(old(matrix)@),
            |r: int, c: int| r == row && c == col,
        ),
{
    let ghost before = rows_of(matrix@);
    if row < matrix.len() {
        if col < matrix[row].len() {
            matrix[row][col].value = true;
        }
    }
    proof {
        let after = with_lit(before, |r: int, c: int| r == row && c == col);
        assert(rows_of(matrix@).len() == after.len());
        assert forall|r: int| 0 <= r < after.len() implies #[trigger] rows_of(matrix@)[r]
            =~= after[r] by {
            assert(before[r] == old(matrix)@[r]@);
        }
        assert(rows_of(matrix@) =~= after);
    }
}

/// A row of `len` blank cells.
fn blank_row(len: usize) -> (row: Vec<Cell>)
    ensures
        row@ == Seq::new(len as nat, |c: int| blank_cell()),
{
    let mut row: Vec<Cell> = Vec::new();
    let mut c: usize = 0;
    while c < len
        invariant
            c <= len,
            row@ == Seq::new(c as nat, |c: int| blank_cell()),
        decreases len - c,
    {
        row.push(Cell::new());
        c = c + 1;
        assert(row@ =~= Seq::new(c as nat, |c: int| blank_cell()));
    }
    row
}

/// A grid of `vec_count` rows of `vec_length` blank cells.
pub fn make_matrix(vec_count: usize, vec_length: usize) -> (matrix: CellMatrix)
    ensures
        rows_of(matrix@) == blank_grid(vec_count as int, vec_length as int),
{
    let mut matrix: CellMatrix = Vec::new();
    let mut r: usize = 0;
    while r < vec_count
        invariant
            r <= vec_count,
            matrix@.len() == r,
            rows_of(matrix@) == blank_grid(r as int, vec_length as int),
        decreases vec_count - r,
    {
        let ghost before = rows_of(matrix@);
        let row = blank_row(vec_length);
        matrix.push(row);
        r = r + 1;
        assert forall|i: int| 0 <= i < r implies #[trigger] rows_of(matrix@)[i] == blank_grid(
            r as int,
            vec_length as int,
        )[i] by {
            if i < r - 1 {
                assert(rows_of(matrix@)[i] == before[i]);
            }
        }
        assert(rows_of(matrix@) =~= blank_grid(r as int, vec_length as int));
    }
    matrix
}

/// The blank grid of a picture: one row more than `go.height` and one
/// column more than `go.width`, so that both ends of each axis have a cell.
pub fn make_cell_matrix(go: &GraphOptions) -> (matrix: CellMatrix)
    requires
        go.height < usize::MAX,
        go.width < usize::MAX,
    ensures
        rows_of(matrix@) == blank_grid(go.height + 1, go.width + 1),
{
    make_matrix(go.height + 1, go.width + 1)
}

} // verus!
