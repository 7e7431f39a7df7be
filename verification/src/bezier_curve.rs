//! Quadratic and cubic Bezier curves, drawn point by point.

use crate::braille::{braille_rows, get_braille, rectangular, unvisited};
use crate::common::{
    blank_grid, light_cell, make_cell_matrix, rows_of, with_lit, Cell, GraphOptions, Point,
    MAX_SIDE, UNIT,
};
use crate::graphing::{boundary, lemma_boundary_in_window};
use crate::string_maker::{curve_text, make_curve_string};
use vstd::prelude::*;

verus! {

/// A curve is drawn at the parameters `k / STEPS` for `k` from 0 to
/// `STEPS`.
pub const STEPS: u32 = 1000;

/// The point between `start` and `end` at parameter `k / STEPS`:
/// `start + k * (end - start) / STEPS`, rounded down to a whole step of a
/// scalar.
pub open spec fn lerp(start: int, end: int, k: int) -> int {
    start + (k * (end - start)) / (STEPS as int)
}

/// Interpolation starts at `start`, ends at `end`, and stays between them.
pub proof fn lemma_lerp_between(start: int, end: int, k: int)
    requires
        0 <= k <= STEPS,
    ensures
        start <= end ==> start <= lerp(start, end, k) <= end,
        start >= end ==> end <= lerp(start, end, k) <= start,
        lerp(start, end, 0) == start,
        lerp(start, end, STEPS as int) == end,
{
    assert(lerp(start, end, k) == boundary(STEPS as int, start, end, k));
    assert(lerp(start, end, 0) == boundary(STEPS as int, start, end, 0));
    assert(lerp(start, end, STEPS as int) == boundary(STEPS as int, start, end, STEPS as int));
    lemma_boundary_in_window(STEPS as int, start, end, k);
    lemma_boundary_in_window(STEPS as int, start, end, 0);
    lemma_boundary_in_window(STEPS as int, start, end, STEPS as int);
}

/// Linear interpolation; see [`lerp`].
pub fn interpolate(start: i64, end: i64, k: u32) -> (at: i64)
    requires
        k <= STEPS,
    ensures
        at == lerp(start as int, end as int, k as int),
{
    proof {
        lemma_lerp_between(start as int, end as int, k as int);
        assert(-0x1_0000_0000_0000_0000 * 1000 <= k * (end - start) <= 0x1_0000_0000_0000_0000
            * 1000) by (nonlinear_arith)
            requires
                0 <= k <= 1000,
                -0x1_0000_0000_0000_0000 <= end - start <= 0x1_0000_0000_0000_0000,
        ;
    }
    let moved = crate::arith::div_floor(k as i128 * (end as i128 - start as i128), STEPS as i128);
    (start as i128 + moved) as i64
}

/// The point between `a` and `b` at parameter `k / STEPS`.
pub open spec fn lerp_point(a: Point, b: Point, k: int) -> Point {
    Point { x: lerp(a.x as int, b.x as int, k) as i64, y: lerp(a.y as int, b.y as int, k) as i64 }
}

/// The point of the quadratic curve with control points `p1`, `p2`, `p3` at
/// parameter `k / STEPS`, by De Casteljau's construction.
pub open spec fn quadratic_point(p1: Point, p2: Point, p3: Point, k: int) -> Point {
    lerp_point(lerp_point(p1, p2, k), lerp_point(p2, p3, k), k)
}

/// The point of the cubic curve with control points `p1` to `p4` at
/// parameter `k / STEPS`: the same construction, one level deeper.
pub open spec fn cubic_point(p1: Point, p2: Point, p3: Point, p4: Point, k: int) -> Point {
    lerp_point(quadratic_point(p1, p2, p3, k), quadratic_point(p2, p3, p4, k), k)
}

/// A curve starts in its first control point and ends in its last, exactly.
pub proof fn lemma_curve_ends(p1: Point, p2: Point, p3: Point, p4: Point)
    ensures
        quadratic_point(p1, p2, p3, 0) == p1,
        quadratic_point(p1, p2, p3, STEPS as int) == p3,
        cubic_point(p1, p2, p3, p4, 0) == p1,
        cubic_point(p1, p2, p3, p4, STEPS as int) == p4,
{
    lemma_lerp_point_ends(p1, p2);
    lemma_lerp_point_ends(p2, p3);
    lemma_lerp_point_ends(p3, p4);
    lemma_lerp_point_ends(p1, p3);
    lemma_lerp_point_ends(p2, p4);
    lemma_lerp_point_ends(p1, p4);
}

/// The ends of an interpolation between two points.
pub proof fn lemma_lerp_point_ends(a: Point, b: Point)
    ensures
        lerp_point(a, b, 0) == a,
        lerp_point(a, b, STEPS as int) == b,
{
    lemma_lerp_between(a.x as int, b.x as int, 0);
    lemma_lerp_between(a.y as int, b.y as int, 0);
}

/// Interpolation between two points; see [`lerp_point`].
fn interpolate_point(a: &Point, b: &Point, k: u32) -> (at: Point)
    requires
        k <= STEPS,
    ensures
        at == lerp_point(*a, *b, k as int),
{
    Point { x: interpolate(a.x, b.x, k), y: interpolate(a.y, b.y, k) }
}

/// `v + by`, kept between 0 and the scalar of the last cell of a side of
/// `side` cells.
pub open spec fn moved_on_side(v: int, by: int, side: int) -> int {
    if v + by < 0 {
        0
    } else if v + by > (side - 1) * UNIT {
        (side - 1) * UNIT
    } else {
        v + by
    }
}

/// The marker that lies (`ox`, `oy`) beside the control point `cp`.
pub open spec fn marker(cp: Point, ox: int, oy: int, width: int, height: int) -> Point {
    Point {
        x: moved_on_side(cp.x as int, ox, width) as i64,
        y: moved_on_side(cp.y as int, oy, height) as i64,
    }
}

/// The markers of one control point: its four diagonal neighbours at a
/// distance of one cell, each kept on the picture, and the point itself.
pub open spec fn markers_of(cp: Point, width: int, height: int) -> Seq<Point> {
    seq![
        marker(cp, -UNIT, -UNIT, width, height),
        marker(cp, -UNIT, UNIT as int, width, height),
        marker(cp, UNIT as int, -UNIT, width, height),
        marker(cp, UNIT as int, UNIT as int, width, height),
        cp,
    ]
}

/// The markers of all control points, in order.
pub open spec fn all_markers(control_points: Seq<Point>, width: int, height: int) -> Seq<Point>
    decreases control_points.len(),
{
    if control_points.len() == 0 {
        Seq::<Point>::empty()
    } else {
        all_markers(control_points.drop_last(), width, height) + markers_of(
            control_points.last(),
            width,
            height,
        )
    }
}

/// A coordinate moved and kept on its side; see [`moved_on_side`].
fn move_on_side(v: i64, by: i64, side: usize) -> (at: i64)
    requires
        1 <= side <= MAX_SIDE,
    ensures
        at == moved_on_side(v as int, by as int, side as int),
{
    let moved: i128 = v as i128 + by as i128;
    assert(0 <= (side - 1) * UNIT <= 65_535 * 1_000_000) by (nonlinear_arith)
        requires
            1 <= side <= 65_535,
            UNIT == 1_000_000,
    ;
    let last: i128 = (side as i128 - 1) * UNIT as i128;
    if moved < 0 {
        0
    } else if moved > last {
        last as i64
    } else {
        moved as i64
    }
}

/// Appends the markers of the control points, so that a control point can
/// be told from the curve that hides it.
pub fn add_control_point_markers(
    points: &mut Vec<Point>,
    control_points: &Vec<Point>,
    width: usize,
    height: usize,
)
    requires
        1 <= width <= MAX_SIDE,
        1 <= height <= MAX_SIDE,
    ensures
        final(points)@ == old(points)@ + all_markers(
            control_points@,
            width as int,
            height as int,
        ),
{
    let mut i: usize = 0;
    assert(points@ =~= old(points)@ + all_markers(
        control_points@.take(0),
        width as int,
        height as int,
    ));
    while i < control_points.len()
        invariant
            i <= control_points@.len(),
            1 <= width <= MAX_SIDE,
            1 <= height <= MAX_SIDE,
            points@ == old(points)@ + all_markers(
                control_points@.take(i as int),
                width as int,
                height as int,
            ),
        decreases control_points@.len() - i,
    {
        let cp = control_points[i];
        let ghost before = points@;
        points.push(
            Point { x: move_on_side(cp.x, -UNIT, width), y: move_on_side(cp.y, -UNIT, height) },
        );
        points.push(
            Point { x: move_on_side(cp.x, -UNIT, width), y: move_on_side(cp.y, UNIT, height) },
        );
        points.push(
            Point { x: move_on_side(cp.x, UNIT, width), y: move_on_side(cp.y, -UNIT, height) },
        );
        points.push(
            Point { x: move_on_side(cp.x, UNIT, width), y: move_on_side(cp.y, UNIT, height) },
        );
        points.push(cp);
        proof {
            let next = control_points@.take(i + 1);
            assert(next.drop_last() =~= control_points@.take(i as int));
            assert(next.last() == cp);
            assert(points@ =~= before + markers_of(cp, width as int, height as int));
            assert(points@ =~= old(points)@ + all_markers(next, width as int, height as int));
        }
        i = i + 1;
    }
    assert(control_points@.take(i as int) =~= control_points@);
}

/// The cell of a scalar coordinate: its whole part, 0 for a negative one,
/// and at most `usize::MAX`.
pub open spec fn cell_of(v: int) -> int {
    if v <= 0 {
        0
    } else if v / (UNIT as int) > usize::MAX {
        usize::MAX as int
    } else {
        v / (UNIT as int)
    }
}

/// The cell of a scalar coordinate; see [`cell_of`].
pub fn to_cell(v: i64) -> (cell: usize)
    ensures
        cell == cell_of(v as int),
{
    if v <= 0 {
        0
    } else {
        proof {
            crate::arith::lemma_div_bounds(v as int, UNIT as int);
        }
        let whole: u64 = (v / UNIT) as u64;
        if whole > usize::MAX as u64 {
            usize::MAX
        } else {
            whole as usize
        }
    }
}

/// Cell (`row`, `col`) is the cell of one of `points`.
pub open spec fn is_marked(points: Seq<Point>, row: int, col: int) -> bool {
    exists|i: int|
        0 <= i < points.len() && cell_of((#[trigger] points[i]).y as int) == row && cell_of(
            points[i].x as int,
        ) == col
}

/// The grid of a curve: the blank grid of the picture with the cell of
/// every point lit. Its first row is the top of the picture.
pub open spec fn curve_grid(points: Seq<Point>, go: GraphOptions) -> Seq<Seq<Cell>> {
    with_lit(
        blank_grid(go.height + 1, go.width + 1),
        |r: int, c: int| is_marked(points, r, c),
    )
}

/// The text of a curve through `points`: the braille rows of its grid in
/// the frame of a curve, which names the size of the picture.
pub open spec fn curve_string(points: Seq<Point>, go: GraphOptions) -> Seq<char> {
    curve_text(
        braille_rows(curve_grid(points, go), (go.height / 4) as int, (go.width / 2) as int),
        0,
        go.width * UNIT,
        0,
        go.height * UNIT,
    )
}

/// Draws `points` on a fresh grid and returns the framed text. A point
/// outside the picture is passed over.
pub fn render_curve(points: Vec<Point>, go: &GraphOptions) -> (s: String)
    requires
        go.wf(),
    ensures
        s@ == curve_string(points@, *go),
{
    let mut matrix = make_cell_matrix(go);
    let ghost blank = rows_of(matrix@);
    let mut i: usize = 0;
    assert(rows_of(matrix@) =~~= with_lit(
        blank,
        |r: int, c: int| is_marked(points@.take(i as int), r, c),
    ));
    while i < points.len()
        invariant
            i <= points@.len(),
            rows_of(matrix@) == with_lit(
                blank,
                |r: int, c: int| is_marked(points@.take(i as int), r, c),
            ),
        decreases points@.len() - i,
    {
        let p = points[i];
        let ghost before = points@.take(i as int);
        let ghost after = points@.take(i + 1);
        light_cell(&mut matrix, to_cell(p.y), to_cell(p.x));
        proof {
            assert forall|r: int, c: int|
                is_marked(after, r, c) == (is_marked(before, r, c) || (cell_of(p.y as int) == r
                    && cell_of(p.x as int) == c)) by {
                if is_marked(after, r, c) {
                    let k = choose|k: int|
                        0 <= k < after.len() && cell_of((#[trigger] after[k]).y as int) == r
                            && cell_of(after[k].x as int) == c;
                    if k < i {
                        assert(before[k] == after[k]);
                    }
                }
                if is_marked(before, r, c) {
                    let k = choose|k: int|
                        0 <= k < before.len() && cell_of((#[trigger] before[k]).y as int) == r
                            && cell_of(before[k].x as int) == c;
                    assert(after[k] == before[k]);
                }
                if cell_of(p.y as int) == r && cell_of(p.x as int) == c {
                    assert(after[i as int] == p);
                }
            }
        }
        i = i + 1;
        assert(rows_of(matrix@) =~~= with_lit(
            blank,
            |r: int, c: int| is_marked(points@.take(i as int), r, c),
        ));
    }
    assert(points@.take(i as int) =~= points@);
    proof {
        let grid = rows_of(matrix@);
        assert(grid == curve_grid(points@, *go));
        assert(rectangular(grid));
        assert forall|r: int, c: int| 0 <= r < grid.len() && 0 <= c < grid[r].len() implies !(
        #[trigger] grid[r][c]).visited by {
            assert(!blank[r][c].visited);
        }
        assert(unvisited(grid));
    }
    let braille_chars = get_braille(go, &mut matrix);
    assert(go.width * UNIT <= 65_535 * 1_000_000 && go.height * UNIT <= 65_535 * 1_000_000)
        by (nonlinear_arith)
        requires
            go.width <= 65_535,
            go.height <= 65_535,
            UNIT == 1_000_000,
    ;
    make_curve_string(
        braille_chars,
        0,
        go.width as i64 * UNIT,
        0,
        go.height as i64 * UNIT,
    )
}

/// The points that are drawn for a quadratic curve: its start, the markers
/// of its control point, its end, and the curve itself.
pub open spec fn quadratic_points(p1: Point, p2: Point, p3: Point, go: GraphOptions) -> Seq<Point> {
    seq![p1] + all_markers(seq![p2], go.width as int, go.height as int) + seq![p3] + Seq::new(
        (STEPS + 1) as nat,
        |k: int| quadratic_point(p1, p2, p3, k),
    )
}

/// The points that are drawn for a cubic curve: its start, the markers of
/// its two control points, its end, and the curve itself.
pub open spec fn cubic_points(p1: Point, p2: Point, p3: Point, p4: Point, go: GraphOptions) -> Seq<
    Point,
> {
    seq![p1] + all_markers(seq![p2, p3], go.width as int, go.height as int) + seq![p4] + Seq::new(
        (STEPS + 1) as nat,
        |k: int| cubic_point(p1, p2, p3, p4, k),
    )
}

/// Draws the quadratic Bezier curve from `p1` to `p3` with the control
/// point `p2`. The coordinates are scalars that count cells from the upper
/// left corner of the picture.
pub fn quadratic_bezier(p1: Point, p2: Point, p3: Point, go: &GraphOptions) -> (s: String)
    requires
        go.wf(),
    ensures
        s@ == curve_string(quadratic_points(p1, p2, p3, *go), *go),
{
    let mut points: Vec<Point> = Vec::new();
    points.push(p1);
    let mut control_points: Vec<Point> = Vec::new();
    control_points.push(p2);
    assert(control_points@ =~= seq![p2]);
    add_control_point_markers(&mut points, &control_points, go.width, go.height);
    points.push(p3);
    let ghost head = points@;
    let mut n: u32 = 0;
    while n <= STEPS
        invariant
            n <= STEPS + 1,
            points@ == head + Seq::new(n as nat, |k: int| quadratic_point(p1, p2, p3, k)),
        decreases STEPS + 1 - n,
    {
        let a = interpolate_point(&p1, &p2, n);
        let b = interpolate_point(&p2, &p3, n);
        let z = interpolate_point(&a, &b, n);
        points.push(z);
        n = n + 1;
        assert(points@ =~= head + Seq::new(n as nat, |k: int| quadratic_point(p1, p2, p3, k)));
    }
    assert(points@ =~= quadratic_points(p1, p2, p3, *go));
    render_curve(points, go)
}

/// Draws the cubic Bezier curve from `p1` to `p4` with the control points
/// `p2` and `p3`. The coordinates are scalars that count cells from the
/// upper left corner of the picture.
pub fn cubic_bezier(p1: Point, p2: Point, p3: Point, p4: Point, go: &GraphOptions) -> (s: String)
    requires
        go.wf(),
    ensures
        s@ == curve_string(cubic_points(p1, p2, p3, p4, *go), *go),
{
    let mut points: Vec<Point> = Vec::new();
    points.push(p1);
    let mut control_points: Vec<Point> = Vec::new();
    control_points.push(p2);
    control_points.push(p3);
    assert(control_points@ =~= seq![p2, p3]);
    add_control_point_markers(&mut points, &control_points, go.width, go.height);
    points.push(p4);
    let ghost head = points@;
    let mut n: u32 = 0;
    while n <= STEPS
        invariant
            n <= STEPS + 1,
            points@ == head + Seq::new(n as nat, |k: int| cubic_point(p1, p2, p3, p4, k)),
        decreases STEPS + 1 - n,
    {
        let a = interpolate_point(&p1, &p2, n);
        let b = interpolate_point(&p2, &p3, n);
        let c = interpolate_point(&p3, &p4, n);
        let d = interpolate_point(&a, &b, n);
        let e = interpolate_point(&b, &c, n);
        let z = interpolate_point(&d, &e, n);
        points.push(z);
        n = n + 1;
        assert(points@ =~= head + Seq::new(n as nat, |k: int| cubic_point(p1, p2, p3, p4, k)));
    }
    assert(points@ =~= cubic_points(p1, p2, p3, p4, *go));
    render_curve(points, go)
}

} // verus!
