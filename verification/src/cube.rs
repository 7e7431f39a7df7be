//! A wireframe cube that turns about its centre.

use crate::arith::{div_round, round_div};
use crate::bezier_curve::{cell_of, to_cell};
use crate::braille::{braille_rows, get_braille, rectangular};
use crate::common::{
    blank_grid, make_cell_matrix, rows_of, with_lit, Cell, GraphOptions, UNIT,
};
use crate::line::{draw_line, on_line};
use crate::string_maker::{count_lines, line_count, push_chars};
use vstd::prelude::*;

verus! {

/// A point of space; the three coordinates are scalars that count cells.
#[derive(Debug, Clone, Copy, PartialEq, Eq, Structural)]
pub struct Vertex {
    pub x: i64,
    pub y: i64,
    pub z: i64,
}

/// A rotation about the three axes in turn, given by the sine and the
/// cosine of each angle as scalars.
#[derive(Debug, Clone, Copy, PartialEq, Eq, Structural)]
pub struct Rotation {
    pub sin_x: i64,
    pub cos_x: i64,
    pub sin_y: i64,
    pub cos_y: i64,
    pub sin_z: i64,
    pub cos_z: i64,
}

impl Rotation {
    /// No sine or cosine is beyond one.
    pub open spec fn wf(&self) -> bool {
        &&& -UNIT <= self.sin_x <= UNIT
        &&& -UNIT <= self.cos_x <= UNIT
        &&& -UNIT <= self.sin_y <= UNIT
        &&& -UNIT <= self.cos_y <= UNIT
        &&& -UNIT <= self.sin_z <= UNIT
        &&& -UNIT <= self.cos_z <= UNIT
    }

    /// Tests [`Rotation::wf`].
    pub fn is_valid(&self) -> (ok: bool)
        ensures
            ok == self.wf(),
    {
        -UNIT <= self.sin_x && self.sin_x <= UNIT && -UNIT <= self.cos_x && self.cos_x <= UNIT
            && -UNIT <= self.sin_y && self.sin_y <= UNIT && -UNIT <= self.cos_y && self.cos_y
            <= UNIT && -UNIT <= self.sin_z && self.sin_z <= UNIT && -UNIT <= self.cos_z
            && self.cos_z <= UNIT
    }
}

/// The rotation of one step of the animation: by 1.2 degrees about the
/// first axis, 1.5 about the second and -1.8 about the third.
pub open spec fn step_rotation_spec() -> Rotation {
    Rotation {
        sin_x: 20_942,
        cos_x: 999_781,
        sin_y: 26_177,
        cos_y: 999_657,
        sin_z: -31_411i64,
        cos_z: 999_507,
    }
}

/// The rotation of one step of the animation; see [`step_rotation_spec`].
pub fn step_rotation() -> (r: Rotation)
    ensures
        r.wf(),
        r == step_rotation_spec(),
{
    Rotation {
        sin_x: 20_942,
        cos_x: 999_781,
        sin_y: 26_177,
        cos_y: 999_657,
        sin_z: -31_411,
        cos_z: 999_507,
    }
}

/// `a * p + b * q` for two coordinates and two scalars of a rotation,
/// rounded to the nearest step of a scalar.
pub open spec fn mix(a: int, p: int, b: int, q: int) -> int {
    round_div(a * p + b * q, UNIT as int)
}

/// `v`, brought into the range of `i64`.
pub open spec fn clamped(v: int) -> int {
    if v < i64::MIN {
        i64::MIN as int
    } else if v > i64::MAX {
        i64::MAX as int
    } else {
        v
    }
}

/// `v` turned about `anchor`: moved so that the anchor is the origin,
/// turned about the first axis, then the second, then the third, each turn
/// applied to the result of the one before, and moved back.
pub open spec fn rotated(v: Vertex, anchor: Vertex, r: Rotation) -> Vertex {
    let x = v.x - anchor.x;
    let y = v.y - anchor.y;
    let z = v.z - anchor.z;
    let y_on_x = mix(y, r.cos_x as int, z, -r.sin_x);
    let z_on_x = mix(y, r.sin_x as int, z, r.cos_x as int);
    let z_on_y = mix(z_on_x, r.cos_y as int, x, -r.sin_y);
    let x_on_y = mix(x, r.cos_y as int, z_on_x, r.sin_y as int);
    Vertex {
        x: clamped(mix(x_on_y, r.cos_z as int, y_on_x, -r.sin_z) + anchor.x) as i64,
        y: clamped(mix(x_on_y, r.sin_z as int, y_on_x, r.cos_z as int) + anchor.y) as i64,
        z: clamped(z_on_y + anchor.z) as i64,
    }
}

/// A turn does not lengthen a pair of coordinates by more than their sum.
proof fn lemma_mix_bound(a: int, p: int, b: int, q: int, limit: int)
    requires
        -limit <= a <= limit,
        -limit <= b <= limit,
        -UNIT <= p <= UNIT,
        -UNIT <= q <= UNIT,
        limit >= 0,
    ensures
        -2 * limit - 1 <= mix(a, p, b, q) <= 2 * limit + 1,
        -2 * limit * UNIT <= a * p + b * q <= 2 * limit * UNIT,
{
    assert(-limit * UNIT <= a * p <= limit * UNIT) by (nonlinear_arith)
        requires
            -limit <= a <= limit,
            -UNIT <= p <= UNIT,
            limit >= 0,
    ;
    assert(-limit * UNIT <= b * q <= limit * UNIT) by (nonlinear_arith)
        requires
            -limit <= b <= limit,
            -UNIT <= q <= UNIT,
            limit >= 0,
    ;
    let num = a * p + b * q;
    crate::arith::lemma_div_bounds(2 * num + UNIT, 2 * UNIT);
    let m = mix(a, p, b, q);
    assert(m * (2 * UNIT) <= 2 * num + UNIT < m * (2 * UNIT) + 2 * UNIT);
    assert(m <= 2 * limit + 1) by (nonlinear_arith)
        requires
            m * (2 * UNIT) <= 2 * num + UNIT,
            num <= 2 * limit * UNIT,
            UNIT == 1_000_000,
    ;
    assert(m >= -2 * limit - 1) by (nonlinear_arith)
        requires
            2 * num + UNIT < m * (2 * UNIT) + 2 * UNIT,
            num >= -2 * limit * UNIT,
            UNIT == 1_000_000,
    ;
}

/// One pair of products of a turn; see [`mix`].
fn mix_of(a: i128, p: i64, b: i128, q: i64) -> (m: i128)
    requires
        -0x10_0000_0000_0000_0000 <= a <= 0x10_0000_0000_0000_0000,
        -0x10_0000_0000_0000_0000 <= b <= 0x10_0000_0000_0000_0000,
        -UNIT <= p <= UNIT,
        -UNIT <= q <= UNIT,
    ensures
        m == mix(a as int, p as int, b as int, q as int),
{
    proof {
        lemma_mix_bound(a as int, p as int, b as int, q as int, 0x10_0000_0000_0000_0000);
        assert(-0x10_0000_0000_0000_0000 * UNIT <= a * p <= 0x10_0000_0000_0000_0000 * UNIT)
            by (nonlinear_arith)
            requires
                -0x10_0000_0000_0000_0000 <= a <= 0x10_0000_0000_0000_0000,
                -UNIT <= p <= UNIT,
        ;
        assert(-0x10_0000_0000_0000_0000 * UNIT <= b * q <= 0x10_0000_0000_0000_0000 * UNIT)
            by (nonlinear_arith)
            requires
                -0x10_0000_0000_0000_0000 <= b <= 0x10_0000_0000_0000_0000,
                -UNIT <= q <= UNIT,
        ;
    }
    div_round(a * p as i128 + b * q as i128, UNIT as i128)
}

/// A coordinate brought into the range of `i64`; see [`clamped`].
fn clamp(v: i128) -> (c: i64)
    ensures
        c == clamped(v as int),
{
    if v < i64::MIN as i128 {
        i64::MIN
    } else if v > i64::MAX as i128 {
        i64::MAX
    } else {
        v as i64
    }
}

/// One vertex turned about the anchor; see [`rotated`].
pub fn rotate_vertex(v: &Vertex, anchor: &Vertex, r: &Rotation) -> (turned: Vertex)
    requires
        r.wf(),
    ensures
        turned == rotated(*v, *anchor, *r),
{
    let x: i128 = v.x as i128 - anchor.x as i128;
    let y: i128 = v.y as i128 - anchor.y as i128;
    let z: i128 = v.z as i128 - anchor.z as i128;
    proof {
        lemma_mix_bound(
            y as int,
            r.cos_x as int,
            z as int,
            -r.sin_x,
            0x1_0000_0000_0000_0000,
        );
        lemma_mix_bound(
            y as int,
            r.sin_x as int,
            z as int,
            r.cos_x as int,
            0x1_0000_0000_0000_0000,
        );
    }
    let y_on_x = mix_of(y, r.cos_x, z, -r.sin_x);
    let z_on_x = mix_of(y, r.sin_x, z, r.cos_x);
    proof {
        lemma_mix_bound(
            z_on_x as int,
            r.cos_y as int,
            x as int,
            -r.sin_y,
            0x2_0000_0000_0000_0001,
        );
        lemma_mix_bound(
            x as int,
            r.cos_y as int,
            z_on_x as int,
            r.sin_y as int,
            0x2_0000_0000_0000_0001,
        );
    }
    let z_on_y = mix_of(z_on_x, r.cos_y, x, -r.sin_y);
    let x_on_y = mix_of(x, r.cos_y, z_on_x, r.sin_y);
    proof {
        lemma_mix_bound(
            x_on_y as int,
            r.cos_z as int,
            y_on_x as int,
            -r.sin_z,
            0x4_0000_0000_0000_0003,
        );
        lemma_mix_bound(
            x_on_y as int,
            r.sin_z as int,
            y_on_x as int,
            r.cos_z as int,
            0x4_0000_0000_0000_0003,
        );
    }
    let new_x = mix_of(x_on_y, r.cos_z, y_on_x, -r.sin_z);
    let new_y = mix_of(x_on_y, r.sin_z, y_on_x, r.cos_z);
    Vertex {
        x: clamp(new_x + anchor.x as i128),
        y: clamp(new_y + anchor.y as i128),
        z: clamp(z_on_y + anchor.z as i128),
    }
}

/// Turns every vertex about the anchor, which stays where it is.
pub fn rotate_points(points: &mut Vec<Vertex>, anchor: &Vertex, r: &Rotation)
    requires
        r.wf(),
    ensures
        final(points)@ == old(points)@.map_values(|v: Vertex| rotated(v, *anchor, *r)),
{
    let mut i: usize = 0;
    while i < points.len()
        invariant
            i <= points@.len(),
            r.wf(),
            points@.len() == old(points)@.len(),
            forall|k: int| 0 <= k < i ==> points@[k] == rotated(old(points)@[k], *anchor, *r),
            forall|k: int| i <= k < points@.len() ==> points@[k] == old(points)@[k],
        decreases points@.len() - i,
    {
        let turned = rotate_vertex(&points[i], anchor, r);
        points[i] = turned;
        i = i + 1;
    }
    assert(points@ =~= old(points)@.map_values(|v: Vertex| rotated(v, *anchor, *r)));
}

/// An edge of a wireframe: the indices of the two vertices it joins.
#[derive(Debug, Clone, Copy, PartialEq, Eq, Structural)]
pub struct Edge {
    pub from: usize,
    pub to: usize,
}

/// Every edge joins two of `count` vertices.
pub open spec fn edges_fit(edges: Seq<Edge>, count: int) -> bool {
    forall|i: int|
        0 <= i < edges.len() ==> (#[trigger] edges[i]).from < count && edges[i].to < count
}

/// Tests [`edges_fit`].
pub fn edges_join(edges: &Vec<Edge>, count: usize) -> (ok: bool)
    ensures
        ok == edges_fit(edges@, count as int),
{
    let mut i: usize = 0;
    while i < edges.len()
        invariant
            i <= edges@.len(),
            forall|k: int|
                0 <= k < i ==> (#[trigger] edges@[k]).from < count && edges@[k].to < count,
        decreases edges@.len() - i,
    {
        if edges[i].from >= count || edges[i].to >= count {
            return false;
        }
        i = i + 1;
    }
    true
}

/// Cell (`row`, `col`) lies on edge `e`, drawn from the cell of one vertex
/// to the cell of the other. Depth plays no part.
pub open spec fn on_edge(p: Seq<Vertex>, e: Edge, row: int, col: int) -> bool {
    on_line(
        cell_of(p[e.from as int].x as int),
        cell_of(p[e.from as int].y as int),
        cell_of(p[e.to as int].x as int),
        cell_of(p[e.to as int].y as int),
        row,
        col,
    )
}

/// `grid` with all `edges` drawn.
pub open spec fn with_edges(grid: Seq<Seq<Cell>>, p: Seq<Vertex>, edges: Seq<Edge>) -> Seq<
    Seq<Cell>,
>
    decreases edges.len(),
{
    if edges.len() == 0 {
        grid
    } else {
        with_lit(
            with_edges(grid, p, edges.drop_last()),
            |r: int, c: int| on_edge(p, edges.last(), r, c),
        )
    }
}

/// Rows of characters as lines of text, each ended by a line feed.
pub open spec fn lines_of(chars: Seq<Seq<char>>) -> Seq<char>
    decreases chars.len(),
{
    if chars.len() == 0 {
        Seq::<char>::empty()
    } else {
        lines_of(chars.drop_last()) + chars.last() + seq!['\n']
    }
}

/// The frame that shows the wireframe with vertices `p`.
pub open spec fn wireframe_text(go: GraphOptions, p: Seq<Vertex>, edges: Seq<Edge>) -> Seq<char> {
    lines_of(
        braille_rows(
            with_edges(blank_grid(go.height + 1, go.width + 1), p, edges),
            (go.height / 4) as int,
            (go.width / 2) as int,
        ),
    )
}

/// Drawing edges keeps the shape of a grid and marks nothing.
proof fn lemma_with_edges_is_fresh(
    grid: Seq<Seq<Cell>>,
    p: Seq<Vertex>,
    edges: Seq<Edge>,
    rows: int,
    cols: int,
)
    requires
        crate::graph::is_fresh(grid, rows, cols),
    ensures
        crate::graph::is_fresh(with_edges(grid, p, edges), rows, cols),
    decreases edges.len(),
{
    if edges.len() > 0 {
        lemma_with_edges_is_fresh(grid, p, edges.drop_last(), rows, cols);
        crate::graph::lemma_with_lit_is_fresh(
            with_edges(grid, p, edges.drop_last()),
            |r: int, c: int| on_edge(p, edges.last(), r, c),
            rows,
            cols,
        );
    }
}

/// Draws one frame: every edge as a line between the cells of its two
/// vertices, on a fresh grid, encoded in braille, one line of text per row.
pub fn make_cube(go: &GraphOptions, p: &Vec<Vertex>, edges: &Vec<Edge>) -> (frame: String)
    requires
        go.wf(),
        edges_fit(edges@, p@.len() as int),
    ensures
        frame@ == wireframe_text(*go, p@, edges@),
{
    let mut matrix = make_cell_matrix(go);
    let ghost blank = rows_of(matrix@);
    let mut i: usize = 0;
    while i < edges.len()
        invariant
            i <= edges@.len(),
            edges_fit(edges@, p@.len() as int),
            rows_of(matrix@) == with_edges(blank, p@, edges@.take(i as int)),
        decreases edges@.len() - i,
    {
        let edge = edges[i];
        let p_1 = p[edge.from];
        let p_2 = p[edge.to];
        draw_line(&mut matrix, to_cell(p_1.x), to_cell(p_1.y), to_cell(p_2.x), to_cell(p_2.y));
        proof {
            assert(edges@.take(i + 1).drop_last() =~= edges@.take(i as int));
            assert(edges@.take(i + 1).last() == edge);
            assert(rows_of(matrix@) =~~= with_edges(blank, p@, edges@.take(i + 1)));
        }
        i = i + 1;
    }
    assert(edges@.take(i as int) =~= edges@);
    proof {
        lemma_with_edges_is_fresh(blank, p@, edges@, go.height + 1, go.width + 1);
        assert(rectangular(rows_of(matrix@)));
    }
    let braille_chars = get_braille(go, &mut matrix);
    let mut lines = String::new();
    let mut k: usize = 0;
    assert(lines@ =~= lines_of(rows_of(braille_chars@).take(0)));
    while k < braille_chars.len()
        invariant
            k <= braille_chars@.len(),
            lines@ == lines_of(rows_of(braille_chars@).take(k as int)),
        decreases braille_chars@.len() - k,
    {
        push_chars(&mut lines, &braille_chars[k]);
        lines.push('\n');
        proof {
            let next = rows_of(braille_chars@).take(k + 1);
            assert(next.drop_last() =~= rows_of(braille_chars@).take(k as int));
            assert(next.last() == braille_chars@[k as int]@);
        }
        k = k + 1;
    }
    assert(rows_of(braille_chars@).take(k as int) =~= rows_of(braille_chars@));
    lines
}

/// A wireframe: its vertices, the edges between them, and the anchor about
/// which it turns. The anchor is no vertex and is never turned.
#[derive(Debug, Clone, PartialEq, Eq)]
pub struct Wireframe {
    pub vertices: Vec<Vertex>,
    pub edges: Vec<Edge>,
    pub anchor: Vertex,
}

/// The length of the edges of the cube in a picture, in cells: a quarter
/// of the shorter side.
pub open spec fn cube_edge(go: GraphOptions) -> int {
    if go.height / 4 < go.width / 4 {
        (go.height / 4) as int
    } else {
        (go.width / 4) as int
    }
}

/// The eight corners of the cube: its front face begins a quarter of the
/// picture from the left and from the top, and lies half an edge before the
/// plane of the picture; the back face lies half an edge behind it.
pub open spec fn cube_vertices(go: GraphOptions) -> Seq<Vertex> {
    let left = (go.width / 4) * UNIT;
    let top = (go.height / 4) * UNIT;
    let edge = cube_edge(go) * UNIT;
    let depth = edge / 2;
    seq![
        Vertex { x: left as i64, y: top as i64, z: depth as i64 },
        Vertex { x: left as i64, y: (top + edge) as i64, z: depth as i64 },
        Vertex { x: (left + edge) as i64, y: top as i64, z: depth as i64 },
        Vertex { x: (left + edge) as i64, y: (top + edge) as i64, z: depth as i64 },
        Vertex { x: left as i64, y: top as i64, z: (-depth) as i64 },
        Vertex { x: left as i64, y: (top + edge) as i64, z: (-depth) as i64 },
        Vertex { x: (left + edge) as i64, y: top as i64, z: (-depth) as i64 },
        Vertex { x: (left + edge) as i64, y: (top + edge) as i64, z: (-depth) as i64 },
    ]
}

/// The centre of the cube.
pub open spec fn cube_anchor(go: GraphOptions) -> Vertex {
    let left = (go.width / 4) * UNIT;
    let top = (go.height / 4) * UNIT;
    let edge = cube_edge(go) * UNIT;
    Vertex { x: ((2 * left + edge) / 2) as i64, y: ((2 * top + edge) / 2) as i64, z: 0 }
}

/// The twelve edges of the cube: four of the front face, four of the back
/// face, and four between the faces.
pub open spec fn cube_edges() -> Seq<Edge> {
    seq![
        Edge { from: 0, to: 1 },
        Edge { from: 1, to: 3 },
        Edge { from: 3, to: 2 },
        Edge { from: 2, to: 0 },
        Edge { from: 4, to: 5 },
        Edge { from: 5, to: 7 },
        Edge { from: 7, to: 6 },
        Edge { from: 6, to: 4 },
        Edge { from: 0, to: 4 },
        Edge { from: 1, to: 5 },
        Edge { from: 2, to: 6 },
        Edge { from: 3, to: 7 },
    ]
}

/// The cube of a picture, before it has turned.
pub fn cube_wireframe(go: &GraphOptions) -> (cube: Wireframe)
    requires
        go.wf(),
    ensures
        cube.vertices@ == cube_vertices(*go),
        cube.edges@ == cube_edges(),
        cube.anchor == cube_anchor(*go),
        edges_fit(cube.edges@, cube.vertices@.len() as int),
{
    let ver_gap = go.height / 4;
    let hor_gap = go.width / 4;
    let edge_length = if ver_gap < hor_gap {
        ver_gap
    } else {
        hor_gap
    };
    assert(hor_gap * UNIT <= 16_383 * 1_000_000 && ver_gap * UNIT <= 16_383 * 1_000_000
        && edge_length * UNIT <= 16_383 * 1_000_000) by (nonlinear_arith)
        requires
            hor_gap <= 16_383,
            ver_gap <= 16_383,
            edge_length <= 16_383,
            UNIT == 1_000_000,
    ;
    let left: i64 = hor_gap as i64 * UNIT;
    let top: i64 = ver_gap as i64 * UNIT;
    let edge: i64 = edge_length as i64 * UNIT;
    let depth: i64 = edge / 2;
    let mut vertices: Vec<Vertex> = Vec::new();
    vertices.push(Vertex { x: left, y: top, z: depth });
    vertices.push(Vertex { x: left, y: top + edge, z: depth });
    vertices.push(Vertex { x: left + edge, y: top, z: depth });
    vertices.push(Vertex { x: left + edge, y: top + edge, z: depth });
    vertices.push(Vertex { x: left, y: top, z: -depth });
    vertices.push(Vertex { x: left, y: top + edge, z: -depth });
    vertices.push(Vertex { x: left + edge, y: top, z: -depth });
    vertices.push(Vertex { x: left + edge, y: top + edge, z: -depth });
    let mut edges: Vec<Edge> = Vec::new();
    edges.push(Edge { from: 0, to: 1 });
    edges.push(Edge { from: 1, to: 3 });
    edges.push(Edge { from: 3, to: 2 });
    edges.push(Edge { from: 2, to: 0 });
    edges.push(Edge { from: 4, to: 5 });
    edges.push(Edge { from: 5, to: 7 });
    edges.push(Edge { from: 7, to: 6 });
    edges.push(Edge { from: 6, to: 4 });
    edges.push(Edge { from: 0, to: 4 });
    edges.push(Edge { from: 1, to: 5 });
    edges.push(Edge { from: 2, to: 6 });
    edges.push(Edge { from: 3, to: 7 });
    assert(vertices@ =~= cube_vertices(*go));
    assert(edges@ =~= cube_edges());
    Wireframe {
        vertices,
        edges,
        anchor: Vertex { x: (2 * left + edge) / 2, y: (2 * top + edge) / 2, z: 0 },
    }
}

/// What the terminal reports between two frames.
#[derive(Debug, Clone, Copy, PartialEq, Eq, Structural)]
pub enum CubeEvent {
    /// The wait for input ran out: it is time for the next frame.
    Tick,
    /// The key that ends the animation was pressed.
    Quit,
    /// Some other input arrived.
    OtherInput,
}

/// What the caller does after an event.
#[derive(Debug, Clone, PartialEq, Eq)]
pub enum CubeAction {
    /// Move the cursor up by `move_up` lines and print `frame` over the last
    /// one.
    Redraw { move_up: usize, frame: String },
    /// Nothing: wait for the next event.
    Wait,
    /// Leave the loop.
    Stop,
}

/// The animation of the cube between two events.
#[derive(Debug, Clone, PartialEq, Eq)]
pub struct CubeAnimation {
    pub cube: Wireframe,
    /// The lines of a frame: how far the cursor moves up before the next one.
    pub lines: usize,
    /// The animation has ended.
    pub stopped: bool,
}

impl CubeAnimation {
    /// The edges join vertices that are there.
    pub open spec fn wf(&self) -> bool {
        edges_fit(self.cube.edges@, self.cube.vertices@.len() as int)
    }

    /// Tests [`CubeAnimation::wf`].
    pub fn is_valid(&self) -> (ok: bool)
        ensures
            ok == self.wf(),
    {
        edges_join(&self.cube.edges, self.cube.vertices.len())
    }

    /// Begins the animation: the cube as it stands, and its first frame.
    pub fn start(go: &GraphOptions) -> (begun: (CubeAnimation, String))
        requires
            go.wf(),
        ensures
            begun.0.wf(),
            !begun.0.stopped,
            begun.0.cube.vertices@ == cube_vertices(*go),
            begun.0.cube.edges@ == cube_edges(),
            begun.0.cube.anchor == cube_anchor(*go),
            begun.1@ == wireframe_text(*go, cube_vertices(*go), cube_edges()),
            begun.0.lines == line_count(begun.1@),
    {
        let cube = cube_wireframe(go);
        let frame = make_cube(go, &cube.vertices, &cube.edges);
        let lines = count_lines(frame.as_str());
        (CubeAnimation { cube, lines, stopped: false }, frame)
    }

    /// One step of the animation. The key that ends it stops it for good. A
    /// tick turns the cube by [`step_rotation`] and asks for the new frame to
    /// be drawn over the last. Any other input changes nothing.
    pub fn step(&mut self, go: &GraphOptions, event: CubeEvent) -> (action: CubeAction)
        requires
            go.wf(),
            old(self).wf(),
        ensures
            final(self).wf(),
            final(self).lines == old(self).lines,
            final(self).cube.edges == old(self).cube.edges,
            final(self).cube.anchor == old(self).cube.anchor,
            final(self).stopped == (old(self).stopped || event == CubeEvent::Quit),
            final(self).stopped ==> action == CubeAction::Stop && final(self).cube.vertices
                == old(self).cube.vertices,
            !final(self).stopped && event == CubeEvent::OtherInput ==> action == CubeAction::Wait
                && final(self).cube.vertices == old(self).cube.vertices,
            !final(self).stopped && event == CubeEvent::Tick ==> {
                &&& final(self).cube.vertices@ == old(self).cube.vertices@.map_values(
                    |v: Vertex| rotated(v, old(self).cube.anchor, step_rotation_spec()),
                )
                &&& action matches CubeAction::Redraw { move_up, frame }
                &&& move_up == old(self).lines
                &&& frame@ == wireframe_text(
                    *go,
                    final(self).cube.vertices@,
                    old(self).cube.edges@,
                )
            },
    {
        if self.stopped {
            return CubeAction::Stop;
        }
        match event {
            CubeEvent::Quit => {
                self.stopped = true;
                CubeAction::Stop
            },
            CubeEvent::OtherInput => CubeAction::Wait,
            CubeEvent::Tick => {
                let r = step_rotation();
                rotate_points(&mut self.cube.vertices, &self.cube.anchor, &r);
                let frame = make_cube(go, &self.cube.vertices, &self.cube.edges);
                CubeAction::Redraw { move_up: self.lines, frame }
            },
        }
    }
}

} // verus!
