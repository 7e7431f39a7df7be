//! A graph of sampled curves from the samples to the framed text.

use crate::braille::{braille_rows, get_braille, rectangular, unvisited};
use crate::common::{
    blank_grid, make_cell_matrix, rows_of, with_lit, Cell, GraphOptions, NormalizedPoint,
};
use crate::graphing::{
    check_add_tick_marks, check_add_x_axis, check_add_y_axis, get_normalized_points, is_plotted,
    normalized_points, on_tick, on_x_axis, on_y_axis, plot_points, reverse_rows, SamplingFactor,
};
use crate::samples::{get_window, sanitize, sanitized, window_bottom, window_top, Sample};
use crate::string_maker::{chars_of, graph_text, make_graph_string, plain, push_plain};
use vstd::prelude::*;
use vstd::string::StringExecFns;

verus! {

/// The sampling factor of a picture is its width divided by this: a curve
/// is sampled `width / 16` times for each column.
pub const SAMPLING_DIVISOR: usize = 16;

/// Why a graph was not drawn.
#[derive(Debug, Clone, Copy, PartialEq, Eq, Structural)]
pub enum GraphError {
    /// The window has no extent: `x_min` is not less than `x_max`.
    DegenerateViewport { x_min: i64, x_max: i64 },
}

impl GraphError {
    /// The words for the error.
    pub open spec fn text(&self) -> Seq<char> {
        match *self {
            GraphError::DegenerateViewport { x_min, x_max } => "x min `"@ + plain(x_min as int)
                + "` must be less than x max `"@ + plain(x_max as int) + "`"@,
        }
    }

    /// The error in words, naming both ends of the window.
    pub fn message(&self) -> (words: String)
        ensures
            words@ == self.text(),
    {
        match *self {
            GraphError::DegenerateViewport { x_min, x_max } => {
                let mut words = String::new();
                words.append("x min `");
                push_plain(&mut words, x_min);
                words.append("` must be less than x max `");
                push_plain(&mut words, x_max);
                words.append("`");
                assert(words@ =~= self.text());
                words
            },
        }
    }
}

/// Tests the window before anything is drawn: it must have an extent.
pub fn check_viewport(x_min: i64, x_max: i64) -> (checked: Result<(), GraphError>)
    ensures
        x_min < x_max ==> checked == Ok::<(), GraphError>(()),
        x_min >= x_max ==> checked == Err::<(), GraphError>(
            GraphError::DegenerateViewport { x_min, x_max },
        ),
{
    if x_min < x_max {
        Ok(())
    } else {
        Err(GraphError::DegenerateViewport { x_min, x_max })
    }
}

/// The pieces of `text` between the separators `sep`: one more than there
/// are separators, and empty where two separators meet or one stands at an
/// end.
pub open spec fn split_on(text: Seq<char>, sep: char) -> Seq<Seq<char>>
    decreases text.len(),
{
    if text.len() == 0 {
        seq![Seq::<char>::empty()]
    } else {
        let before = split_on(text.drop_last(), sep);
        if text.last() == sep {
            before.push(Seq::<char>::empty())
        } else {
            before.drop_last().push(before.last().push(text.last()))
        }
    }
}

/// The views of a vector of strings.
pub open spec fn strings_of(items: Seq<String>) -> Seq<Seq<char>> {
    Seq::new(items.len(), |i: int| items[i]@)
}

/// Splitting gives at least one piece.
pub proof fn lemma_split_on_has_pieces(text: Seq<char>, sep: char)
    ensures
        split_on(text, sep).len() >= 1,
    decreases text.len(),
{
    if text.len() > 0 {
        lemma_split_on_has_pieces(text.drop_last(), sep);
    }
}

/// The equations of a request: several may be given at once, with `|`
/// between them, to be drawn over one another.
pub fn split_equations(eq_str: &str) -> (eqs: Vec<String>)
    ensures
        strings_of(eqs@) == split_on(eq_str@, '|'),
        eqs@.len() >= 1,
{
    proof {
        lemma_split_on_has_pieces(eq_str@, '|');
    }
    let chars = chars_of(eq_str);
    let mut eqs: Vec<String> = Vec::new();
    let mut current = String::new();
    let mut i: usize = 0;
    assert(strings_of(eqs@).push(current@) =~= split_on(chars@.take(0), '|'));
    while i < chars.len()
        invariant
            i <= chars@.len(),
            strings_of(eqs@).push(current@) == split_on(chars@.take(i as int), '|'),
        decreases chars@.len() - i,
    {
        let ghost before = split_on(chars@.take(i as int), '|');
        assert(chars@.take(i + 1).drop_last() =~= chars@.take(i as int));
        let c = chars[i];
        if c == '|' {
            eqs.push(current);
            current = String::new();
            assert(strings_of(eqs@) =~= before);
        } else {
            current.push(c);
            assert(strings_of(eqs@) =~= before.drop_last());
        }
        i = i + 1;
        assert(strings_of(eqs@).push(current@) =~= split_on(chars@.take(i as int), '|'));
    }
    assert(chars@.take(i as int) =~= chars@);
    eqs.push(current);
    assert(strings_of(eqs@) =~= split_on(eq_str@, '|'));
    eqs
}

/// The sampling factor of a picture.
pub open spec fn sampling_of(go: GraphOptions) -> SamplingFactor {
    SamplingFactor { samples: go.width, columns: SAMPLING_DIVISOR }
}

/// The step between two samples as a fraction of the extent of the window,
/// the numerator first: one over the width times the sampling factor.
pub fn x_step_fraction(go: &GraphOptions) -> (fraction: (u64, u64))
    requires
        go.wf(),
    ensures
        fraction.0 == SAMPLING_DIVISOR,
        fraction.1 == go.width * go.width,
{
    assert(go.width * go.width <= 65_535 * 65_535) by (nonlinear_arith)
        requires
            go.width <= 65_535,
    ;
    (SAMPLING_DIVISOR as u64, go.width as u64 * go.width as u64)
}

/// The cells of one curve in the window from `bottom` to `top`: its
/// samples, made whole, and normalized.
pub open spec fn curve_cells(
    samples: Seq<Sample>,
    go: GraphOptions,
    bottom: int,
    top: int,
) -> Seq<NormalizedPoint> {
    normalized_points(
        go.height as int,
        bottom,
        top,
        samples.map_values(|s: Sample| sanitized(s)),
        sampling_of(go),
    )
}

/// `grid` with the visible samples of all `curves` lit.
pub open spec fn with_curves(
    grid: Seq<Seq<Cell>>,
    curves: Seq<Seq<Sample>>,
    go: GraphOptions,
    bottom: int,
    top: int,
) -> Seq<Seq<Cell>>
    decreases curves.len(),
{
    if curves.len() == 0 {
        grid
    } else {
        with_lit(
            with_curves(grid, curves.drop_last(), go, bottom, top),
            |r: int, c: int|
                is_plotted(curve_cells(curves.last(), go, bottom, top), bottom, top, r, c),
        )
    }
}

/// The grid of a graph, as the encoder gets it. Four overlays are laid on
/// the blank grid in this order: the tick marks, the curves, the horizontal
/// axis; then the grid is turned upside down, so that its first row is the
/// top of the picture; and last comes the vertical axis.
pub open spec fn graph_grid(
    curves: Seq<Seq<Sample>>,
    x_min: int,
    x_max: int,
    go: GraphOptions,
) -> Seq<Seq<Cell>> {
    let bottom = window_bottom(go, curves);
    let top = window_top(go, curves);
    let blank = blank_grid(go.height + 1, go.width + 1);
    let ticked = with_lit(
        blank,
        |r: int, c: int| on_tick(blank, x_min, x_max, bottom, top, go, r, c),
    );
    let drawn = with_curves(ticked, curves, go, bottom, top);
    let lined = with_lit(drawn, |r: int, c: int| on_x_axis(bottom, top, go.height as int, r, c));
    with_lit(lined.reverse(), |r: int, c: int| on_y_axis(x_min, x_max, go.width as int, r, c))
}

/// The text of a graph: the braille rows of its grid in their frame.
pub open spec fn graph_string(
    curves: Seq<Seq<Sample>>,
    x_min: int,
    x_max: int,
    go: GraphOptions,
) -> Seq<char> {
    graph_text(
        braille_rows(
            graph_grid(curves, x_min, x_max, go),
            (go.height / 4) as int,
            (go.width / 2) as int,
        ),
        x_min,
        x_max,
        window_bottom(go, curves),
        window_top(go, curves),
    )
}

/// A grid of `rows` by `cols` cells none of which is marked as visited.
pub open spec fn is_fresh(grid: Seq<Seq<Cell>>, rows: int, cols: int) -> bool {
    &&& grid.len() == rows
    &&& forall|r: int| 0 <= r < grid.len() ==> (#[trigger] grid[r]).len() == cols
    &&& unvisited(grid)
}

/// Lighting cells keeps the shape of a grid and marks nothing.
pub proof fn lemma_with_lit_is_fresh(
    grid: Seq<Seq<Cell>>,
    on: spec_fn(int, int) -> bool,
    rows: int,
    cols: int,
)
    requires
        is_fresh(grid, rows, cols),
    ensures
        is_fresh(with_lit(grid, on), rows, cols),
{
    let lit = with_lit(grid, on);
    assert forall|r: int, c: int| 0 <= r < lit.len() && 0 <= c < lit[r].len() implies !(
    #[trigger] lit[r][c]).visited by {
        assert(!grid[r][c].visited);
    }
}

/// Drawing curves keeps the shape of a grid and marks nothing.
pub proof fn lemma_with_curves_is_fresh(
    grid: Seq<Seq<Cell>>,
    curves: Seq<Seq<Sample>>,
    go: GraphOptions,
    bottom: int,
    top: int,
    rows: int,
    cols: int,
)
    requires
        is_fresh(grid, rows, cols),
    ensures
        is_fresh(with_curves(grid, curves, go, bottom, top), rows, cols),
    decreases curves.len(),
{
    if curves.len() > 0 {
        lemma_with_curves_is_fresh(grid, curves.drop_last(), go, bottom, top, rows, cols);
        lemma_with_lit_is_fresh(
            with_curves(grid, curves.drop_last(), go, bottom, top),
            |r: int, c: int|
                is_plotted(curve_cells(curves.last(), go, bottom, top), bottom, top, r, c),
            rows,
            cols,
        );
    }
}

/// Turning a grid upside down keeps its shape and marks nothing.
pub proof fn lemma_reverse_is_fresh(grid: Seq<Seq<Cell>>, rows: int, cols: int)
    requires
        is_fresh(grid, rows, cols),
    ensures
        is_fresh(grid.reverse(), rows, cols),
{
    let turned = grid.reverse();
    assert forall|r: int| 0 <= r < turned.len() implies (#[trigger] turned[r]).len() == cols by {
        assert(turned[r] == grid[grid.len() - 1 - r]);
    }
    assert forall|r: int, c: int| 0 <= r < turned.len() && 0 <= c < turned[r].len() implies !(
    #[trigger] turned[r][c]).visited by {
        assert(turned[r] == grid[grid.len() - 1 - r]);
        assert(!grid[grid.len() - 1 - r][c].visited);
    }
}

/// Draws the graph of `curves`, each a sequence of samples in ascending
/// order of `x`, over the window from `x_min` to `x_max`. A window without
/// extent is refused before anything is drawn; every other request gives the
/// text of the graph, whatever the samples are.
pub fn graph(curves: &Vec<Vec<Sample>>, x_min: i64, x_max: i64, go: &GraphOptions) -> (out: Result<
    String,
    GraphError,
>)
    requires
        go.wf(),
    ensures
        x_min >= x_max ==> out == Err::<String, GraphError>(
            GraphError::DegenerateViewport { x_min, x_max },
        ),
        x_min < x_max ==> out.is_ok() && out.unwrap()@ == graph_string(
            rows_of(curves@),
            x_min as int,
            x_max as int,
            *go,
        ),
{
    match check_viewport(x_min, x_max) {
        Err(e) => {
            return Err(e);
        },
        Ok(_) => {},
    }
    let ghost all = rows_of(curves@);
    let ghost rows = go.height + 1;
    let ghost cols = go.width + 1;
    let (master_y_min, master_y_max) = get_window(go, curves);
    let sampling_factor = SamplingFactor { samples: go.width, columns: SAMPLING_DIVISOR };
    let mut matrix = make_cell_matrix(go);
    let ghost blank = rows_of(matrix@);
    assert(is_fresh(blank, rows, cols));
    check_add_tick_marks(&mut matrix, x_min, x_max, master_y_min, master_y_max, go);
    let ghost ticked = rows_of(matrix@);
    proof {
        lemma_with_lit_is_fresh(
            blank,
            |r: int, c: int|
                on_tick(
                    blank,
                    x_min as int,
                    x_max as int,
                    master_y_min as int,
                    master_y_max as int,
                    *go,
                    r,
                    c,
                ),
            rows,
            cols,
        );
    }
    let mut i: usize = 0;
    while i < curves.len()
        invariant
            i <= curves@.len(),
            go.wf(),
            all == rows_of(curves@),
            sampling_factor == sampling_of(*go),
            rows_of(matrix@) == with_curves(
                ticked,
                all.take(i as int),
                *go,
                master_y_min as int,
                master_y_max as int,
            ),
        decreases curves@.len() - i,
    {
        let points = sanitize(&curves[i]);
        let nps = get_normalized_points(
            go.height,
            master_y_min,
            master_y_max,
            &points,
            &sampling_factor,
        );
        plot_points(&mut matrix, &nps, master_y_min, master_y_max);
        proof {
            assert(all.take(i + 1).drop_last() =~= all.take(i as int));
            assert(all.take(i + 1).last() == curves@[i as int]@);
            assert(nps@ == curve_cells(
                curves@[i as int]@,
                *go,
                master_y_min as int,
                master_y_max as int,
            ));
            assert(rows_of(matrix@) =~~= with_curves(
                ticked,
                all.take(i + 1),
                *go,
                master_y_min as int,
                master_y_max as int,
            ));
        }
        i = i + 1;
    }
    assert(all.take(i as int) =~= all);
    let ghost drawn = rows_of(matrix@);
    check_add_x_axis(master_y_min, master_y_max, go.height, &mut matrix);
    let ghost lined = rows_of(matrix@);
    reverse_rows(&mut matrix);
    check_add_y_axis(x_min, x_max, go.width, &mut matrix);
    proof {
        lemma_with_curves_is_fresh(
            ticked,
            all,
            *go,
            master_y_min as int,
            master_y_max as int,
            rows,
            cols,
        );
        lemma_with_lit_is_fresh(
            drawn,
            |r: int, c: int|
                on_x_axis(master_y_min as int, master_y_max as int, go.height as int, r, c),
            rows,
            cols,
        );
        lemma_reverse_is_fresh(lined, rows, cols);
        lemma_with_lit_is_fresh(
            lined.reverse(),
            |r: int, c: int| on_y_axis(x_min as int, x_max as int, go.width as int, r, c),
            rows,
            cols,
        );
        assert(rows_of(matrix@) == graph_grid(all, x_min as int, x_max as int, *go));
        assert(rectangular(rows_of(matrix@)));
    }
    let braille_chars = get_braille(go, &mut matrix);
    Ok(make_graph_string(braille_chars, x_min, x_max, master_y_min, master_y_max))
}

} // verus!
