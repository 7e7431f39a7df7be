//! Straight lines on the grid, by Bresenham's algorithm in integers.

use crate::arith::{abs, lemma_div_between};
use crate::common::{has_cell, light_cell, lit, rows_of, with_lit, CellMatrix};
use vstd::prelude::*;

verus! {

/// The line from (`x1`, `y1`) to (`x2`, `y2`) rises faster than it runs, so
/// it is walked along the vertical axis.
pub open spec fn is_steep(x1: int, y1: int, x2: int, y2: int) -> bool {
    abs(y2 - y1) > abs(x2 - x1)
}

/// The ends of the line as the walk sees them: (`a1`, `b1`, `a2`, `b2`),
/// where `a` is the coordinate along the axis that is walked, `b` the other
/// one, and `a1 <= a2`.
pub open spec fn line_ends(x1: int, y1: int, x2: int, y2: int) -> (int, int, int, int) {
    let e = if is_steep(x1, y1, x2, y2) {
        (y1, x1, y2, x2)
    } else {
        (x1, y1, x2, y2)
    };
    if e.0 > e.2 {
        (e.2, e.3, e.0, e.1)
    } else {
        e
    }
}

/// How far the line has moved across after `k` steps along, where it moves
/// `across` in `along` steps: `k * across / along` rounded to the nearest
/// integer, a half rounded down.
pub open spec fn steps_across(k: int, along: int, across: int) -> int {
    if along == 0 {
        0
    } else {
        (2 * k * across + along - 1) / (2 * along)
    }
}

/// Position `a` along and `b` across belongs to the part of the walk from
/// (`a1`, `b1`) to (`a2`, `b2`) that lies before `limit`.
pub open spec fn on_walk(a1: int, b1: int, a2: int, b2: int, limit: int, a: int, b: int) -> bool {
    &&& a1 <= a <= a2
    &&& a < limit
    &&& b == if b2 > b1 {
        b1 + steps_across(a - a1, a2 - a1, abs(b2 - b1))
    } else {
        b1 - steps_across(a - a1, a2 - a1, abs(b2 - b1))
    }
}

/// Cell (`row`, `col`) is one of those that the line from column `x1`, row
/// `y1` to column `x2`, row `y2` lights.
pub open spec fn on_line(x1: int, y1: int, x2: int, y2: int, row: int, col: int) -> bool {
    let e = line_ends(x1, y1, x2, y2);
    if is_steep(x1, y1, x2, y2) {
        on_walk(e.0, e.1, e.2, e.3, e.2 + 1, row, col)
    } else {
        on_walk(e.0, e.1, e.2, e.3, e.2 + 1, col, row)
    }
}

/// A line lights the same cells whichever of its ends is named first.
pub proof fn lemma_line_is_symmetric(x1: int, y1: int, x2: int, y2: int)
    ensures
        forall|row: int, col: int|
            on_line(x1, y1, x2, y2, row, col) == on_line(x2, y2, x1, y1, row, col),
{
    assert(is_steep(x1, y1, x2, y2) == is_steep(x2, y2, x1, y1));
    assert(line_ends(x1, y1, x2, y2) == line_ends(x2, y2, x1, y1));
}

/// Both ends of a line are lit.
pub proof fn lemma_line_has_its_ends(x1: int, y1: int, x2: int, y2: int)
    ensures
        on_line(x1, y1, x2, y2, y1, x1),
        on_line(x1, y1, x2, y2, y2, x2),
{
    let e = line_ends(x1, y1, x2, y2);
    let along = e.2 - e.0;
    let across = abs(e.3 - e.1);
    assert(across <= along);
    assert(steps_across(0, along, across) == 0) by {
        if along > 0 {
            assert(2 * 0 * across == 0) by (nonlinear_arith);
            lemma_div_between(2 * 0 * across + along - 1, 2 * along, 0);
        }
    }
    assert(steps_across(along, along, across) == across) by {
        if along > 0 {
            assert(across * (2 * along) <= 2 * along * across + along - 1 < across * (2 * along)
                + 2 * along) by (nonlinear_arith)
                requires
                    along > 0,
            ;
            lemma_div_between(2 * along * across + along - 1, 2 * along, across);
        }
    }
    lemma_line_is_symmetric(x1, y1, x2, y2);
}

/// Draws the line from column `x1`, row `y1` to column `x2`, row `y2`. One
/// cell is lit for each position along the axis in which the line is longer;
/// cells that the matrix does not have are passed over.
pub fn draw_line(matrix: &mut CellMatrix, x1: usize, y1: usize, x2: usize, y2: usize)
    ensures
        rows_of(final(matrix)@) == with_lit(
            rows_of(old(matrix)@),
            |r: int, c: int| on_line(x1 as int, y1 as int, x2 as int, y2 as int, r, c),
        ),
        has_cell(rows_of(old(matrix)@), y1 as int, x1 as int) ==> lit(
            rows_of(final(matrix)@),
            y1 as int,
            x1 as int,
        ),
        has_cell(rows_of(old(matrix)@), y2 as int, x2 as int) ==> lit(
            rows_of(final(matrix)@),
            y2 as int,
            x2 as int,
        ),
{
    let ghost g0 = rows_of(matrix@);
    proof {
        lemma_line_has_its_ends(x1 as int, y1 as int, x2 as int, y2 as int);
    }
    let dx: i128 = x2 as i128 - x1 as i128;
    let dy: i128 = y2 as i128 - y1 as i128;
    let steep = (if dy < 0 {
        -dy
    } else {
        dy
    }) > (if dx < 0 {
        -dx
    } else {
        dx
    });
    let (a1, b1, a2, b2) = if steep {
        (y1, x1, y2, x2)
    } else {
        (x1, y1, x2, y2)
    };
    let (a1, b1, a2, b2) = if a1 > a2 {
        (a2, b2, a1, b1)
    } else {
        (a1, b1, a2, b2)
    };
    assert((a1 as int, b1 as int, a2 as int, b2 as int) == line_ends(
        x1 as int,
        y1 as int,
        x2 as int,
        y2 as int,
    ));
    let along: i128 = a2 as i128 - a1 as i128;
    let across: i128 = if b2 > b1 {
        b2 as i128 - b1 as i128
    } else {
        b1 as i128 - b2 as i128
    };
    assert(across <= along);
    let rising = b2 > b1;
    let derror2: i128 = across * 2;
    let mut error2: i128 = 0;
    let mut b: usize = b1;
    let mut a: usize = a1;
    let mut done = false;
    let ghost mut n: int = 0;
    assert(rows_of(matrix@) =~~= with_lit(
        g0,
        |r: int, c: int|
            if steep {
                on_walk(a1 as int, b1 as int, a2 as int, b2 as int, a as int, r, c)
            } else {
                on_walk(a1 as int, b1 as int, a2 as int, b2 as int, a as int, c, r)
            },
    ));
    assert(0 == 2 * ((a - a1) * across) - 2 * (along * n)) by (nonlinear_arith)
        requires
            a - a1 == 0,
            n == 0,
    ;
    while !done
        invariant
            a1 <= a <= a2,
            along == a2 - a1,
            across == abs(b2 - b1),
            across <= along,
            rising == (b2 > b1),
            derror2 == 2 * across,
            0 <= n <= a - a1,
            n <= across,
            rising ==> b == b1 + n,
            !rising ==> b == b1 - n,
            error2 == 2 * ((a - a1) * across) - 2 * (along * n),
            -along < error2 <= along || along == 0,
            along == 0 ==> error2 == 0,
            !done ==> rows_of(matrix@) == with_lit(
                g0,
                |r: int, c: int|
                    if steep {
                        on_walk(a1 as int, b1 as int, a2 as int, b2 as int, a as int, r, c)
                    } else {
                        on_walk(a1 as int, b1 as int, a2 as int, b2 as int, a as int, c, r)
                    },
            ),
            done ==> a == a2 && rows_of(matrix@) == with_lit(
                g0,
                |r: int, c: int|
                    if steep {
                        on_walk(a1 as int, b1 as int, a2 as int, b2 as int, a2 + 1, r, c)
                    } else {
                        on_walk(a1 as int, b1 as int, a2 as int, b2 as int, a2 + 1, c, r)
                    },
            ),
        decreases a2 - a + (if done { 0int } else { 1int }),
    {
        let ghost k: int = a - a1;
        proof {
            if along > 0 {
                assert(n * (2 * along) <= 2 * k * across + along - 1 < n * (2 * along) + 2 * along)
                    by (nonlinear_arith)
                    requires
                        error2 == 2 * (k * across) - 2 * (along * n),
                        -along < error2 <= along,
                ;
                lemma_div_between(2 * k * across + along - 1, 2 * along, n);
            }
            assert(steps_across(k, along as int, across as int) == n);
        }
        if steep {
            light_cell(matrix, a, b);
        } else {
            light_cell(matrix, b, a);
        }
        assert(rows_of(matrix@) =~~= with_lit(
            g0,
            |r: int, c: int|
                if steep {
                    on_walk(a1 as int, b1 as int, a2 as int, b2 as int, a + 1, r, c)
                } else {
                    on_walk(a1 as int, b1 as int, a2 as int, b2 as int, a + 1, c, r)
                },
        ));
        if a == a2 {
            done = true;
        } else {
            let ghost e0: int = error2 as int;
            let ghost n0: int = n;
            error2 = error2 + derror2;
            if error2 > along {
                proof {
                    assert((k + 1) * across <= along * across) by (nonlinear_arith)
                        requires
                            k + 1 <= along,
                            across >= 0,
                    ;
                    assert(n0 + 1 <= across) by (nonlinear_arith)
                        requires
                            e0 == 2 * (k * across) - 2 * (along * n0),
                            e0 + 2 * across > along,
                            (k + 1) * across <= along * across,
                            along > 0,
                    ;
                    n = n0 + 1;
                }
                if rising {
                    b = b + 1;
                } else {
                    b = b - 1;
                }
                error2 = error2 - along * 2;
            }
            a = a + 1;
            assert(error2 == 2 * ((a - a1) * across) - 2 * (along * n)) by (nonlinear_arith)
                requires
                    error2 == e0 + 2 * across - 2 * along * (n - n0),
                    e0 == 2 * (k * across) - 2 * (along * n0),
                    a - a1 == k + 1,
                    n == n0 || n == n0 + 1,
            ;
        }
    }
    assert(steep == is_steep(x1 as int, y1 as int, x2 as int, y2 as int));
    assert(rows_of(matrix@) =~~= with_lit(
        g0,
        |r: int, c: int| on_line(x1 as int, y1 as int, x2 as int, y2 as int, r, c),
    ));
}

} // verus!
