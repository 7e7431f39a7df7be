//! Samples as a provider hands them over, and the vertical window that a set
//! of curves asks for.

use crate::arith::abs;
use crate::common::{rows_of, GraphOptions, Point};
use vstd::prelude::*;

verus! {

/// How close the extreme of a curve must be to the window's end for the
/// window to follow it: 50, as a scalar.
pub const Y_RANGE_TOLERANCE: i64 = 50_000_000;

/// The margin added above and below the curves: one half, as a scalar.
pub const Y_AXIS_PADDING: i64 = 500_000;

/// One sample of a curve. A coordinate that the provider could not compute
/// (it is not a number) is absent.
#[derive(Debug, Clone, Copy, PartialEq, Eq)]
pub struct Sample {
    pub x: Option<i64>,
    pub y: Option<i64>,
}

/// The least `y` among the samples that have one, and `i64::MAX` where none
/// has.
pub open spec fn least_y(samples: Seq<Sample>) -> int
    decreases samples.len(),
{
    if samples.len() == 0 {
        i64::MAX as int
    } else {
        let rest = least_y(samples.drop_last());
        match samples.last().y {
            Some(y) => if y < rest {
                y as int
            } else {
                rest
            },
            None => rest,
        }
    }
}

/// The greatest `y` among the samples that have one, and `i64::MIN` where
/// none has.
pub open spec fn greatest_y(samples: Seq<Sample>) -> int
    decreases samples.len(),
{
    if samples.len() == 0 {
        i64::MIN as int
    } else {
        let rest = greatest_y(samples.drop_last());
        match samples.last().y {
            Some(y) => if y > rest {
                y as int
            } else {
                rest
            },
            None => rest,
        }
    }
}

/// [`least_y`] is a lower bound of every `y`, and it is one of them unless it
/// is `i64::MAX`; likewise [`greatest_y`] from above.
pub proof fn lemma_extremes(samples: Seq<Sample>)
    ensures
        i64::MIN <= least_y(samples) <= i64::MAX,
        i64::MIN <= greatest_y(samples) <= i64::MAX,
        forall|i: int|
            0 <= i < samples.len() && (#[trigger] samples[i]).y.is_some() ==> least_y(samples)
                <= samples[i].y.unwrap() <= greatest_y(samples),
        least_y(samples) == i64::MAX || exists|i: int|
            0 <= i < samples.len() && (#[trigger] samples[i]).y == Some(least_y(samples) as i64),
        greatest_y(samples) == i64::MIN || exists|i: int|
            0 <= i < samples.len() && (#[trigger] samples[i]).y == Some(
                greatest_y(samples) as i64,
            ),
    decreases samples.len(),
{
    if samples.len() > 0 {
        let front = samples.drop_last();
        lemma_extremes(front);
        assert forall|i: int|
            0 <= i < samples.len() && (#[trigger] samples[i]).y.is_some() implies least_y(samples)
            <= samples[i].y.unwrap() <= greatest_y(samples) by {
            if i < front.len() {
                assert(front[i] == samples[i]);
            }
        }
        if least_y(samples) != i64::MAX {
            if least_y(samples) == least_y(front) {
                let i = choose|i: int|
                    0 <= i < front.len() && (#[trigger] front[i]).y == Some(least_y(front) as i64);
                assert(samples[i] == front[i]);
            } else {
                assert(samples[samples.len() - 1].y == Some(least_y(samples) as i64));
            }
        }
        if greatest_y(samples) != i64::MIN {
            if greatest_y(samples) == greatest_y(front) {
                let i = choose|i: int|
                    0 <= i < front.len() && (#[trigger] front[i]).y == Some(
                        greatest_y(front) as i64,
                    );
                assert(samples[i] == front[i]);
            } else {
                assert(samples[samples.len() - 1].y == Some(greatest_y(samples) as i64));
            }
        }
    }
}

/// The least `y` of a curve; see [`least_y`].
pub fn get_y_min(points: &Vec<Sample>) -> (m: i64)
    ensures
        m == least_y(points@),
        forall|i: int|
            0 <= i < points@.len() && (#[trigger] points@[i]).y.is_some() ==> m
                <= points@[i].y.unwrap(),
{
    proof {
        lemma_extremes(points@);
    }
    let mut m: i64 = i64::MAX;
    let mut i: usize = 0;
    while i < points.len()
        invariant
            i <= points@.len(),
            m == least_y(points@.take(i as int)),
        decreases points@.len() - i,
    {
        assert(points@.take(i + 1).drop_last() =~= points@.take(i as int));
        match points[i].y {
            Some(y) => {
                if y < m {
                    m = y;
                }
            },
            None => {},
        }
        i = i + 1;
    }
    assert(points@.take(i as int) =~= points@);
    m
}

/// The greatest `y` of a curve; see [`greatest_y`].
pub fn get_y_max(points: &Vec<Sample>) -> (m: i64)
    ensures
        m == greatest_y(points@),
        forall|i: int|
            0 <= i < points@.len() && (#[trigger] points@[i]).y.is_some() ==> m
                >= points@[i].y.unwrap(),
{
    proof {
        lemma_extremes(points@);
    }
    let mut m: i64 = i64::MIN;
    let mut i: usize = 0;
    while i < points.len()
        invariant
            i <= points@.len(),
            m == greatest_y(points@.take(i as int)),
        decreases points@.len() - i,
    {
        assert(points@.take(i + 1).drop_last() =~= points@.take(i as int));
        match points[i].y {
            Some(y) => {
                if y > m {
                    m = y;
                }
            },
            None => {},
        }
        i = i + 1;
    }
    assert(points@.take(i as int) =~= points@);
    m
}

/// The point that is plotted for a sample: the sample itself where both
/// coordinates are there, and the origin where one is missing.
pub open spec fn sanitized(sample: Sample) -> Point {
    match (sample.x, sample.y) {
        (Some(x), Some(y)) => Point { x, y },
        _ => Point { x: 0, y: 0 },
    }
}

/// Replaces each sample that lacks a coordinate by the origin, so that one
/// bad sample does not cost the whole curve.
pub fn sanitize(samples: &Vec<Sample>) -> (points: Vec<Point>)
    ensures
        points@ == samples@.map_values(|s: Sample| sanitized(s)),
{
    let mut points: Vec<Point> = Vec::new();
    let mut i: usize = 0;
    while i < samples.len()
        invariant
            i <= samples@.len(),
            points@ == samples@.take(i as int).map_values(|s: Sample| sanitized(s)),
        decreases samples@.len() - i,
    {
        let p = match (samples[i].x, samples[i].y) {
            (Some(x), Some(y)) => Point { x, y },
            _ => Point { x: 0, y: 0 },
        };
        points.push(p);
        i = i + 1;
        assert(points@ =~= samples@.take(i as int).map_values(|s: Sample| sanitized(s)));
    }
    assert(samples@.take(i as int) =~= samples@);
    points
}

/// The end of the window after a curve whose extreme is `actual`: the
/// extreme itself where it is less than [`Y_RANGE_TOLERANCE`] away from
/// `current`, and `current` otherwise.
pub open spec fn adopted(current: int, actual: int) -> int {
    if abs(current - actual) < Y_RANGE_TOLERANCE {
        actual
    } else {
        current
    }
}

/// The vertical window while the curves are gone through: the ends that the
/// next curve is compared with, and the widest ends so far.
#[derive(Debug, Clone, Copy, PartialEq, Eq, Structural)]
pub struct Window {
    pub y_min: i64,
    pub y_max: i64,
    pub master_y_min: i64,
    pub master_y_max: i64,
}

/// The window before any curve: the ends that were asked for, and nothing
/// seen yet.
pub open spec fn window_start(go: GraphOptions) -> Window {
    Window { y_min: go.y_min, y_max: go.y_max, master_y_min: i64::MAX, master_y_max: i64::MIN }
}

/// The window after one more curve.
pub open spec fn window_step(w: Window, samples: Seq<Sample>) -> Window {
    let y_max = adopted(w.y_max as int, greatest_y(samples)) as i64;
    let y_min = adopted(w.y_min as int, least_y(samples)) as i64;
    Window {
        y_min,
        y_max,
        master_y_min: if y_min < w.master_y_min {
            y_min
        } else {
            w.master_y_min
        },
        master_y_max: if y_max > w.master_y_max {
            y_max
        } else {
            w.master_y_max
        },
    }
}

/// The window after all of `curves`, taken in order.
pub open spec fn window_after(go: GraphOptions, curves: Seq<Seq<Sample>>) -> Window
    decreases curves.len(),
{
    if curves.len() == 0 {
        window_start(go)
    } else {
        window_step(window_after(go, curves.drop_last()), curves.last())
    }
}

/// `v + Y_AXIS_PADDING`, and `i64::MAX` where that is out of range.
pub open spec fn padded_up(v: int) -> int {
    if v + Y_AXIS_PADDING > i64::MAX {
        i64::MAX as int
    } else {
        v + Y_AXIS_PADDING
    }
}

/// `v - Y_AXIS_PADDING`, and `i64::MIN` where that is out of range.
pub open spec fn padded_down(v: int) -> int {
    if v - Y_AXIS_PADDING < i64::MIN {
        i64::MIN as int
    } else {
        v - Y_AXIS_PADDING
    }
}

/// The lower end of the window in which `curves` are drawn.
pub open spec fn window_bottom(go: GraphOptions, curves: Seq<Seq<Sample>>) -> int {
    padded_down(window_after(go, curves).master_y_min as int)
}

/// The upper end of the window in which `curves` are drawn.
pub open spec fn window_top(go: GraphOptions, curves: Seq<Seq<Sample>>) -> int {
    padded_up(window_after(go, curves).master_y_max as int)
}

/// `current` or `actual`, by the rule of [`adopted`].
fn adopt(current: i64, actual: i64) -> (end: i64)
    ensures
        end == adopted(current as int, actual as int),
{
    let d: i128 = current as i128 - actual as i128;
    let distance: i128 = if d < 0 {
        -d
    } else {
        d
    };
    if distance < Y_RANGE_TOLERANCE as i128 {
        actual
    } else {
        current
    }
}

/// The vertical window for `curves`: its lower and its upper end. Each end
/// follows the extreme of a curve that comes close to it, the widest ends
/// over all curves are kept, and a margin of one half is added on both
/// sides.
pub fn get_window(go: &GraphOptions, curves: &Vec<Vec<Sample>>) -> (ends: (i64, i64))
    ensures
        ends.0 == window_bottom(*go, rows_of(curves@)),
        ends.1 == window_top(*go, rows_of(curves@)),
{
    let mut w = Window {
        y_min: go.y_min,
        y_max: go.y_max,
        master_y_min: i64::MAX,
        master_y_max: i64::MIN,
    };
    let mut i: usize = 0;
    while i < curves.len()
        invariant
            i <= curves@.len(),
            w == window_after(*go, rows_of(curves@).take(i as int)),
        decreases curves@.len() - i,
    {
        assert(rows_of(curves@).take(i + 1).drop_last() =~= rows_of(curves@).take(i as int));
        assert(rows_of(curves@).take(i + 1).last() == curves@[i as int]@);
        let y_min_actual = get_y_min(&curves[i]);
        let y_max_actual = get_y_max(&curves[i]);
        let y_max = adopt(w.y_max, y_max_actual);
        let y_min = adopt(w.y_min, y_min_actual);
        w = Window {
            y_min,
            y_max,
            master_y_min: if y_min < w.master_y_min {
                y_min
            } else {
                w.master_y_min
            },
            master_y_max: if y_max > w.master_y_max {
                y_max
            } else {
                w.master_y_max
            },
        };
        i = i + 1;
    }
    assert(rows_of(curves@).take(i as int) =~= rows_of(curves@));
    let bottom = if w.master_y_min < i64::MIN + Y_AXIS_PADDING {
        i64::MIN
    } else {
        w.master_y_min - Y_AXIS_PADDING
    };
    let top = if w.master_y_max > i64::MAX - Y_AXIS_PADDING {
        i64::MAX
    } else {
        w.master_y_max + Y_AXIS_PADDING
    };
    (bottom, top)
}

} // verus!
