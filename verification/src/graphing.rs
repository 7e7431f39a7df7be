//! Plotting sampled curves: the vertical window, the normalizer that turns
//! samples into cells, the axes and the tick marks.

use crate::arith::{
    abs, div_floor, div_round, lemma_div_bounds, lemma_div_monotone, lemma_round_div_scaled,
    round_div,
};
use crate::common::{
    has_cell, light_cell, rows_of, with_lit, Cell, CellMatrix, GraphOptions, NormalizedPoint,
    Point, MAX_SIDE, UNIT,
};
use rayon::iter::{IndexedParallelIterator, IntoParallelRefIterator, ParallelIterator};
use vstd::prelude::*;

verus! {

/// `nums` never falls from one item to the next.
pub open spec fn is_ascending(nums: Seq<i64>) -> bool {
    forall|i: int, j: int| 0 <= i <= j < nums.len() ==> nums[i] <= nums[j]
}

/// The first index from `from` on whose item is at least `num`, or the
/// length of `nums` where there is none.
pub open spec fn first_at_least(nums: Seq<i64>, num: int, from: int) -> int
    decreases nums.len() - from,
{
    if from >= nums.len() || nums[from] >= num {
        from
    } else {
        first_at_least(nums, num, from + 1)
    }
}

/// Of the two neighbours `upper - 1` and `upper`, the index whose item is
/// closer to `num`; the lower one where both are equally far.
pub open spec fn nearer_of_pair(nums: Seq<i64>, num: int, upper: int) -> int {
    if num - nums[upper - 1] <= nums[upper] - num {
        upper - 1
    } else {
        upper
    }
}

/// The bucket of `num` in a table of boundaries: the first bucket for a
/// number at or below the first boundary, the last for one at or above the
/// last boundary, and otherwise the closer of the two boundaries around it.
pub open spec fn bucket_of(nums: Seq<i64>, num: int) -> int {
    if nums.len() == 0 {
        0
    } else if num <= nums[0] {
        0
    } else if num >= nums.last() {
        nums.len() - 1
    } else {
        nearer_of_pair(nums, num, first_at_least(nums, num, 0))
    }
}

/// In an ascending table, the pair of neighbours around `num` is where the
/// scan for the first item that is at least `num` stops.
pub proof fn lemma_first_at_least(nums: Seq<i64>, num: int, from: int, upper: int)
    requires
        is_ascending(nums),
        0 <= from <= upper < nums.len(),
        upper > 0,
        nums[upper - 1] < num <= nums[upper],
    ensures
        first_at_least(nums, num, from) == upper,
    decreases upper - from,
{
    if from < upper {
        assert(nums[from] <= nums[upper - 1]);
        lemma_first_at_least(nums, num, from + 1, upper);
    }
}

/// Where the scan of [`first_at_least`] stops.
pub proof fn lemma_first_at_least_stops(nums: Seq<i64>, num: int, from: int)
    requires
        0 <= from <= nums.len(),
    ensures
        from <= first_at_least(nums, num, from) <= nums.len(),
        first_at_least(nums, num, from) < nums.len() ==> nums[first_at_least(nums, num, from)]
            >= num,
        forall|i: int| from <= i < first_at_least(nums, num, from) ==> nums[i] < num,
    decreases nums.len() - from,
{
    if from < nums.len() && nums[from] < num {
        lemma_first_at_least_stops(nums, num, from + 1);
    }
}

/// The bucket of a number is an index of the table.
pub proof fn lemma_bucket_in_table(nums: Seq<i64>, num: int)
    requires
        nums.len() > 0,
    ensures
        0 <= bucket_of(nums, num) < nums.len(),
{
    if nums[0] < num < nums.last() {
        lemma_first_at_least_stops(nums, num, 0);
    }
}

/// The normalizer keeps the order: in an ascending table a larger number
/// never falls into an earlier bucket.
pub proof fn lemma_bucket_is_monotone(nums: Seq<i64>, low: int, high: int)
    requires
        is_ascending(nums),
        low <= high,
    ensures
        bucket_of(nums, low) <= bucket_of(nums, high),
{
    if nums.len() > 0 {
        lemma_bucket_in_table(nums, low);
        lemma_bucket_in_table(nums, high);
        if nums[0] < low && low < nums.last() && high < nums.last() {
            lemma_first_at_least_stops(nums, low, 0);
            lemma_first_at_least_stops(nums, high, 0);
            let m = first_at_least(nums, low, 0);
            let n = first_at_least(nums, high, 0);
            if m > n {
                assert(nums[n] <= nums[m - 1]);
            }
        }
    }
}

/// A number below the table falls into the first bucket, and one above it
/// into the last.
pub proof fn lemma_bucket_clamps(nums: Seq<i64>, num: int)
    requires
        is_ascending(nums),
        nums.len() > 0,
    ensures
        num < nums[0] ==> bucket_of(nums, num) == 0,
        num > nums.last() ==> bucket_of(nums, num) == nums.len() - 1,
{
}

/// Finds the bucket of `num` in a table of boundaries by bisection. The
/// answer is an index of the table, or 0 for an empty table. It is the
/// bucket that [`bucket_of`] names whenever `num` lies at or beyond an end of
/// the table, and for every `num` where the table is ascending.
pub fn binary_search(nums: &Vec<i64>, num: i64) -> (bucket: usize)
    ensures
        nums@.len() == 0 ==> bucket == 0,
        nums@.len() > 0 ==> bucket < nums@.len(),
        is_ascending(nums@) || nums@.len() == 0 || num <= nums@[0] || num >= nums@.last()
            ==> bucket == bucket_of(nums@, num as int),
{
    if nums.len() == 0 {
        return 0;
    }
    if nums[0] >= num {
        return 0;
    }
    if nums[nums.len() - 1] <= num {
        return nums.len() - 1;
    }
    let mut start: usize = 0;
    let mut end: usize = nums.len() - 1;
    while end - start > 1
        invariant
            0 <= start < end < nums@.len(),
            nums@[start as int] < num,
            num <= nums@[end as int],
        decreases end - start,
    {
        let mid = start + (end - start) / 2;
        if nums[mid] < num {
            start = mid;
        } else {
            end = mid;
        }
    }
    proof {
        if is_ascending(nums@) {
            lemma_first_at_least(nums@, num as int, 0, end as int);
        }
    }
    if num as i128 - nums[start] as i128 <= nums[end] as i128 - num as i128 {
        start
    } else {
        end
    }
}

/// Boundary `n` of the `height + 1` evenly spaced boundaries from `y_min`
/// to `y_max`, rounded down to a whole step of a scalar.
pub open spec fn boundary(height: int, y_min: int, y_max: int, n: int) -> int {
    if height == 0 {
        y_min
    } else {
        y_min + (n * (y_max - y_min)) / height
    }
}

/// The table of the `height + 1` boundaries from `y_min` to `y_max`.
pub open spec fn boundary_table(height: int, y_min: int, y_max: int) -> Seq<i64> {
    Seq::new((height + 1) as nat, |n: int| boundary(height, y_min, y_max, n) as i64)
}

/// Every boundary lies between the two ends of the window.
pub proof fn lemma_boundary_in_window(height: int, y_min: int, y_max: int, n: int)
    requires
        0 <= n <= height,
    ensures
        y_min <= y_max ==> y_min <= boundary(height, y_min, y_max, n) <= y_max,
        y_min >= y_max ==> y_max <= boundary(height, y_min, y_max, n) <= y_min,
        n == 0 ==> boundary(height, y_min, y_max, n) == y_min,
        n == height && height > 0 ==> boundary(height, y_min, y_max, n) == y_max,
{
    if height > 0 {
        let range = y_max - y_min;
        assert(0 * range == 0) by (nonlinear_arith);
        assert(height * range == range * height) by (nonlinear_arith);
        if range >= 0 {
            assert(0 <= n * range <= height * range) by (nonlinear_arith)
                requires
                    0 <= n <= height,
                    range >= 0,
            ;
            lemma_div_monotone(0, n * range, height);
            lemma_div_monotone(n * range, height * range, height);
        }
        if range <= 0 {
            assert(height * range <= n * range <= 0) by (nonlinear_arith)
                requires
                    0 <= n <= height,
                    range <= 0,
            ;
            lemma_div_monotone(n * range, 0, height);
            lemma_div_monotone(height * range, n * range, height);
        }
        crate::arith::lemma_div_between(0, height, 0);
        assert(range * height <= height * range < range * height + height);
        crate::arith::lemma_div_between(height * range, height, range);
    }
}

/// The boundaries of a window that is not upside down ascend.
pub proof fn lemma_boundaries_ascend(height: int, y_min: int, y_max: int)
    requires
        0 <= height,
        i64::MIN <= y_min <= y_max <= i64::MAX,
    ensures
        is_ascending(boundary_table(height, y_min, y_max)),
{
    let table = boundary_table(height, y_min, y_max);
    assert forall|i: int, j: int| 0 <= i <= j < table.len() implies table[i] <= table[j] by {
        lemma_boundary_in_window(height, y_min, y_max, i);
        lemma_boundary_in_window(height, y_min, y_max, j);
        if height > 0 {
            let range = y_max - y_min;
            assert(i * range <= j * range) by (nonlinear_arith)
                requires
                    i <= j,
                    range >= 0,
            ;
            lemma_div_monotone(i * range, j * range, height);
        }
    }
}

/// The row of the value `y` in a picture of `height + 1` rows that shows
/// the window from `y_min` to `y_max`: its bucket in the table of boundaries.
pub open spec fn row_of(height: int, y_min: int, y_max: int, y: int) -> int {
    bucket_of(boundary_table(height, y_min, y_max), y)
}

/// The normalizer keeps the order: in a window that is not upside down, a
/// larger value never falls into an earlier row.
pub proof fn lemma_row_is_monotone(height: int, y_min: int, y_max: int, low: int, high: int)
    requires
        0 <= height,
        i64::MIN <= y_min <= y_max <= i64::MAX,
        low <= high,
    ensures
        0 <= row_of(height, y_min, y_max, low) <= row_of(height, y_min, y_max, high) <= height,
{
    let table = boundary_table(height, y_min, y_max);
    lemma_boundaries_ascend(height, y_min, y_max);
    lemma_bucket_is_monotone(table, low, high);
    lemma_bucket_in_table(table, low);
    lemma_bucket_in_table(table, high);
}

/// The normalizer clamps: a value at or below the window falls into row 0,
/// and a value above the lower end and at or above the upper end into the
/// last row.
pub proof fn lemma_row_clamps(height: int, y_min: int, y_max: int, y: int)
    requires
        0 <= height,
        i64::MIN <= y_min <= i64::MAX,
        i64::MIN <= y_max <= i64::MAX,
    ensures
        y <= y_min ==> row_of(height, y_min, y_max, y) == 0,
        y > y_min && y >= y_max ==> row_of(height, y_min, y_max, y) == height,
{
    lemma_boundary_in_window(height, y_min, y_max, 0);
    lemma_boundary_in_window(height, y_min, y_max, height);
}

/// Builds the table of boundaries.
pub fn boundaries(height: usize, y_min: i64, y_max: i64) -> (table: Vec<i64>)
    requires
        height <= MAX_SIDE,
    ensures
        table@ == boundary_table(height as int, y_min as int, y_max as int),
{
    let range: i128 = y_max as i128 - y_min as i128;
    let mut table: Vec<i64> = Vec::new();
    let mut n: usize = 0;
    while n <= height
        invariant
            n <= height + 1,
            height <= MAX_SIDE,
            range == y_max - y_min,
            table@ == Seq::new(
                n as nat,
                |k: int| boundary(height as int, y_min as int, y_max as int, k) as i64,
            ),
        decreases height + 1 - n,
    {
        proof {
            lemma_boundary_in_window(height as int, y_min as int, y_max as int, n as int);
            assert(-0x1_0000_0000_0000_0000_0000 <= n * range <= 0x1_0000_0000_0000_0000_0000)
                by (nonlinear_arith)
                requires
                    0 <= n <= 65_535,
                    -0x1_0000_0000_0000_0000 <= range <= 0x1_0000_0000_0000_0000,
            ;
        }
        let b: i128 = if height == 0 {
            y_min as i128
        } else {
            y_min as i128 + div_floor(n as i128 * range, height as i128)
        };
        table.push(b as i64);
        n = n + 1;
        assert(table@ =~= Seq::new(
            n as nat,
            |k: int| boundary(height as int, y_min as int, y_max as int, k) as i64,
        ));
    }
    assert(table@ =~= boundary_table(height as int, y_min as int, y_max as int));
    table
}

/// How densely a curve is sampled: `samples` samples share `columns`
/// columns, so the factor is `samples / columns`.
#[derive(Debug, Clone, Copy, PartialEq, Eq, Structural)]
pub struct SamplingFactor {
    pub samples: usize,
    pub columns: usize,
}

impl SamplingFactor {
    /// The factor is a number: its denominator is not zero.
    pub open spec fn wf(&self) -> bool {
        self.samples >= 1
    }

    /// The column of sample `index`: the index divided by the factor,
    /// rounded down, and at most `usize::MAX`.
    pub open spec fn column(&self, index: int) -> int {
        let exact = (index * self.columns) / (self.samples as int);
        if exact > usize::MAX {
            usize::MAX as int
        } else {
            exact
        }
    }

    /// The column of sample `index`.
    pub fn column_of(&self, index: usize) -> (col: usize)
        requires
            self.wf(),
        ensures
            col == self.column(index as int),
    {
        assert(0 <= index * self.columns <= 0xFFFF_FFFF_FFFF_FFFF * 0xFFFF_FFFF_FFFF_FFFF)
            by (nonlinear_arith)
            requires
                0 <= index <= 0xFFFF_FFFF_FFFF_FFFF,
                0 <= self.columns <= 0xFFFF_FFFF_FFFF_FFFF,
        ;
        let exact: u128 = (index as u128 * self.columns as u128) / (self.samples as u128);
        if exact > usize::MAX as u128 {
            usize::MAX
        } else {
            exact as usize
        }
    }
}

/// What the normalizer makes of sample `index` with value `point`: the
/// column of the index, the bucket of the value, and the value itself.
pub open spec fn normalized(
    table: Seq<i64>,
    factor: SamplingFactor,
    index: int,
    point: Point,
) -> NormalizedPoint {
    NormalizedPoint {
        x: factor.column(index) as usize,
        y: bucket_of(table, point.y as int) as usize,
        y_acc: point.y,
    }
}

/// What the normalizer makes of all of `points`.
pub open spec fn normalized_points(
    height: int,
    y_min: int,
    y_max: int,
    points: Seq<Point>,
    factor: SamplingFactor,
) -> Seq<NormalizedPoint> {
    Seq::new(
        points.len(),
        |i: int| normalized(boundary_table(height, y_min, y_max), factor, i, points[i]),
    )
}

/// Every number has its exact bucket in `table`: the table ascends, or its
/// first boundary is not below its last, so that no number lies strictly
/// between them.
pub open spec fn searchable(table: Seq<i64>) -> bool {
    is_ascending(table) || table.len() == 0 || table[0] >= table.last()
}

/// Normalizes one sample. No sample depends on another, so samples may be
/// normalized in any order and at the same time.
pub fn normalize_point(
    table: &Vec<i64>,
    factor: &SamplingFactor,
    index: usize,
    point: &Point,
) -> (np: NormalizedPoint)
    requires
        factor.wf(),
        searchable(table@),
    ensures
        np == normalized(table@, *factor, index as int, *point),
{
    let x = factor.column_of(index);
    let y = binary_search(table, point.y);
    NormalizedPoint { x, y, y_acc: point.y }
}

/// Normalizes all samples on rayon's pool of worker threads:
/// `par_iter().enumerate().map(..).collect()`. rayon hands the closure each
/// item of the slice together with its index, and collecting an indexed
/// parallel iterator into a vector keeps the items in the order of the
/// slice. The closure is one call of [`normalize_point`], so item `i` of the
/// result is what that function returns for index `i`.
#[verifier::external_body]
fn normalize_on_pool(table: &Vec<i64>, factor: &SamplingFactor, points: &Vec<Point>) -> (out: Vec<
    NormalizedPoint,
>)
    requires
        factor.wf(),
        searchable(table@),
    ensures
        out@.len() == points@.len(),
        forall|i: int|
            0 <= i < points@.len() ==> #[trigger] out@[i] == normalized(
                table@,
                *factor,
                i,
                points@[i],
            ),
{
    points.par_iter().enumerate().map(|(i, p)| normalize_point(table, factor, i, p)).collect()
}

/// The normalizer: one [`NormalizedPoint`] per sample, in the order of the
/// samples. The row of a sample is the bucket of its value among the
/// `height + 1` boundaries from `y_min` to `y_max`; its column is its index
/// divided by the sampling factor.
pub fn get_normalized_points(
    height: usize,
    y_min: i64,
    y_max: i64,
    points: &Vec<Point>,
    sampling_factor: &SamplingFactor,
) -> (out: Vec<NormalizedPoint>)
    requires
        height <= MAX_SIDE,
        sampling_factor.wf(),
    ensures
        out@ == normalized_points(
            height as int,
            y_min as int,
            y_max as int,
            points@,
            *sampling_factor,
        ),
{
    let table = boundaries(height, y_min, y_max);
    proof {
        if y_min <= y_max {
            lemma_boundaries_ascend(height as int, y_min as int, y_max as int);
        } else {
            lemma_boundary_in_window(height as int, y_min as int, y_max as int, 0);
            lemma_boundary_in_window(height as int, y_min as int, y_max as int, height as int);
        }
    }
    let out = normalize_on_pool(&table, sampling_factor, points);
    assert(out@ =~= normalized_points(
        height as int,
        y_min as int,
        y_max as int,
        points@,
        *sampling_factor,
    ));
    out
}

/// The axis through zero is seen in a window from `min` to `max`: zero lies
/// strictly inside.
pub open spec fn axis_in_view(min: int, max: int) -> bool {
    min < 0 && max > 0
}

/// Where zero falls on a side of `axis` cells that shows the window from
/// `min` to `max`: `|min| / (max - min) * axis`, rounded to the nearest
/// cell, a half rounded up, and at most `usize::MAX`. For a window that has no
/// extent it is 0.
pub open spec fn axis_location(min: int, max: int, axis: int) -> int {
    if max > min {
        let exact = round_div(abs(min) * axis, max - min);
        if exact > usize::MAX {
            usize::MAX as int
        } else {
            exact
        }
    } else {
        0
    }
}

/// An axis that is in view lies on the side: its cell is at most `axis`.
pub proof fn lemma_axis_on_side(min: int, max: int, axis: int)
    requires
        axis_in_view(min, max),
        0 <= axis <= usize::MAX,
    ensures
        0 <= axis_location(min, max, axis) <= axis,
{
    lemma_round_div_scaled(abs(min), max - min, axis);
}

/// In a window that reaches as far below zero as above, the axis lies in
/// the middle of the side: at half its length, rounded up.
pub proof fn lemma_axis_of_balanced_window(reach: int, axis: int)
    requires
        reach > 0,
        axis >= 0,
    ensures
        axis_in_view(-reach, reach),
        axis <= usize::MAX ==> axis_location(-reach, reach, axis) == (axis + 1) / 2,
{
    let num = reach * axis;
    lemma_div_bounds(axis + 1, 2);
    let half = (axis + 1) / 2;
    assert(half * (4 * reach) <= 2 * num + 2 * reach < half * (4 * reach) + 4 * reach)
        by (nonlinear_arith)
        requires
            half * 2 <= axis + 1 < half * 2 + 2,
            num == reach * axis,
            reach > 0,
    ;
    crate::arith::lemma_div_between(2 * num + 2 * reach, 4 * reach, half);
}

/// Says whether the axis through zero is seen in the window from `min` to
/// `max`, and in which cell of a side of `axis` cells it lies.
pub fn x_y_axis_setup(min: i64, max: i64, axis: usize) -> (setup: (bool, usize))
    requires
        axis <= MAX_SIDE,
    ensures
        setup.0 == axis_in_view(min as int, max as int),
        setup.1 == axis_location(min as int, max as int, axis as int),
        setup.0 ==> setup.1 <= axis,
{
    proof {
        if axis_in_view(min as int, max as int) {
            lemma_axis_on_side(min as int, max as int, axis as int);
        }
    }
    let axis_in_view = min < 0 && max > 0;
    if max > min {
        let range: i128 = max as i128 - min as i128;
        let magnitude: i128 = if min < 0 {
            -(min as i128)
        } else {
            min as i128
        };
        assert(0 <= magnitude * axis <= 0x8000_0000_0000_0000 * 65_535) by (nonlinear_arith)
            requires
                0 <= magnitude <= 0x8000_0000_0000_0000,
                0 <= axis <= 65_535,
        ;
        let exact = div_round(magnitude * axis as i128, range);
        proof {
            lemma_div_monotone(0, 2 * (magnitude * axis) + range, 2 * range);
            crate::arith::lemma_div_between(0, 2 * range, 0);
        }
        if exact > usize::MAX as i128 {
            (axis_in_view, usize::MAX)
        } else {
            (axis_in_view, exact as usize)
        }
    } else {
        (axis_in_view, 0)
    }
}

/// Cell (`row`, `col`) lies on the horizontal axis of a picture of
/// `height + 1` rows that shows the window from `y_min` to `y_max`.
pub open spec fn on_x_axis(y_min: int, y_max: int, height: int, row: int, col: int) -> bool {
    axis_in_view(y_min, y_max) && row == axis_location(y_min, y_max, height)
}

/// Cell (`row`, `col`) lies on the vertical axis of a picture of
/// `width + 1` columns that shows the window from `x_min` to `x_max`.
pub open spec fn on_y_axis(x_min: int, x_max: int, width: int, row: int, col: int) -> bool {
    axis_in_view(x_min, x_max) && col == axis_location(x_min, x_max, width)
}

/// Lights the whole row of the horizontal axis, where the axis is in view.
pub fn check_add_x_axis(y_min: i64, y_max: i64, height: usize, matrix: &mut CellMatrix)
    requires
        height <= MAX_SIDE,
    ensures
        rows_of(final(matrix)@) == with_lit(
            rows_of(old(matrix)@),
            |r: int, c: int| on_x_axis(y_min as int, y_max as int, height as int, r, c),
        ),
{
    let ghost g0 = rows_of(matrix@);
    let (x_axis_in_view, x_axis_row) = x_y_axis_setup(y_min, y_max, height);
    if x_axis_in_view && x_axis_row < matrix.len() {
        let len = matrix[x_axis_row].len();
        assert(g0[x_axis_row as int] == matrix@[x_axis_row as int]@);
        let mut col: usize = 0;
        assert(rows_of(matrix@) =~~= with_lit(
            g0,
            |r: int, c: int| r == x_axis_row && c < col,
        ));
        while col < len
            invariant
                col <= len,
                x_axis_row < g0.len(),
                len == g0[x_axis_row as int].len(),
                rows_of(matrix@) == with_lit(g0, |r: int, c: int| r == x_axis_row && c < col),
            decreases len - col,
        {
            light_cell(matrix, x_axis_row, col);
            col = col + 1;
            assert(rows_of(matrix@) =~~= with_lit(
                g0,
                |r: int, c: int| r == x_axis_row && c < col,
            ));
        }
    }
    assert(rows_of(matrix@) =~~= with_lit(
        g0,
        |r: int, c: int| on_x_axis(y_min as int, y_max as int, height as int, r, c),
    ));
}

/// Lights the column of the vertical axis in every row that has it, where
/// the axis is in view.
pub fn check_add_y_axis(x_min: i64, x_max: i64, width: usize, matrix: &mut CellMatrix)
    requires
        width <= MAX_SIDE,
    ensures
        rows_of(final(matrix)@) == with_lit(
            rows_of(old(matrix)@),
            |r: int, c: int| on_y_axis(x_min as int, x_max as int, width as int, r, c),
        ),
{
    let ghost g0 = rows_of(matrix@);
    let (y_axis_in_view, y_axis_col) = x_y_axis_setup(x_min, x_max, width);
    if y_axis_in_view {
        let count = matrix.len();
        let mut row: usize = 0;
        assert(rows_of(matrix@) =~~= with_lit(g0, |r: int, c: int| c == y_axis_col && r < row));
        while row < count
            invariant
                row <= count,
                count == g0.len(),
                rows_of(matrix@) == with_lit(g0, |r: int, c: int| c == y_axis_col && r < row),
            decreases count - row,
        {
            light_cell(matrix, row, y_axis_col);
            row = row + 1;
            assert(rows_of(matrix@) =~~= with_lit(
                g0,
                |r: int, c: int| c == y_axis_col && r < row,
            ));
        }
    }
    assert(rows_of(matrix@) =~~= with_lit(
        g0,
        |r: int, c: int| on_y_axis(x_min as int, x_max as int, width as int, r, c),
    ));
}

/// Sample `np` is drawn in a window from `y_min` to `y_max`: its value lies
/// in the window, both ends included.
pub open spec fn is_visible(np: NormalizedPoint, y_min: int, y_max: int) -> bool {
    y_min <= np.y_acc <= y_max
}

/// Cell (`row`, `col`) is the cell of a visible sample among `nps`.
pub open spec fn is_plotted(
    nps: Seq<NormalizedPoint>,
    y_min: int,
    y_max: int,
    row: int,
    col: int,
) -> bool {
    exists|i: int|
        0 <= i < nps.len() && is_visible(#[trigger] nps[i], y_min, y_max) && nps[i].y == row
            && nps[i].x == col
}

/// Lights the cell of every normalized sample whose value lies in the
/// window from `y_min` to `y_max`. A sample whose cell the matrix does not
/// have is passed over.
pub fn plot_points(matrix: &mut CellMatrix, nps: &Vec<NormalizedPoint>, y_min: i64, y_max: i64)
    ensures
        rows_of(final(matrix)@) == with_lit(
            rows_of(old(matrix)@),
            |r: int, c: int| is_plotted(nps@, y_min as int, y_max as int, r, c),
        ),
{
    let ghost g0 = rows_of(matrix@);
    let mut i: usize = 0;
    assert(rows_of(matrix@) =~~= with_lit(
        g0,
        |r: int, c: int| is_plotted(nps@.take(i as int), y_min as int, y_max as int, r, c),
    ));
    while i < nps.len()
        invariant
            i <= nps@.len(),
            rows_of(matrix@) == with_lit(
                g0,
                |r: int, c: int| is_plotted(nps@.take(i as int), y_min as int, y_max as int, r, c),
            ),
        decreases nps@.len() - i,
    {
        let np = nps[i];
        let ghost before = nps@.take(i as int);
        let ghost after = nps@.take(i + 1);
        if np.y_acc <= y_max && np.y_acc >= y_min {
            light_cell(matrix, np.y, np.x);
        }
        proof {
            assert forall|r: int, c: int|
                is_plotted(after, y_min as int, y_max as int, r, c) == (is_plotted(
                    before,
                    y_min as int,
                    y_max as int,
                    r,
                    c,
                ) || (is_visible(np, y_min as int, y_max as int) && np.y == r && np.x == c)) by {
                if is_plotted(after, y_min as int, y_max as int, r, c) {
                    let k = choose|k: int|
                        0 <= k < after.len() && is_visible(
                            #[trigger] after[k],
                            y_min as int,
                            y_max as int,
                        ) && after[k].y == r && after[k].x == c;
                    if k < i {
                        assert(before[k] == after[k]);
                    }
                }
                if is_plotted(before, y_min as int, y_max as int, r, c) {
                    let k = choose|k: int|
                        0 <= k < before.len() && is_visible(
                            #[trigger] before[k],
                            y_min as int,
                            y_max as int,
                        ) && before[k].y == r && before[k].x == c;
                    assert(after[k] == before[k]);
                }
                if is_visible(np, y_min as int, y_max as int) && np.y == r && np.x == c {
                    assert(after[i as int] == np);
                }
            }
        }
        i = i + 1;
        assert(rows_of(matrix@) =~~= with_lit(
            g0,
            |r: int, c: int| is_plotted(nps@.take(i as int), y_min as int, y_max as int, r, c),
        ));
    }
    assert(nps@.take(i as int) =~= nps@);
}

/// Turns the matrix upside down: the last row becomes the first.
pub fn reverse_rows(matrix: &mut CellMatrix)
    ensures
        final(matrix)@ == old(matrix)@.reverse(),
        rows_of(final(matrix)@) == rows_of(old(matrix)@).reverse(),
{
    let ghost before = matrix@;
    let mut reversed: CellMatrix = Vec::new();
    let count = matrix.len();
    let mut i: usize = 0;
    while i < count
        invariant
            i <= count,
            count == before.len(),
            matrix@ == before.take(count - i),
            reversed@.len() == i,
            forall|k: int| 0 <= k < i ==> reversed@[k] == before[count - 1 - k],
        decreases count - i,
    {
        let row = matrix.pop();
        match row {
            Some(r) => {
                reversed.push(r);
            },
            None => {},
        }
        i = i + 1;
        assert(matrix@ =~= before.take(count - i));
    }
    *matrix = reversed;
    assert(matrix@ =~= before.reverse());
    assert(rows_of(matrix@) =~= rows_of(before).reverse());
}

/// The widths below which a picture is narrow, of medium width and wide.
pub const TICK_WIDTH_SMALL: usize = 76;

pub const TICK_WIDTH_MEDIUM: usize = 151;

pub const TICK_WIDTH_LARGE: usize = 301;

/// The most tick marks that a picture of each of the four widths takes.
pub const TICK_MAX_SMALL: usize = 80;

pub const TICK_MAX_MEDIUM: usize = 160;

pub const TICK_MAX_LARGE: usize = 300;

pub const TICK_MAX_XLARGE: usize = 400;

/// The most tick marks that a picture `width` cells wide takes.
pub open spec fn tick_cap(width: int) -> int {
    if width < TICK_WIDTH_SMALL {
        TICK_MAX_SMALL as int
    } else if width < TICK_WIDTH_MEDIUM {
        TICK_MAX_MEDIUM as int
    } else if width < TICK_WIDTH_LARGE {
        TICK_MAX_LARGE as int
    } else {
        TICK_MAX_XLARGE as int
    }
}

/// The least whole number that is not below the scalar `lo`.
pub open spec fn first_whole(lo: int) -> int {
    -((-lo) / (UNIT as int))
}

/// The greatest whole number that is not above the scalar `hi`.
pub open spec fn last_whole(hi: int) -> int {
    hi / (UNIT as int)
}

/// The cell of the whole number `whole` on a side of `side` cells that shows
/// the window from `lo` to `hi`: its distance from `lo`, scaled linearly and
/// rounded to the nearest cell. For a window that has no extent it is 0.
pub open spec fn tick_cell(whole: int, lo: int, hi: int, side: int) -> int {
    if hi > lo {
        round_div((whole * UNIT - lo) * side, hi - lo)
    } else {
        0
    }
}

/// `cell` is the cell of a whole number of the window from `lo` to `hi`
/// that is less than `limit`.
pub open spec fn tick_before(lo: int, hi: int, side: int, limit: int, cell: int) -> bool {
    exists|whole: int|
        first_whole(lo) <= whole <= last_whole(hi) && whole < limit && cell == #[trigger] tick_cell(
            whole,
            lo,
            hi,
            side,
        )
}

/// `cell` is the cell of a whole number of the window from `lo` to `hi`.
pub open spec fn is_tick(lo: int, hi: int, side: int, cell: int) -> bool {
    tick_before(lo, hi, side, last_whole(hi) + 1, cell)
}

/// The number of whole numbers `y` from `from` on whose tick mark in column
/// `col` has a cell in `grid`.
pub open spec fn ticks_in_column(
    grid: Seq<Seq<Cell>>,
    col: int,
    y_min: int,
    y_max: int,
    height: int,
    from: int,
) -> int
    decreases last_whole(y_max) - from + 1,
{
    if from > last_whole(y_max) {
        0
    } else {
        (if has_cell(grid, tick_cell(from, y_min, y_max, height), col) {
            1int
        } else {
            0int
        }) + ticks_in_column(grid, col, y_min, y_max, height, from + 1)
    }
}

/// The number of tick marks that have a cell in `grid`, over the whole
/// numbers `x` from `from` on and all whole numbers `y` of the window.
pub open spec fn ticks_from(
    grid: Seq<Seq<Cell>>,
    x_min: int,
    x_max: int,
    y_min: int,
    y_max: int,
    go: GraphOptions,
    from: int,
) -> int
    decreases last_whole(x_max) - from + 1,
{
    if from > last_whole(x_max) {
        0
    } else {
        ticks_in_column(
            grid,
            tick_cell(from, x_min, x_max, go.width as int),
            y_min,
            y_max,
            go.height as int,
            first_whole(y_min),
        ) + ticks_from(grid, x_min, x_max, y_min, y_max, go, from + 1)
    }
}

/// The number of tick marks that the window asks for and `grid` has cells
/// for: one for each pair of a whole `x` and a whole `y` in the window.
pub open spec fn tick_count(
    grid: Seq<Seq<Cell>>,
    x_min: int,
    x_max: int,
    y_min: int,
    y_max: int,
    go: GraphOptions,
) -> int {
    ticks_from(grid, x_min, x_max, y_min, y_max, go, first_whole(x_min))
}

/// Cell (`row`, `col`) takes a tick mark: its column is that of a whole `x`
/// and its row that of a whole `y`, and there are not more tick marks than
/// the width of the picture allows.
pub open spec fn on_tick(
    grid: Seq<Seq<Cell>>,
    x_min: int,
    x_max: int,
    y_min: int,
    y_max: int,
    go: GraphOptions,
    row: int,
    col: int,
) -> bool {
    &&& tick_count(grid, x_min, x_max, y_min, y_max, go) <= tick_cap(go.width as int)
    &&& is_tick(x_min, x_max, go.width as int, col)
    &&& is_tick(y_min, y_max, go.height as int, row)
}

/// Where the window asks for more tick marks than the width of the
/// picture allows, no cell takes one and the grid stays as it is.
pub proof fn lemma_dense_ticks_are_left_out(
    grid: Seq<Seq<Cell>>,
    x_min: int,
    x_max: int,
    y_min: int,
    y_max: int,
    go: GraphOptions,
)
    requires
        tick_count(grid, x_min, x_max, y_min, y_max, go) > tick_cap(go.width as int),
    ensures
        forall|r: int, c: int| !on_tick(grid, x_min, x_max, y_min, y_max, go, r, c),
        with_lit(grid, |r: int, c: int| on_tick(grid, x_min, x_max, y_min, y_max, go, r, c))
            == grid,
{
    assert(with_lit(grid, |r: int, c: int| on_tick(grid, x_min, x_max, y_min, y_max, go, r, c))
        =~~= grid);
}

proof fn lemma_ticks_in_column_nonnegative(
    grid: Seq<Seq<Cell>>,
    col: int,
    y_min: int,
    y_max: int,
    height: int,
    from: int,
)
    ensures
        ticks_in_column(grid, col, y_min, y_max, height, from) >= 0,
    decreases last_whole(y_max) - from + 1,
{
    if from <= last_whole(y_max) {
        lemma_ticks_in_column_nonnegative(grid, col, y_min, y_max, height, from + 1);
    }
}

proof fn lemma_ticks_from_nonnegative(
    grid: Seq<Seq<Cell>>,
    x_min: int,
    x_max: int,
    y_min: int,
    y_max: int,
    go: GraphOptions,
    from: int,
)
    ensures
        ticks_from(grid, x_min, x_max, y_min, y_max, go, from) >= 0,
    decreases last_whole(x_max) - from + 1,
{
    if from <= last_whole(x_max) {
        lemma_ticks_from_nonnegative(grid, x_min, x_max, y_min, y_max, go, from + 1);
        lemma_ticks_in_column_nonnegative(
            grid,
            tick_cell(from, x_min, x_max, go.width as int),
            y_min,
            y_max,
            go.height as int,
            first_whole(y_min),
        );
    }
}

/// The tick marks before `limit + 1` are those before `limit`, and that of
/// `limit` where it is a whole number of the window.
proof fn lemma_tick_before_step(lo: int, hi: int, side: int, limit: int)
    ensures
        forall|cell: int|
            tick_before(lo, hi, side, limit + 1, cell) == (tick_before(lo, hi, side, limit, cell)
                || (first_whole(lo) <= limit <= last_whole(hi) && cell == tick_cell(
                limit,
                lo,
                hi,
                side,
            ))),
{
    assert forall|cell: int|
        tick_before(lo, hi, side, limit + 1, cell) == (tick_before(lo, hi, side, limit, cell) || (
        first_whole(lo) <= limit <= last_whole(hi) && cell == tick_cell(limit, lo, hi, side))) by {
        if tick_before(lo, hi, side, limit + 1, cell) {
            let w = choose|w: int|
                first_whole(lo) <= w <= last_whole(hi) && w < limit + 1 && cell
                    == #[trigger] tick_cell(w, lo, hi, side);
            if w < limit {
                assert(tick_before(lo, hi, side, limit, cell));
            }
        }
        if tick_before(lo, hi, side, limit, cell) {
            let w = choose|w: int|
                first_whole(lo) <= w <= last_whole(hi) && w < limit && cell == #[trigger] tick_cell(
                    w,
                    lo,
                    hi,
                    side,
                );
            assert(tick_before(lo, hi, side, limit + 1, cell));
        }
        if first_whole(lo) <= limit <= last_whole(hi) && cell == tick_cell(limit, lo, hi, side) {
            assert(tick_before(lo, hi, side, limit + 1, cell));
        }
    }
}

/// The whole numbers of a window, as `i64`.
fn whole_range(lo: i64, hi: i64) -> (ends: (i64, i64))
    ensures
        ends.0 == first_whole(lo as int),
        ends.1 == last_whole(hi as int),
        -9_223_372_036_855 <= ends.0 <= 9_223_372_036_855,
        -9_223_372_036_855 <= ends.1 <= 9_223_372_036_855,
        ends.0 * UNIT >= lo,
        ends.1 * UNIT <= hi,
{
    let up = div_floor(-(lo as i128), UNIT as i128);
    let down = div_floor(hi as i128, UNIT as i128);
    proof {
        lemma_div_bounds(-(lo as int), UNIT as int);
        lemma_div_bounds(hi as int, UNIT as int);
    }
    ((-up) as i64, down as i64)
}

/// The cell of a whole number of the window; see [`tick_cell`].
fn tick_cell_of(whole: i64, lo: i64, hi: i64, side: usize) -> (cell: usize)
    requires
        side <= MAX_SIDE,
        lo <= whole * UNIT <= hi,
    ensures
        cell == tick_cell(whole as int, lo as int, hi as int, side as int),
        cell <= side,
{
    if hi > lo {
        let part: i128 = whole as i128 * UNIT as i128 - lo as i128;
        let range: i128 = hi as i128 - lo as i128;
        proof {
            lemma_round_div_scaled(part as int, range as int, side as int);
            assert(0 <= part * side <= 0x1_0000_0000_0000_0000 * 65_535) by (nonlinear_arith)
                requires
                    0 <= part <= 0x1_0000_0000_0000_0000,
                    0 <= side <= 65_535,
            ;
        }
        div_round(part * side as i128, range) as usize
    } else {
        0
    }
}

/// Says whether the matrix has cell (`row`, `col`).
fn cell_exists(matrix: &CellMatrix, row: usize, col: usize) -> (there: bool)
    ensures
        there == has_cell(rows_of(matrix@), row as int, col as int),
{
    if row < matrix.len() {
        assert(rows_of(matrix@)[row as int] == matrix@[row as int]@);
        col < matrix[row].len()
    } else {
        false
    }
}

/// Says whether the window asks for more tick marks than `cap`.
fn too_many_ticks(
    matrix: &CellMatrix,
    x_min: i64,
    x_max: i64,
    y_min: i64,
    y_max: i64,
    go: &GraphOptions,
    cap: usize,
) -> (too_many: bool)
    requires
        go.width <= MAX_SIDE,
        go.height <= MAX_SIDE,
        cap < usize::MAX,
    ensures
        too_many == (tick_count(
            rows_of(matrix@),
            x_min as int,
            x_max as int,
            y_min as int,
            y_max as int,
            *go,
        ) > cap),
{
    let ghost grid = rows_of(matrix@);
    let ghost total = tick_count(grid, x_min as int, x_max as int, y_min as int, y_max as int, *go);
    let (x_start, x_end) = whole_range(x_min, x_max);
    let (y_start, y_end) = whole_range(y_min, y_max);
    let mut count: usize = 0;
    let mut x: i64 = x_start;
    while x <= x_end
        invariant
            grid == rows_of(matrix@),
            go.width <= MAX_SIDE,
            go.height <= MAX_SIDE,
            x_start <= x,
            x_start == first_whole(x_min as int),
            x_end == last_whole(x_max as int),
            y_start == first_whole(y_min as int),
            y_end == last_whole(y_max as int),
            x_start * UNIT >= x_min,
            x_end * UNIT <= x_max,
            y_start * UNIT >= y_min,
            y_end * UNIT <= y_max,
            -9_223_372_036_855 <= x_end <= 9_223_372_036_855,
            -9_223_372_036_855 <= y_end <= 9_223_372_036_855,
            count <= cap < usize::MAX,
            total == tick_count(
                grid,
                x_min as int,
                x_max as int,
                y_min as int,
                y_max as int,
                *go,
            ),
            count + ticks_from(
                grid,
                x_min as int,
                x_max as int,
                y_min as int,
                y_max as int,
                *go,
                x as int,
            ) == total,
        decreases x_end - x + 1,
    {
        assert(x_min <= x * UNIT <= x_max) by (nonlinear_arith)
            requires
                x_start <= x <= x_end,
                x_start * UNIT >= x_min,
                x_end * UNIT <= x_max,
                UNIT > 0,
        ;
        let col = tick_cell_of(x, x_min, x_max, go.width);
        let mut y: i64 = y_start;
        while y <= y_end
            invariant
                grid == rows_of(matrix@),
                go.height <= MAX_SIDE,
                y_start <= y,
                y_start * UNIT >= y_min,
                y_end * UNIT <= y_max,
                y_end == last_whole(y_max as int),
                -9_223_372_036_855 <= y_end <= 9_223_372_036_855,
                x <= x_end == last_whole(x_max as int),
                col == tick_cell(x as int, x_min as int, x_max as int, go.width as int),
                count <= cap < usize::MAX,
                total == tick_count(
                    grid,
                    x_min as int,
                    x_max as int,
                    y_min as int,
                    y_max as int,
                    *go,
                ),
            total == tick_count(
                grid,
                x_min as int,
                x_max as int,
                y_min as int,
                y_max as int,
                *go,
            ),
                count + ticks_in_column(
                    grid,
                    col as int,
                    y_min as int,
                    y_max as int,
                    go.height as int,
                    y as int,
                ) + ticks_from(
                    grid,
                    x_min as int,
                    x_max as int,
                    y_min as int,
                    y_max as int,
                    *go,
                    x + 1,
                ) == total,
            decreases y_end - y + 1,
        {
            assert(y_min <= y * UNIT <= y_max) by (nonlinear_arith)
                requires
                    y_start <= y <= y_end,
                    y_start * UNIT >= y_min,
                    y_end * UNIT <= y_max,
                    UNIT > 0,
            ;
            let row = tick_cell_of(y, y_min, y_max, go.height);
            if cell_exists(matrix, row, col) {
                assert(ticks_in_column(
                    grid,
                    col as int,
                    y_min as int,
                    y_max as int,
                    go.height as int,
                    y as int,
                ) == 1 + ticks_in_column(
                    grid,
                    col as int,
                    y_min as int,
                    y_max as int,
                    go.height as int,
                    y + 1,
                ));
                count = count + 1;
                if count > cap {
                    proof {
                        lemma_ticks_in_column_nonnegative(
                            grid,
                            col as int,
                            y_min as int,
                            y_max as int,
                            go.height as int,
                            y + 1,
                        );
                        lemma_ticks_from_nonnegative(
                            grid,
                            x_min as int,
                            x_max as int,
                            y_min as int,
                            y_max as int,
                            *go,
                            x + 1,
                        );
                    }
                    return true;
                }
            }
            y = y + 1;
        }
        x = x + 1;
    }
    false
}

/// Lights a tick mark wherever a whole `x` meets a whole `y` of the window,
/// unless there would be more of them than a picture of this width takes:
/// then none is lit. The cell of a whole number is found by linear scaling
/// of the side, not by search.
pub fn check_add_tick_marks(
    matrix: &mut CellMatrix,
    x_min: i64,
    x_max: i64,
    y_min: i64,
    y_max: i64,
    go: &GraphOptions,
)
    requires
        go.width <= MAX_SIDE,
        go.height <= MAX_SIDE,
    ensures
        rows_of(final(matrix)@) == with_lit(
            rows_of(old(matrix)@),
            |r: int, c: int|
                on_tick(
                    rows_of(old(matrix)@),
                    x_min as int,
                    x_max as int,
                    y_min as int,
                    y_max as int,
                    *go,
                    r,
                    c,
                ),
        ),
{
    let ghost g0 = rows_of(matrix@);
    let max = if go.width < TICK_WIDTH_SMALL {
        TICK_MAX_SMALL
    } else if go.width < TICK_WIDTH_MEDIUM {
        TICK_MAX_MEDIUM
    } else if go.width < TICK_WIDTH_LARGE {
        TICK_MAX_LARGE
    } else {
        TICK_MAX_XLARGE
    };
    if too_many_ticks(matrix, x_min, x_max, y_min, y_max, go, max) {
        assert(rows_of(matrix@) =~~= with_lit(
            g0,
            |r: int, c: int|
                on_tick(g0, x_min as int, x_max as int, y_min as int, y_max as int, *go, r, c),
        ));
        return ;
    }
    let (x_start, x_end) = whole_range(x_min, x_max);
    let (y_start, y_end) = whole_range(y_min, y_max);
    let ghost w = go.width as int;
    let ghost h = go.height as int;
    let mut x: i64 = x_start;
    assert(rows_of(matrix@) =~~= with_lit(
        g0,
        |r: int, c: int|
            tick_before(x_min as int, x_max as int, w, x as int, c) && is_tick(
                y_min as int,
                y_max as int,
                h,
                r,
            ),
    ));
    while x <= x_end
        invariant
            w == go.width <= MAX_SIDE,
            h == go.height <= MAX_SIDE,
            x_start <= x,
            x_start == first_whole(x_min as int),
            x_end == last_whole(x_max as int),
            y_start == first_whole(y_min as int),
            y_end == last_whole(y_max as int),
            x_start * UNIT >= x_min,
            x_end * UNIT <= x_max,
            y_start * UNIT >= y_min,
            y_end * UNIT <= y_max,
            -9_223_372_036_855 <= x_end <= 9_223_372_036_855,
            -9_223_372_036_855 <= y_end <= 9_223_372_036_855,
            rows_of(matrix@) == with_lit(
                g0,
                |r: int, c: int|
                    tick_before(x_min as int, x_max as int, w, x as int, c) && is_tick(
                        y_min as int,
                        y_max as int,
                        h,
                        r,
                    ),
            ),
        decreases x_end - x + 1,
    {
        assert(x_min <= x * UNIT <= x_max) by (nonlinear_arith)
            requires
                x_start <= x <= x_end,
                x_start * UNIT >= x_min,
                x_end * UNIT <= x_max,
                UNIT > 0,
        ;
        let col = tick_cell_of(x, x_min, x_max, go.width);
        let mut y: i64 = y_start;
        assert(rows_of(matrix@) =~~= with_lit(
            g0,
            |r: int, c: int|
                (tick_before(x_min as int, x_max as int, w, x as int, c) && is_tick(
                    y_min as int,
                    y_max as int,
                    h,
                    r,
                )) || (c == col && tick_before(y_min as int, y_max as int, h, y as int, r)),
        )) by {
            assert forall|r: int| !tick_before(y_min as int, y_max as int, h, y as int, r) by {}
        }
        while y <= y_end
            invariant
                w == go.width <= MAX_SIDE,
                h == go.height <= MAX_SIDE,
                y_start <= y,
                y_start == first_whole(y_min as int),
                y_end == last_whole(y_max as int),
                y_start * UNIT >= y_min,
                y_end * UNIT <= y_max,
                -9_223_372_036_855 <= y_end <= 9_223_372_036_855,
                col == tick_cell(x as int, x_min as int, x_max as int, w),
                rows_of(matrix@) == with_lit(
                    g0,
                    |r: int, c: int|
                        (tick_before(x_min as int, x_max as int, w, x as int, c) && is_tick(
                            y_min as int,
                            y_max as int,
                            h,
                            r,
                        )) || (c == col && tick_before(y_min as int, y_max as int, h, y as int, r)),
                ),
            decreases y_end - y + 1,
        {
            assert(y_min <= y * UNIT <= y_max) by (nonlinear_arith)
                requires
                    y_start <= y <= y_end,
                    y_start * UNIT >= y_min,
                    y_end * UNIT <= y_max,
                    UNIT > 0,
            ;
            let row = tick_cell_of(y, y_min, y_max, go.height);
            light_cell(matrix, row, col);
            proof {
                lemma_tick_before_step(y_min as int, y_max as int, h, y as int);
            }
            y = y + 1;
            assert(rows_of(matrix@) =~~= with_lit(
                g0,
                |r: int, c: int|
                    (tick_before(x_min as int, x_max as int, w, x as int, c) && is_tick(
                        y_min as int,
                        y_max as int,
                        h,
                        r,
                    )) || (c == col && tick_before(y_min as int, y_max as int, h, y as int, r)),
            ));
        }
        proof {
            lemma_tick_before_step(x_min as int, x_max as int, w, x as int);
            assert forall|r: int|
                tick_before(y_min as int, y_max as int, h, y as int, r) == is_tick(
                    y_min as int,
                    y_max as int,
                    h,
                    r,
                ) by {
                if y_start > y_end {
                    assert(!tick_before(y_min as int, y_max as int, h, y as int, r));
                    assert(!is_tick(y_min as int, y_max as int, h, r));
                }
            }
        }
        x = x + 1;
        assert(rows_of(matrix@) =~~= with_lit(
            g0,
            |r: int, c: int|
                tick_before(x_min as int, x_max as int, w, x as int, c) && is_tick(
                    y_min as int,
                    y_max as int,
                    h,
                    r,
                ),
        ));
    }
    proof {
        assert forall|c: int|
            tick_before(x_min as int, x_max as int, w, x as int, c) == is_tick(
                x_min as int,
                x_max as int,
                w,
                c,
            ) by {
            if x_start > x_end {
                assert(!tick_before(x_min as int, x_max as int, w, x as int, c));
                assert(!is_tick(x_min as int, x_max as int, w, c));
            }
        }
    }
    assert(rows_of(matrix@) =~~= with_lit(
        g0,
        |r: int, c: int|
            on_tick(g0, x_min as int, x_max as int, y_min as int, y_max as int, *go, r, c),
    ));
}

} // verus!
