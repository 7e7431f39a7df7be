//! Facts of integer arithmetic that the renderers share.

use vstd::prelude::*;

verus! {

/// The absolute value of `v`.
pub open spec fn abs(v: int) -> int {
    if v < 0 {
        -v
    } else {
        v
    }
}

/// `num / den` rounded to the nearest integer, a half rounded up; `den` is
/// positive.
pub open spec fn round_div(num: int, den: int) -> int {
    (2 * num + den) / (2 * den)
}

/// A quotient is known from the multiples of the divisor around the dividend.
pub proof fn lemma_div_between(x: int, d: int, q: int)
    requires
        d > 0,
        q * d <= x < q * d + d,
    ensures
        x / d == q,
{
    vstd::arithmetic::div_mod::lemma_fundamental_div_mod_converse(x, d, q, x - q * d);
}

/// The multiples of the divisor around a dividend.
pub proof fn lemma_div_bounds(x: int, d: int)
    requires
        d > 0,
    ensures
        (x / d) * d <= x < (x / d) * d + d,
{
    vstd::arithmetic::div_mod::lemma_fundamental_div_mod(x, d);
    vstd::arithmetic::div_mod::lemma_mod_bound(x, d);
    assert(d * (x / d) == (x / d) * d) by (nonlinear_arith);
}

/// Division by a positive number keeps the order.
pub proof fn lemma_div_monotone(x: int, y: int, d: int)
    requires
        d > 0,
        x <= y,
    ensures
        x / d <= y / d,
{
    lemma_div_bounds(x, d);
    lemma_div_bounds(y, d);
    let p = x / d;
    let q = y / d;
    if p > q {
        assert(p * d >= (q + 1) * d) by (nonlinear_arith)
            requires
                p >= q + 1,
                d > 0,
        ;
        assert((q + 1) * d == q * d + d) by (nonlinear_arith);
    }
}

/// A part of a range, scaled to a side and rounded, lies on the side.
pub proof fn lemma_round_div_scaled(part: int, range: int, side: int)
    requires
        0 <= part <= range,
        range > 0,
        side >= 0,
    ensures
        0 <= round_div(part * side, range) <= side,
        part == 0 ==> round_div(part * side, range) == 0,
        part == range ==> round_div(part * side, range) == side,
{
    let num = part * side;
    assert(0 <= num <= range * side) by (nonlinear_arith)
        requires
            0 <= part <= range,
            side >= 0,
            num == part * side,
    ;
    lemma_div_monotone(0, 2 * num + range, 2 * range);
    lemma_div_monotone(2 * num + range, 2 * (range * side) + range, 2 * range);
    lemma_div_between(0, 2 * range, 0);
    lemma_div_between(range, 2 * range, 0);
    assert(side * (2 * range) <= 2 * (range * side) + range < side * (2 * range) + 2 * range)
        by (nonlinear_arith)
        requires
            range > 0,
    ;
    lemma_div_between(2 * (range * side) + range, 2 * range, side);
    if part == 0 {
        assert(num == 0) by (nonlinear_arith)
            requires
                part == 0,
                num == part * side,
        ;
    }
}

/// The largest magnitude for which [`div_floor`] and [`div_round`] are
/// offered: two to the power of 120.
pub const WIDE_LIMIT: i128 = 0x100_0000_0000_0000_0000_0000_0000_0000;

/// `num / den` rounded down, also for a negative `num`.
pub fn div_floor(num: i128, den: i128) -> (q: i128)
    requires
        0 < den <= WIDE_LIMIT,
        -WIDE_LIMIT <= num <= WIDE_LIMIT,
    ensures
        q == num as int / den as int,
        -WIDE_LIMIT <= q <= WIDE_LIMIT,
{
    if num >= 0 {
        let q = num / den;
        proof {
            lemma_div_bounds(num as int, den as int);
            assert(q * den >= q) by (nonlinear_arith)
                requires
                    q >= 0,
                    den >= 1,
            ;
        }
        q
    } else {
        let m: i128 = -num;
        let p: i128 = (m + den - 1) / den;
        proof {
            lemma_div_bounds(m + den - 1, den as int);
            assert((-p) * den == -(p * den)) by (nonlinear_arith);
            lemma_div_between(num as int, den as int, -p);
            assert(p <= m) by (nonlinear_arith)
                requires
                    p * den <= m + den - 1,
                    m >= 1,
                    den >= 1,
            ;
        }
        -p
    }
}

/// `num / den` rounded to the nearest integer, a half rounded up.
pub fn div_round(num: i128, den: i128) -> (q: i128)
    requires
        0 < den <= WIDE_LIMIT / 4,
        -WIDE_LIMIT / 4 <= num <= WIDE_LIMIT / 4,
    ensures
        q == round_div(num as int, den as int),
        -WIDE_LIMIT <= q <= WIDE_LIMIT,
{
    div_floor(2 * num + den, 2 * den)
}

} // verus!
