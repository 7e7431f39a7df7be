//! Text: numbers as decimal digits, and the frame around a picture.

use crate::arith::{div_round, round_div};
use crate::common::{rows_of, CharMatrix, Point, UNIT};
use vstd::prelude::*;
use vstd::string::StringExecFns;

verus! {

pub const UPPER_LEFT: char = '┌';

pub const UPPER_RIGHT: char = '┐';

pub const BOTTOM_LEFT: char = '└';

pub const BOTTOM_RIGHT: char = '┘';

pub const HORIZONTAL_BAR: char = '─';

pub const VERTICAL_BAR: char = '│';

/// The escape sequences that switch underlining on and off.
pub const UNDERLINE_START: &'static str = "\u{001b}[4m";

pub const UNDERLINE_END: &'static str = "\u{001b}[0m";

/// `String::push` of the standard library appends one character.
pub assume_specification[ String::push ](s: &mut String, c: char)
    ensures
        final(s)@ == old(s)@.push(c),
;

/// The character of the decimal digit `d`.
pub open spec fn digit(d: int) -> char {
    (48 + d) as u8 as char
}

/// The decimal digits of `n`, without leading zeros; "0" for zero.
pub open spec fn decimal(n: nat) -> Seq<char>
    decreases n,
{
    if n < 10 {
        seq![digit(n as int)]
    } else {
        decimal(n / 10).push(digit((n % 10) as int))
    }
}

/// The digits of the fraction `frac / scale` without trailing zeros, where
/// `scale` is a power of ten and `frac` is less than it; nothing for zero.
pub open spec fn fraction(frac: nat, scale: nat) -> Seq<char>
    decreases scale,
{
    if frac == 0 || scale < 10 {
        Seq::<char>::empty()
    } else {
        seq![digit((frac / (scale / 10)) as int)] + fraction(frac % (scale / 10), scale / 10)
    }
}

/// `scale` is a power of ten.
pub open spec fn is_power_of_ten(scale: nat) -> bool
    decreases scale,
{
    scale == 1 || (scale >= 10 && scale % 10 == 0 && is_power_of_ten(scale / 10))
}

/// `c`, `n` times.
pub open spec fn repeated(c: char, n: nat) -> Seq<char> {
    Seq::new(n, |i: int| c)
}

/// The sign of a scalar as text: a minus for a negative one.
pub open spec fn sign(v: int) -> Seq<char> {
    if v < 0 {
        seq!['-']
    } else {
        Seq::<char>::empty()
    }
}

/// The absolute value of `v`.
pub open spec fn magnitude(v: int) -> nat {
    if v < 0 {
        (-v) as nat
    } else {
        v as nat
    }
}

/// A scalar with two decimal places: the value rounded to the nearest
/// hundredth, a half away from zero.
pub open spec fn two_places(v: int) -> Seq<char> {
    let hundredths = round_div(magnitude(v) as int, UNIT / 100) as nat;
    sign(v) + decimal(hundredths / 100) + seq![
        '.',
        digit((hundredths / 10 % 10) as int),
        digit((hundredths % 10) as int),
    ]
}

/// A scalar of magnitude `m` with as many decimal places as it needs, and
/// none for a whole number; a minus before it where `negative` says so.
pub open spec fn plain_parts(negative: bool, m: nat) -> Seq<char> {
    let whole = m / (UNIT as nat);
    let frac = m % (UNIT as nat);
    (if negative {
        seq!['-']
    } else {
        Seq::<char>::empty()
    }) + decimal(whole) + if frac == 0 {
        Seq::<char>::empty()
    } else {
        seq!['.'] + fraction(frac, UNIT as nat)
    }
}

/// A scalar with as many decimal places as it needs, and none for a whole
/// number.
pub open spec fn plain(v: int) -> Seq<char> {
    plain_parts(v < 0, magnitude(v))
}

/// A scalar rounded to the nearest hundredth, a half away from zero, with
/// the decimal places that are left.
pub open spec fn rounded_plain(v: int) -> Seq<char> {
    plain_parts(v < 0, (round_div(magnitude(v) as int, UNIT / 100) * (UNIT / 100)) as nat)
}

/// `text`, and spaces after it up to a width of `width` characters.
pub open spec fn padded(text: Seq<char>, width: nat) -> Seq<char> {
    text + repeated(
        ' ',
        if text.len() < width {
            (width - text.len()) as nat
        } else {
            0nat
        },
    )
}

/// Appends the character of the digit `d`.
fn push_digit(out: &mut String, d: u64)
    requires
        d < 10,
    ensures
        final(out)@ == old(out)@.push(digit(d as int)),
{
    out.push((48u8 + d as u8) as char);
}

/// Appends the decimal digits of `n`.
pub fn push_decimal(out: &mut String, n: u64)
    ensures
        final(out)@ == old(out)@ + decimal(n as nat),
    decreases n,
{
    if n >= 10 {
        push_decimal(out, n / 10);
    }
    push_digit(out, n % 10);
    proof {
        if n < 10 {
            assert(out@ =~= old(out)@ + decimal(n as nat));
        } else {
            assert(out@ =~= old(out)@ + decimal(n as nat));
        }
    }
}

/// Appends the digits of the fraction `frac / scale`.
fn push_fraction(out: &mut String, frac: u64, scale: u64)
    requires
        frac < scale,
        is_power_of_ten(scale as nat),
    ensures
        final(out)@ == old(out)@ + fraction(frac as nat, scale as nat),
    decreases scale,
{
    if frac == 0 || scale < 10 {
        assert(out@ =~= old(out)@ + fraction(frac as nat, scale as nat));
    } else {
        let next = scale / 10;
        proof {
            let q = (frac / next) as int;
            crate::arith::lemma_div_bounds(frac as int, next as int);
            assert(q < 10) by (nonlinear_arith)
                requires
                    q * next <= frac,
                    frac < 10 * next,
                    next > 0,
            ;
            crate::arith::lemma_div_bounds(frac as int, next as int);
            vstd::arithmetic::div_mod::lemma_mod_bound(frac as int, next as int);
        }
        push_digit(out, frac / next);
        let ghost mid = out@;
        push_fraction(out, frac % next, next);
        assert(out@ =~= old(out)@ + fraction(frac as nat, scale as nat));
    }
}

/// Appends `c`, `n` times.
pub fn push_repeated(out: &mut String, c: char, n: usize)
    ensures
        final(out)@ == old(out)@ + repeated(c, n as nat),
{
    let mut i: usize = 0;
    assert(out@ =~= old(out)@ + repeated(c, 0));
    while i < n
        invariant
            i <= n,
            out@ == old(out)@ + repeated(c, i as nat),
        decreases n - i,
    {
        out.push(c);
        i = i + 1;
        assert(out@ =~= old(out)@ + repeated(c, i as nat));
    }
}

/// Appends the characters of `chars`.
pub fn push_chars(out: &mut String, chars: &Vec<char>)
    ensures
        final(out)@ == old(out)@ + chars@,
{
    let mut i: usize = 0;
    assert(out@ =~= old(out)@ + chars@.take(0));
    while i < chars.len()
        invariant
            i <= chars@.len(),
            out@ == old(out)@ + chars@.take(i as int),
        decreases chars@.len() - i,
    {
        out.push(chars[i]);
        i = i + 1;
        assert(out@ =~= old(out)@ + chars@.take(i as int));
    }
    assert(chars@.take(i as int) =~= chars@);
}

/// The characters of `text`.
pub fn chars_of(text: &str) -> (chars: Vec<char>)
    ensures
        chars@ == text@,
{
    let mut chars: Vec<char> = Vec::new();
    for c in it: text.chars()
        invariant
            it.seq() == text@,
            chars@ == it.seq().take(it.index()),
    {
        chars.push(c);
        assert(chars@ =~= it.seq().take(it.index() + 1));
    }
    assert(chars@ =~= text@);
    chars
}

/// The text made of `chars`.
pub fn string_of(chars: &Vec<char>) -> (text: String)
    ensures
        text@ == chars@,
{
    let mut text = String::new();
    push_chars(&mut text, chars);
    assert(text@ =~= chars@);
    text
}

/// The number of line feeds in `text`.
pub open spec fn newlines(text: Seq<char>) -> nat
    decreases text.len(),
{
    if text.len() == 0 {
        0
    } else {
        newlines(text.drop_last()) + if text.last() == '\n' {
            1nat
        } else {
            0nat
        }
    }
}

/// The number of lines that a cursor moves down while `text` is printed
/// and followed by a line feed: one more than the line feeds in it, and at
/// most `usize::MAX`.
pub open spec fn line_count(text: Seq<char>) -> nat {
    if newlines(text) + 1 > usize::MAX {
        usize::MAX as nat
    } else {
        newlines(text) + 1
    }
}

/// Counts the lines of `text`; see [`line_count`].
pub fn count_lines(text: &str) -> (lines: usize)
    ensures
        lines == line_count(text@),
{
    let chars = chars_of(text);
    let mut count: usize = 0;
    let mut i: usize = 0;
    while i < chars.len()
        invariant
            i <= chars@.len(),
            count == newlines(chars@.take(i as int)),
            count <= i,
        decreases chars@.len() - i,
    {
        assert(chars@.take(i + 1).drop_last() =~= chars@.take(i as int));
        if chars[i] == '\n' {
            count = count + 1;
        }
        i = i + 1;
    }
    assert(chars@.take(i as int) =~= chars@);
    if count < usize::MAX {
        count + 1
    } else {
        count
    }
}

/// The magnitude of a scalar, and whether the scalar is negative.
fn split_sign(v: i64) -> (parts: (bool, u64))
    ensures
        parts.0 == (v < 0),
        parts.1 == magnitude(v as int),
{
    if v < 0 {
        (true, (-(v as i128)) as u64)
    } else {
        (false, v as u64)
    }
}

/// Appends a scalar with two decimal places; see [`two_places`].
pub fn push_two_places(out: &mut String, v: i64)
    ensures
        final(out)@ == old(out)@ + two_places(v as int),
{
    let (negative, m) = split_sign(v);
    if negative {
        out.push('-');
    }
    proof {
        crate::arith::lemma_div_bounds(2 * m + 10_000, 20_000);
    }
    let hundredths = div_round(m as i128, (UNIT / 100) as i128) as u64;
    push_decimal(out, hundredths / 100);
    out.push('.');
    push_digit(out, hundredths / 10 % 10);
    push_digit(out, hundredths % 10);
    assert(out@ =~= old(out)@ + two_places(v as int));
}

/// Appends a scalar with the decimal places it needs; see [`plain`].
pub fn push_plain(out: &mut String, v: i64)
    ensures
        final(out)@ == old(out)@ + plain(v as int),
{
    let (negative, m) = split_sign(v);
    push_plain_parts(out, negative, m);
}

/// The characters of a scalar rounded to hundredths; see [`rounded_plain`].
fn rounded_chars(v: i64) -> (chars: Vec<char>)
    ensures
        chars@ == rounded_plain(v as int),
{
    let (negative, m) = split_sign(v);
    proof {
        crate::arith::lemma_div_bounds(2 * m + 10_000, 20_000);
    }
    let hundredths = div_round(m as i128, (UNIT / 100) as i128) as u64;
    assert(hundredths * 20_000 <= 2 * m + 10_000);
    let mut text = String::new();
    push_plain_parts(&mut text, negative, hundredths * 10_000);
    let chars = chars_of(text.as_str());
    assert(chars@ =~= rounded_plain(v as int));
    chars
}

/// Appends `text` and the spaces that fill it up to `width` characters.
fn push_padded(out: &mut String, text: &Vec<char>, width: usize)
    ensures
        final(out)@ == old(out)@ + padded(text@, width as nat),
{
    push_chars(out, text);
    push_repeated(
        out,
        ' ',
        if text.len() < width {
            width - text.len()
        } else {
            0
        },
    );
    assert(out@ =~= old(out)@ + padded(text@, width as nat));
}

/// Appends a scalar given by its sign and magnitude; see [`plain_parts`].
fn push_plain_parts(out: &mut String, negative: bool, m: u64)
    ensures
        final(out)@ == old(out)@ + plain_parts(negative, m as nat),
{
    if negative {
        out.push('-');
    }
    let unit = UNIT as u64;
    push_decimal(out, m / unit);
    let frac = m % unit;
    if frac != 0 {
        out.push('.');
        assert(is_power_of_ten(1_000_000)) by {
            reveal_with_fuel(is_power_of_ten, 8);
        }
        push_fraction(out, frac, unit);
    }
    assert(out@ =~= old(out)@ + plain_parts(negative, m as nat));
}

/// The rows of a picture, each between two vertical bars and ended by a
/// line feed.
pub open spec fn framed_rows(chars: Seq<Seq<char>>) -> Seq<char>
    decreases chars.len(),
{
    if chars.len() == 0 {
        Seq::<char>::empty()
    } else {
        framed_rows(chars.drop_last()) + seq![VERTICAL_BAR] + chars.last() + seq![
            VERTICAL_BAR,
            '\n',
        ]
    }
}

/// The interior width of the frame: the length of the first row, and 0
/// for a picture without rows.
pub open spec fn gap_of(chars: Seq<Seq<char>>) -> nat {
    if chars.len() == 0 {
        0
    } else {
        chars[0].len()
    }
}

/// A horizontal border of the frame between the corners `left` and `right`,
/// followed by the label of that border with two decimal places.
pub open spec fn border(left: char, right: char, gap: nat, label: int) -> Seq<char> {
    seq![left] + repeated(HORIZONTAL_BAR, gap) + seq![right] + two_places(label) + seq!['\n']
}

/// The line that names the ends of the horizontal axis: `x_min`, one space
/// less than the interior width, `x_max`, five spaces.
pub open spec fn x_labels(gap: nat, x_min: int, x_max: int) -> Seq<char> {
    plain(x_min) + repeated(
        ' ',
        if gap == 0 {
            0nat
        } else {
            (gap - 1) as nat
        },
    ) + plain(x_max) + repeated(' ', 5)
}

/// A graph as text: the frame with `y_max` on its upper and `y_min` on its
/// lower border, and the ends of the horizontal axis below it.
pub open spec fn graph_text(
    chars: Seq<Seq<char>>,
    x_min: int,
    x_max: int,
    y_min: int,
    y_max: int,
) -> Seq<char> {
    border(UPPER_LEFT, UPPER_RIGHT, gap_of(chars), y_max) + framed_rows(chars) + border(
        BOTTOM_LEFT,
        BOTTOM_RIGHT,
        gap_of(chars),
        y_min,
    ) + x_labels(gap_of(chars), x_min, x_max)
}

/// A curve as text: the ends of the horizontal axis between two line
/// feeds, then the frame with `y_min` on its upper and `y_max` on its lower
/// border, for the rows of a curve run downwards.
pub open spec fn curve_text(
    chars: Seq<Seq<char>>,
    x_min: int,
    x_max: int,
    y_min: int,
    y_max: int,
) -> Seq<char> {
    seq!['\n'] + x_labels(gap_of(chars), x_min, x_max) + seq!['\n'] + border(
        UPPER_LEFT,
        UPPER_RIGHT,
        gap_of(chars),
        y_min,
    ) + framed_rows(chars) + border(BOTTOM_LEFT, BOTTOM_RIGHT, gap_of(chars), y_max)
}

/// The interior width of the frame; see [`gap_of`].
fn gap(chars: &CharMatrix) -> (gap: usize)
    ensures
        gap == gap_of(rows_of(chars@)),
{
    if chars.len() == 0 {
        0
    } else {
        chars[0].len()
    }
}

/// Appends a horizontal border; see [`border`].
fn push_border(out: &mut String, left: char, right: char, gap: usize, label: i64)
    ensures
        final(out)@ == old(out)@ + border(left, right, gap as nat, label as int),
{
    out.push(left);
    push_repeated(out, HORIZONTAL_BAR, gap);
    out.push(right);
    push_two_places(out, label);
    out.push('\n');
    assert(out@ =~= old(out)@ + border(left, right, gap as nat, label as int));
}

/// Appends the framed rows; see [`framed_rows`].
fn push_framed_rows(out: &mut String, chars: &CharMatrix)
    ensures
        final(out)@ == old(out)@ + framed_rows(rows_of(chars@)),
{
    let mut i: usize = 0;
    assert(out@ =~= old(out)@ + framed_rows(rows_of(chars@).take(0)));
    while i < chars.len()
        invariant
            i <= chars@.len(),
            out@ == old(out)@ + framed_rows(rows_of(chars@).take(i as int)),
        decreases chars@.len() - i,
    {
        let ghost before = out@;
        out.push(VERTICAL_BAR);
        push_chars(out, &chars[i]);
        out.push(VERTICAL_BAR);
        out.push('\n');
        proof {
            let next = rows_of(chars@).take(i + 1);
            assert(next.drop_last() =~= rows_of(chars@).take(i as int));
            assert(next.last() == chars@[i as int]@);
            assert(out@ =~= before + seq![VERTICAL_BAR] + chars@[i as int]@ + seq![
                VERTICAL_BAR,
                '\n',
            ]);
            assert(out@ =~= old(out)@ + framed_rows(next));
        }
        i = i + 1;
    }
    assert(rows_of(chars@).take(i as int) =~= rows_of(chars@));
}

/// Appends the line of the horizontal axis; see [`x_labels`].
fn push_x_labels(out: &mut String, gap: usize, x_min: i64, x_max: i64)
    ensures
        final(out)@ == old(out)@ + x_labels(gap as nat, x_min as int, x_max as int),
{
    push_plain(out, x_min);
    push_repeated(
        out,
        ' ',
        if gap == 0 {
            0
        } else {
            gap - 1
        },
    );
    push_plain(out, x_max);
    push_repeated(out, ' ', 5);
    assert(out@ =~= old(out)@ + x_labels(gap as nat, x_min as int, x_max as int));
}

/// Wraps the characters of a graph in its frame; see [`graph_text`].
pub fn make_graph_string(chars: CharMatrix, x_min: i64, x_max: i64, y_min: i64, y_max: i64) -> (s:
    String)
    ensures
        s@ == graph_text(
            rows_of(chars@),
            x_min as int,
            x_max as int,
            y_min as int,
            y_max as int,
        ),
{
    let gap = gap(&chars);
    let mut s = String::new();
    push_border(&mut s, UPPER_LEFT, UPPER_RIGHT, gap, y_max);
    push_framed_rows(&mut s, &chars);
    push_border(&mut s, BOTTOM_LEFT, BOTTOM_RIGHT, gap, y_min);
    push_x_labels(&mut s, gap, x_min, x_max);
    assert(s@ =~= graph_text(
        rows_of(chars@),
        x_min as int,
        x_max as int,
        y_min as int,
        y_max as int,
    ));
    s
}

/// Wraps the characters of a curve in its frame; see [`curve_text`].
pub fn make_curve_string(chars: CharMatrix, x_min: i64, x_max: i64, y_min: i64, y_max: i64) -> (s:
    String)
    ensures
        s@ == curve_text(
            rows_of(chars@),
            x_min as int,
            x_max as int,
            y_min as int,
            y_max as int,
        ),
{
    let gap = gap(&chars);
    let mut s = String::new();
    s.push('\n');
    push_x_labels(&mut s, gap, x_min, x_max);
    s.push('\n');
    push_border(&mut s, UPPER_LEFT, UPPER_RIGHT, gap, y_min);
    push_framed_rows(&mut s, &chars);
    push_border(&mut s, BOTTOM_LEFT, BOTTOM_RIGHT, gap, y_max);
    assert(s@ =~= curve_text(
        rows_of(chars@),
        x_min as int,
        x_max as int,
        y_min as int,
        y_max as int,
    ));
    s
}

/// The row of one point in a table: both coordinates rounded to
/// hundredths, `x` in a column of four characters and `y` in one of six,
/// underlined.
pub open spec fn table_row(p: Point) -> Seq<char> {
    seq![VERTICAL_BAR] + UNDERLINE_START@ + padded(rounded_plain(p.x as int), 4) + seq![
        ' ',
        VERTICAL_BAR,
        ' ',
    ] + padded(rounded_plain(p.y as int), 6) + UNDERLINE_END@ + seq![VERTICAL_BAR, '\n']
}

/// The rows of a table, one for each point.
pub open spec fn table_rows(points: Seq<Point>) -> Seq<char>
    decreases points.len(),
{
    if points.len() == 0 {
        Seq::<char>::empty()
    } else {
        table_rows(points.drop_last()) + table_row(points.last())
    }
}

/// The upper border of a table and the row that names its two columns.
pub open spec fn table_head() -> Seq<char> {
    seq![UPPER_LEFT] + repeated(HORIZONTAL_BAR, 13) + seq![UPPER_RIGHT, ' ', '\n'] + seq![
        VERTICAL_BAR,
    ] + UNDERLINE_START@ + seq![' '] + padded(seq!['X'], 4) + seq![VERTICAL_BAR, ' '] + padded(
        seq!['Y'],
        6,
    ) + UNDERLINE_END@ + seq![VERTICAL_BAR, '\n']
}

/// The lower border of a table.
pub open spec fn table_foot() -> Seq<char> {
    seq![BOTTOM_LEFT] + repeated(HORIZONTAL_BAR, 13) + seq![BOTTOM_RIGHT, ' ']
}

/// A table of points as text: a frame thirteen characters wide, a head
/// that names the two columns, and a row for each point.
pub open spec fn table_text(points: Seq<Point>) -> Seq<char> {
    table_head() + table_rows(points) + table_foot()
}

/// Appends the head of a table; see [`table_head`].
fn push_table_head(s: &mut String)
    ensures
        final(s)@ == old(s)@ + table_head(),
{
    s.push(UPPER_LEFT);
    push_repeated(s, HORIZONTAL_BAR, 13);
    s.push(UPPER_RIGHT);
    s.push(' ');
    s.push('\n');
    s.push(VERTICAL_BAR);
    s.append(UNDERLINE_START);
    s.push(' ');
    let mut x_head: Vec<char> = Vec::new();
    x_head.push('X');
    let mut y_head: Vec<char> = Vec::new();
    y_head.push('Y');
    assert(x_head@ =~= seq!['X']);
    assert(y_head@ =~= seq!['Y']);
    push_padded(s, &x_head, 4);
    s.push(VERTICAL_BAR);
    s.push(' ');
    push_padded(s, &y_head, 6);
    s.append(UNDERLINE_END);
    s.push(VERTICAL_BAR);
    s.push('\n');
    assert(s@ =~= old(s)@ + table_head());
}

/// Appends the row of one point; see [`table_row`].
fn push_table_row(s: &mut String, p: &Point)
    ensures
        final(s)@ == old(s)@ + table_row(*p),
{
    s.push(VERTICAL_BAR);
    s.append(UNDERLINE_START);
    let x = rounded_chars(p.x);
    push_padded(s, &x, 4);
    s.push(' ');
    s.push(VERTICAL_BAR);
    s.push(' ');
    let y = rounded_chars(p.y);
    push_padded(s, &y, 6);
    s.append(UNDERLINE_END);
    s.push(VERTICAL_BAR);
    s.push('\n');
    assert(s@ =~= old(s)@ + table_row(*p));
}

/// Writes the table of `points`; see [`table_text`].
pub fn make_table_string(points: Vec<Point>) -> (s: String)
    ensures
        s@ == table_text(points@),
{
    let mut s = String::new();
    push_table_head(&mut s);
    let mut i: usize = 0;
    assert(s@ =~= table_head() + table_rows(points@.take(0)));
    while i < points.len()
        invariant
            i <= points@.len(),
            s@ == table_head() + table_rows(points@.take(i as int)),
        decreases points@.len() - i,
    {
        push_table_row(&mut s, &points[i]);
        proof {
            let next = points@.take(i + 1);
            assert(next.drop_last() =~= points@.take(i as int));
            assert(next.last() == points@[i as int]);
            assert(s@ =~= table_head() + table_rows(next));
        }
        i = i + 1;
    }
    assert(points@.take(i as int) =~= points@);
    let ghost body = s@;
    s.push(BOTTOM_LEFT);
    push_repeated(&mut s, HORIZONTAL_BAR, 13);
    s.push(BOTTOM_RIGHT);
    s.push(' ');
    assert(s@ =~= body + table_foot());
    s
}

} // verus!
