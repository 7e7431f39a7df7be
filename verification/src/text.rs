//! Searching and rewriting text, character by character.

use crate::string_maker::chars_of;
use vstd::prelude::*;

verus! {

/// `pattern` stands in `text` at position `at`.
pub open spec fn matches_at(text: Seq<char>, pattern: Seq<char>, at: int) -> bool {
    &&& 0 <= at
    &&& at + pattern.len() <= text.len()
    &&& text.subrange(at, at + pattern.len()) == pattern
}

/// `pattern` stands somewhere in `text`.
pub open spec fn contains(text: Seq<char>, pattern: Seq<char>) -> bool {
    exists|at: int| matches_at(text, pattern, at)
}

/// `text` from position `from` on, with every occurrence of `pattern`
/// replaced by `with`. Occurrences are found from left to right and do not
/// overlap.
pub open spec fn replaced(text: Seq<char>, pattern: Seq<char>, with: Seq<char>, from: int) -> Seq<
    char,
>
    decreases text.len() - from,
{
    if from >= text.len() || from < 0 {
        Seq::<char>::empty()
    } else if pattern.len() > 0 && matches_at(text, pattern, from) {
        with + replaced(text, pattern, with, from + pattern.len())
    } else {
        seq![text[from]] + replaced(text, pattern, with, from + 1)
    }
}

/// Says whether two sequences of characters are the same.
pub fn same_chars(a: &Vec<char>, b: &Vec<char>) -> (same: bool)
    ensures
        same == (a@ == b@),
{
    if a.len() != b.len() {
        return false;
    }
    let mut i: usize = 0;
    while i < a.len()
        invariant
            i <= a@.len(),
            a@.len() == b@.len(),
            a@.take(i as int) == b@.take(i as int),
        decreases a@.len() - i,
    {
        if a[i] != b[i] {
            assert(a@[i as int] != b@[i as int]);
            return false;
        }
        i = i + 1;
        assert(a@.take(i as int) =~= a@.take(i - 1).push(a@[i - 1]));
        assert(b@.take(i as int) =~= b@.take(i - 1).push(b@[i - 1]));
    }
    assert(a@.take(i as int) =~= a@);
    assert(b@.take(i as int) =~= b@);
    true
}

/// Says whether two texts are the same.
pub fn same_text(a: &str, b: &str) -> (same: bool)
    ensures
        same == (a@ == b@),
{
    let x = chars_of(a);
    let y = chars_of(b);
    same_chars(&x, &y)
}

/// Says whether `pattern` stands in `text` at position `at`.
pub fn matches_here(text: &Vec<char>, pattern: &Vec<char>, at: usize) -> (found: bool)
    ensures
        found == matches_at(text@, pattern@, at as int),
{
    if at > text.len() || pattern.len() > text.len() - at {
        return false;
    }
    let ghost len = text.len();
    let mut i: usize = 0;
    while i < pattern.len()
        invariant
            i <= pattern@.len(),
            at + pattern@.len() <= text@.len() == len,
            text@.subrange(at as int, at + i) == pattern@.take(i as int),
        decreases pattern@.len() - i,
    {
        if text[at + i] != pattern[i] {
            assert(text@.subrange(at as int, at + pattern@.len())[i as int] != pattern@[i as int]);
            return false;
        }
        i = i + 1;
        assert(text@.subrange(at as int, at + i) =~= text@.subrange(at as int, at + i - 1).push(
            text@[at + i - 1],
        ));
        assert(pattern@.take(i as int) =~= pattern@.take(i - 1).push(pattern@[i - 1]));
    }
    assert(pattern@.take(i as int) =~= pattern@);
    true
}

/// Says whether `pattern` stands somewhere in `text`.
pub fn has_pattern(text: &Vec<char>, pattern: &Vec<char>) -> (found: bool)
    ensures
        found == contains(text@, pattern@),
{
    let mut at: usize = 0;
    while at < text.len()
        invariant
            at <= text@.len(),
            forall|k: int| 0 <= k < at ==> !matches_at(text@, pattern@, k),
        decreases text@.len() - at,
    {
        if matches_here(text, pattern, at) {
            return true;
        }
        at = at + 1;
    }
    if matches_here(text, pattern, at) {
        return true;
    }
    assert forall|k: int| !matches_at(text@, pattern@, k) by {
        if 0 <= k && k + pattern@.len() <= text@.len() {
            assert(k <= at);
        }
    }
    false
}

/// Replaces every occurrence of `pattern` in `text` by `with`; see
/// [`replaced`].
pub fn replace_all(text: &Vec<char>, pattern: &Vec<char>, with: &Vec<char>) -> (out: Vec<char>)
    requires
        pattern@.len() > 0,
    ensures
        out@ == replaced(text@, pattern@, with@, 0),
{
    let mut out: Vec<char> = Vec::new();
    let mut at: usize = 0;
    assert(out@ + replaced(text@, pattern@, with@, 0) =~= replaced(text@, pattern@, with@, 0));
    while at < text.len()
        invariant
            at <= text@.len(),
            pattern@.len() > 0,
            out@ + replaced(text@, pattern@, with@, at as int) == replaced(
                text@,
                pattern@,
                with@,
                0,
            ),
        decreases text@.len() - at,
    {
        let ghost before = out@;
        if matches_here(text, pattern, at) {
            let mut k: usize = 0;
            while k < with.len()
                invariant
                    k <= with@.len(),
                    out@ == before + with@.take(k as int),
                decreases with@.len() - k,
            {
                out.push(with[k]);
                k = k + 1;
                assert(out@ =~= before + with@.take(k as int));
            }
            assert(with@.take(k as int) =~= with@);
            assert(out@ + replaced(text@, pattern@, with@, at + pattern@.len()) =~= before
                + replaced(text@, pattern@, with@, at as int));
            at = at + pattern.len();
        } else {
            out.push(text[at]);
            assert(out@ + replaced(text@, pattern@, with@, at + 1) =~= before + replaced(
                text@,
                pattern@,
                with@,
                at as int,
            ));
            at = at + 1;
        }
    }
    assert(out@ + replaced(text@, pattern@, with@, at as int) =~= out@);
    out
}

} // verus!
