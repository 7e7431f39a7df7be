//! Variables of a session: which lines define one, and how the values of the
//! variables and of the last answer are put into a line.

use crate::repl::{Repl, Variable};
use crate::string_maker::{chars_of, string_of};
use crate::text::{replace_all, replaced};
use vstd::prelude::*;

verus! {

/// Whether Unicode gives `c` the property Alphabetic.
pub uninterp spec fn char_is_alphabetic(c: char) -> bool;

/// Whether Unicode gives `c` the property Uppercase.
pub uninterp spec fn char_is_uppercase(c: char) -> bool;

/// Whether `c` is alphabetic or numeric by Unicode.
pub uninterp spec fn char_is_alphanumeric(c: char) -> bool;

/// `char::is_alphabetic` of the standard library; which characters it
/// accepts is left to [`char_is_alphabetic`].
pub assume_specification[ char::is_alphabetic ](c: char) -> (b: bool)
    ensures
        b == char_is_alphabetic(c),
;

/// `char::is_uppercase` of the standard library; which characters it accepts
/// is left to [`char_is_uppercase`].
pub assume_specification[ char::is_uppercase ](c: char) -> (b: bool)
    ensures
        b == char_is_uppercase(c),
;

/// `char::is_alphanumeric` of the standard library; which characters it
/// accepts is left to [`char_is_alphanumeric`].
pub assume_specification[ char::is_alphanumeric ](c: char) -> (b: bool)
    ensures
        b == char_is_alphanumeric(c),
;

/// A line that starts with a name is a definition where an equals sign
/// follows the name, at once or after one space.
pub open spec fn is_definition(line: Seq<char>, named: bool) -> bool {
    &&& named
    &&& line.len() >= 2
    &&& (line[1] == '=' || (line[1] == ' ' && line.len() >= 3 && line[2] == '='))
}

/// Says whether `line` defines a variable, given whether its first
/// character is the name of one.
pub fn defines_variable(line: &Vec<char>, named: bool) -> (defines: bool)
    ensures
        defines == is_definition(line@, named),
{
    if !named || line.len() < 2 {
        return false;
    }
    if line[1] == '=' {
        true
    } else if line[1] == ' ' {
        line.len() >= 3 && line[2] == '='
    } else {
        false
    }
}

/// `c` can name a variable: it is an uppercase letter.
pub open spec fn is_name(c: char) -> bool {
    char_is_alphabetic(c) && char_is_uppercase(c)
}

/// Says whether the line defines a variable: a single uppercase letter,
/// then an equals sign, at once or after one space.
pub fn is_variable(str: &str) -> (defines: bool)
    ensures
        defines == (str@.len() > 0 && is_definition(str@, is_name(str@[0]))),
{
    let line = chars_of(str);
    if line.len() == 0 {
        return false;
    }
    let first_char = line[0];
    let named = first_char.is_alphabetic() && first_char.is_uppercase();
    defines_variable(&line, named)
}

/// For each character of `text`, whether it is alphabetic or numeric.
pub open spec fn word_flags(text: Seq<char>) -> Seq<bool> {
    Seq::new(text.len(), |i: int| char_is_alphanumeric(text[i]))
}

/// The character at `i` is no part of a word: neither the character before
/// it nor the one after it is alphabetic or numeric.
pub open spec fn stands_alone(word: Seq<bool>, i: int) -> bool {
    !(i > 0 && word[i - 1]) && !(i + 1 < word.len() && word[i + 1])
}

/// The first `upto` characters of `text`, with `value` in place of each
/// `name` that stands alone.
pub open spec fn substituted(
    text: Seq<char>,
    word: Seq<bool>,
    name: char,
    value: Seq<char>,
    upto: int,
) -> Seq<char>
    decreases upto,
{
    if upto <= 0 {
        Seq::<char>::empty()
    } else {
        substituted(text, word, name, value, upto - 1) + if text[upto - 1] == name && stands_alone(
            word,
            upto - 1,
        ) {
            value
        } else {
            seq![text[upto - 1]]
        }
    }
}

/// Puts `value` in place of each `name` in `text` that stands alone, given
/// for each character of `text` whether it is alphabetic or numeric.
pub fn substitute(text: &Vec<char>, word: &Vec<bool>, name: char, value: &Vec<char>) -> (out: Vec<
    char,
>)
    requires
        word@.len() == text@.len(),
    ensures
        out@ == substituted(text@, word@, name, value@, text@.len() as int),
{
    let mut out: Vec<char> = Vec::new();
    let mut i: usize = 0;
    while i < text.len()
        invariant
            i <= text@.len(),
            word@.len() == text@.len(),
            out@ == substituted(text@, word@, name, value@, i as int),
        decreases text@.len() - i,
    {
        let ghost before = out@;
        let c = text[i];
        let prev_is_alphanum = i > 0 && word[i - 1];
        let next_is_alphanum = i < text.len() - 1 && word[i + 1];
        if c == name && !prev_is_alphanum && !next_is_alphanum {
            let mut k: usize = 0;
            while k < value.len()
                invariant
                    k <= value@.len(),
                    out@ == before + value@.take(k as int),
                decreases value@.len() - k,
            {
                out.push(value[k]);
                k = k + 1;
                assert(out@ =~= before + value@.take(k as int));
            }
            assert(value@.take(k as int) =~= value@);
        } else {
            out.push(c);
            assert(out@ =~= before + seq![c]);
        }
        i = i + 1;
    }
    out
}

/// Says of each character of `text` whether it is alphabetic or numeric.
pub fn flags_of(text: &Vec<char>) -> (word: Vec<bool>)
    ensures
        word@ == word_flags(text@),
{
    let mut word: Vec<bool> = Vec::new();
    let mut i: usize = 0;
    while i < text.len()
        invariant
            i <= text@.len(),
            word@ == word_flags(text@.take(i as int)),
        decreases text@.len() - i,
    {
        word.push(text[i].is_alphanumeric());
        i = i + 1;
        assert(word@ =~= word_flags(text@.take(i as int)));
    }
    assert(text@.take(i as int) =~= text@);
    word
}

/// `text` with the value of each of `variables` in place of its name where
/// the name stands alone. The variables are taken in order, each on the
/// text that the one before has left.
pub open spec fn with_variables(text: Seq<char>, variables: Seq<Variable>) -> Seq<char>
    decreases variables.len(),
{
    if variables.len() == 0 {
        text
    } else {
        let before = with_variables(text, variables.drop_last());
        substituted(
            before,
            word_flags(before),
            variables.last().name,
            variables.last().value@,
            before.len() as int,
        )
    }
}

/// `text` with the last answer in place of each `ans`, where there is an
/// answer.
pub open spec fn with_answer(text: Seq<char>, repl: Repl) -> Seq<char> {
    if repl.previous_answer_valid {
        replaced(text, "ans"@, repl.previous_answer@, 0)
    } else {
        text
    }
}

/// Prepares a line for evaluation: the last answer is written in place of
/// `ans`, then the value of each variable of the session in place of its
/// name, where the name is no part of a word.
pub fn insert_ans_vars(s: &str, repl: &Repl) -> (line: String)
    ensures
        line@ == with_variables(with_answer(s@, *repl), repl.variables@),
{
    let text = chars_of(s);
    let prepared = prepare(text, repl);
    string_of(&prepared)
}

/// `text` without the characters `c`.
pub open spec fn without(text: Seq<char>, c: char) -> Seq<char>
    decreases text.len(),
{
    if text.len() == 0 {
        text
    } else if text.last() == c {
        without(text.drop_last(), c)
    } else {
        without(text.drop_last(), c).push(text.last())
    }
}

/// The expression that a definition gives to its variable: the line after
/// the name, without its equals signs, prepared as any line is; see
/// [`insert_ans_vars`].
pub open spec fn definition_of(line: Seq<char>, repl: Repl) -> Seq<char> {
    with_variables(with_answer(without(line.drop_first(), '='), repl), repl.variables@)
}

/// Reads a definition: the name of the variable, which is the first
/// character of the line, and the expression for its value. An empty line
/// defines nothing.
pub fn handle_var(str: &str, repl: &Repl) -> (definition: Option<(char, String)>)
    ensures
        str@.len() == 0 ==> definition.is_none(),
        str@.len() > 0 ==> definition.is_some() && definition.unwrap().0 == str@[0]
            && definition.unwrap().1@ == definition_of(str@, *repl),
{
    let line = chars_of(str);
    if line.len() == 0 {
        return None;
    }
    let name = line[0];
    let mut exp: Vec<char> = Vec::new();
    let mut i: usize = 1;
    let ghost rest = line@.drop_first();
    assert(rest.take(0) =~= Seq::<char>::empty());
    while i < line.len()
        invariant
            1 <= i <= line@.len(),
            rest == line@.drop_first(),
            exp@ == without(rest.take(i - 1), '='),
        decreases line@.len() - i,
    {
        assert(rest.take(i as int).drop_last() =~= rest.take(i - 1));
        assert(rest.take(i as int).last() == line@[i as int]);
        if line[i] != '=' {
            exp.push(line[i]);
        }
        i = i + 1;
    }
    assert(rest.take(i - 1) =~= rest);
    let prepared = prepare(exp, repl);
    Some((name, string_of(&prepared)))
}

/// What [`insert_ans_vars`] does, on characters.
fn prepare(line: Vec<char>, repl: &Repl) -> (text: Vec<char>)
    ensures
        text@ == with_variables(with_answer(line@, *repl), repl.variables@),
{
    let ghost s = line@;
    let mut text = line;
    if repl.previous_answer_valid {
        let pattern = chars_of("ans");
        proof {
            reveal_strlit("ans");
        }
        let answer = chars_of(repl.previous_answer.as_str());
        text = replace_all(&text, &pattern, &answer);
    }
    let mut i: usize = 0;
    assert(repl.variables@.take(0) =~= Seq::<Variable>::empty());
    while i < repl.variables.len()
        invariant
            i <= repl.variables@.len(),
            text@ == with_variables(with_answer(s, *repl), repl.variables@.take(i as int)),
        decreases repl.variables@.len() - i,
    {
        assert(repl.variables@.take(i + 1).drop_last() =~= repl.variables@.take(i as int));
        let word = flags_of(&text);
        let value = chars_of(repl.variables[i].value.as_str());
        text = substitute(&text, &word, repl.variables[i].name, &value);
        i = i + 1;
    }
    assert(repl.variables@.take(i as int) =~= repl.variables@);
    text
}

} // verus!
