//! The state of a session and the decisions of its loop: what a line asks
//! for.

use crate::string_maker::{chars_of, string_of};
use crate::text::{contains, has_pattern, same_chars};
use crate::variables::{is_definition, is_name, is_variable};
use vstd::prelude::*;
use vstd::string::StringExecFns;

verus! {

/// A variable of the session: its name, a single letter, and its value as
/// it is written into a line.
#[derive(Debug, Clone, PartialEq, Eq)]
pub struct Variable {
    pub name: char,
    pub value: String,
}

/// The state of a session.
#[derive(Debug, Clone, PartialEq, Eq)]
pub struct Repl {
    /// The last answer, as it is written into a line.
    pub previous_answer: String,
    pub previous_answer_valid: bool,
    /// The variables in the order in which they were first defined.
    pub variables: Vec<Variable>,
    pub height: usize,
    pub width: usize,
}

/// The value that `variables` give to `name`: that of the first variable
/// of this name.
pub open spec fn value_of(variables: Seq<Variable>, name: char) -> Option<Seq<char>>
    decreases variables.len(),
{
    if variables.len() == 0 {
        None
    } else if variables[0].name == name {
        Some(variables[0].value@)
    } else {
        value_of(variables.drop_first(), name)
    }
}

/// No two of `variables` have one name.
pub open spec fn distinct_names(variables: Seq<Variable>) -> bool {
    forall|i: int, j: int|
        0 <= i < j < variables.len() ==> (#[trigger] variables[i]).name != (
        #[trigger] variables[j]).name
}

/// Where a name is first defined, that is its value.
pub proof fn lemma_value_of(variables: Seq<Variable>, name: char, at: int)
    requires
        0 <= at < variables.len(),
        variables[at].name == name,
        forall|i: int| 0 <= i < at ==> (#[trigger] variables[i]).name != name,
    ensures
        value_of(variables, name) == Some(variables[at].value@),
    decreases at,
{
    if at > 0 {
        assert(variables[0].name != name);
        let rest = variables.drop_first();
        assert(rest[at - 1] == variables[at]);
        assert forall|i: int| 0 <= i < at - 1 implies (#[trigger] rest[i]).name != name by {
            assert(rest[i] == variables[i + 1]);
        }
        lemma_value_of(rest, name, at - 1);
    }
}

impl Repl {
    /// No variable is held twice.
    pub open spec fn wf(&self) -> bool {
        distinct_names(self.variables@)
    }

    /// Tests [`Repl::wf`].
    pub fn is_valid(&self) -> (ok: bool)
        ensures
            ok == self.wf(),
    {
        let mut j: usize = 0;
        while j < self.variables.len()
            invariant
                j <= self.variables@.len(),
                forall|a: int, b: int|
                    0 <= a < b < j ==> (#[trigger] self.variables@[a]).name != (
                    #[trigger] self.variables@[b]).name,
            decreases self.variables@.len() - j,
        {
            let mut i: usize = 0;
            while i < j
                invariant
                    i <= j < self.variables@.len(),
                    forall|a: int|
                        0 <= a < i ==> (#[trigger] self.variables@[a]).name
                            != self.variables@[j as int].name,
                decreases j - i,
            {
                if self.variables[i].name == self.variables[j].name {
                    return false;
                }
                i = i + 1;
            }
            j = j + 1;
        }
        true
    }

    /// A session without variables for a picture `width` cells wide and half
    /// as high.
    pub fn new(previous_answer: String, previous_answer_valid: bool, width: usize) -> (repl: Repl)
        ensures
            repl.wf(),
            repl.previous_answer == previous_answer,
            repl.previous_answer_valid == previous_answer_valid,
            repl.variables@.len() == 0,
            repl.width == width,
            repl.height == width / 2,
    {
        Repl {
            previous_answer,
            previous_answer_valid,
            variables: Vec::new(),
            height: width / 2,
            width,
        }
    }

    /// Sets the width of the picture; the height follows as its half.
    pub fn update_dimensions(&mut self, width: usize)
        ensures
            final(self).width == width,
            final(self).height == width / 2,
            final(self).previous_answer == old(self).previous_answer,
            final(self).previous_answer_valid == old(self).previous_answer_valid,
            final(self).variables == old(self).variables,
    {
        self.height = width / 2;
        self.width = width;
    }

    /// Keeps `value` as the last answer.
    pub fn set_previous_answer(&mut self, value: String)
        ensures
            final(self).previous_answer == value,
            final(self).previous_answer_valid,
            final(self).variables == old(self).variables,
            final(self).width == old(self).width,
            final(self).height == old(self).height,
    {
        self.previous_answer = value;
        self.previous_answer_valid = true;
    }

    /// Forgets the last answer: it reads "0" and is not valid.
    pub fn invalidate_prev_answer(&mut self)
        ensures
            final(self).previous_answer@ == "0"@,
            !final(self).previous_answer_valid,
            final(self).variables == old(self).variables,
            final(self).width == old(self).width,
            final(self).height == old(self).height,
    {
        self.previous_answer = String::from_str("0");
        self.previous_answer_valid = false;
    }

    /// Gives the variable `name` the value `value`, whether or not it had
    /// one. The other variables keep their values.
    pub fn set_variable(&mut self, name: char, value: String)
        requires
            old(self).wf(),
        ensures
            final(self).wf(),
            value_of(final(self).variables@, name) == Some(value@),
            forall|other: char|
                other != name ==> value_of(final(self).variables@, other) == value_of(
                    old(self).variables@,
                    other,
                ),
            final(self).previous_answer == old(self).previous_answer,
            final(self).previous_answer_valid == old(self).previous_answer_valid,
            final(self).width == old(self).width,
            final(self).height == old(self).height,
    {
        let ghost before = self.variables@;
        let mut i: usize = 0;
        while i < self.variables.len()
            invariant
                i <= self.variables@.len(),
                self.variables@ == before,
                before == old(self).variables@,
                distinct_names(before),
                self.previous_answer == old(self).previous_answer,
                self.previous_answer_valid == old(self).previous_answer_valid,
                self.width == old(self).width,
                self.height == old(self).height,
                forall|k: int| 0 <= k < i ==> (#[trigger] before[k]).name != name,
            decreases self.variables@.len() - i,
        {
            if self.variables[i].name == name {
                self.variables[i] = Variable { name, value };
                proof {
                    let after = self.variables@;
                    lemma_value_of(after, name, i as int);
                    assert forall|other: char| other != name implies value_of(after, other)
                        == value_of(before, other) by {
                        lemma_value_of_same(before, after, other);
                    }
                }
                return ;
            }
            i = i + 1;
        }
        self.variables.push(Variable { name, value });
        proof {
            let after = self.variables@;
            lemma_value_of(after, name, before.len() as int);
            assert forall|other: char| other != name implies value_of(after, other) == value_of(
                before,
                other,
            ) by {
                lemma_value_of_pushed(before, after.last(), other);
                assert(after =~= before.push(after.last()));
            }
        }
    }
}

/// Variables that agree in all names, and in the values of the names that
/// are `name`, give `name` one value.
pub proof fn lemma_value_of_same(a: Seq<Variable>, b: Seq<Variable>, name: char)
    requires
        a.len() == b.len(),
        forall|i: int| 0 <= i < a.len() ==> (#[trigger] a[i]).name == b[i].name,
        forall|i: int|
            0 <= i < a.len() && (#[trigger] a[i]).name == name ==> a[i].value == b[i].value,
    ensures
        value_of(a, name) == value_of(b, name),
    decreases a.len(),
{
    if a.len() > 0 {
        assert(a[0].name == b[0].name);
        if a[0].name != name {
            let x = a.drop_first();
            let y = b.drop_first();
            assert forall|i: int| 0 <= i < x.len() implies (#[trigger] x[i]).name == y[i].name by {
                assert(x[i] == a[i + 1]);
                assert(y[i] == b[i + 1]);
            }
            assert forall|i: int|
                0 <= i < x.len() && (#[trigger] x[i]).name == name implies x[i].value
                == y[i].value by {
                assert(x[i] == a[i + 1]);
                assert(y[i] == b[i + 1]);
            }
            lemma_value_of_same(x, y, name);
        }
    }
}

/// One more variable changes the value of no other name.
pub proof fn lemma_value_of_pushed(variables: Seq<Variable>, last: Variable, name: char)
    requires
        last.name != name,
    ensures
        value_of(variables.push(last), name) == value_of(variables, name),
    decreases variables.len(),
{
    let longer = variables.push(last);
    if variables.len() == 0 {
        assert(longer.drop_first() =~= Seq::<Variable>::empty());
        assert(longer[0] == last);
        assert(value_of(longer.drop_first(), name).is_none());
        assert(value_of(longer, name).is_none());
    } else {
        assert(longer[0] == variables[0]);
        assert(longer.drop_first() =~= variables.drop_first().push(last));
        if variables[0].name != name {
            lemma_value_of_pushed(variables.drop_first(), last, name);
        }
    }
}

/// What a line that begins with a colon can ask for.
#[derive(Debug, Clone, Copy, PartialEq, Eq, Structural)]
pub enum Command {
    Table,
    Graph,
    GraphOptions,
    AnimatedGraph,
    InteractiveGraph,
    LinearAlgebra,
    Cube,
    QuadraticBezier,
    CubicBezier,
    Help,
}

/// The command that `line` names, in its short or its long form.
pub open spec fn command_of(line: Seq<char>) -> Option<Command> {
    if line == "t"@ || line == "table"@ {
        Some(Command::Table)
    } else if line == "g"@ || line == "graph"@ {
        Some(Command::Graph)
    } else if line == "o"@ || line == "graph options"@ {
        Some(Command::GraphOptions)
    } else if line == "ag"@ || line == "animated graph"@ {
        Some(Command::AnimatedGraph)
    } else if line == "ig"@ || line == "interactive graph"@ {
        Some(Command::InteractiveGraph)
    } else if line == "la"@ || line == "linear algebra"@ {
        Some(Command::LinearAlgebra)
    } else if line == "c"@ || line == "cube"@ || line == "3d"@ {
        Some(Command::Cube)
    } else if line == "qbc"@ {
        Some(Command::QuadraticBezier)
    } else if line == "cbc"@ {
        Some(Command::CubicBezier)
    } else if line == "h"@ || line == "help"@ {
        Some(Command::Help)
    } else {
        None
    }
}

/// Says whether `line` is the text `word`.
fn is_word(line: &Vec<char>, word: &str) -> (same: bool)
    ensures
        same == (line@ == word@),
{
    let w = chars_of(word);
    same_chars(line, &w)
}

/// Finds the command that `line` names; a line that names none is answered
/// with the words for that.
pub fn run_command(line: &str) -> (found: Result<Command, String>)
    ensures
        match command_of(line@) {
            Some(command) => found == Ok::<Command, String>(command),
            None => found.is_err() && found.unwrap_err()@ == "invalid command "@ + line@,
        },
{
    let l = chars_of(line);
    if is_word(&l, "t") || is_word(&l, "table") {
        Ok(Command::Table)
    } else if is_word(&l, "g") || is_word(&l, "graph") {
        Ok(Command::Graph)
    } else if is_word(&l, "o") || is_word(&l, "graph options") {
        Ok(Command::GraphOptions)
    } else if is_word(&l, "ag") || is_word(&l, "animated graph") {
        Ok(Command::AnimatedGraph)
    } else if is_word(&l, "ig") || is_word(&l, "interactive graph") {
        Ok(Command::InteractiveGraph)
    } else if is_word(&l, "la") || is_word(&l, "linear algebra") {
        Ok(Command::LinearAlgebra)
    } else if is_word(&l, "c") || is_word(&l, "cube") || is_word(&l, "3d") {
        Ok(Command::Cube)
    } else if is_word(&l, "qbc") {
        Ok(Command::QuadraticBezier)
    } else if is_word(&l, "cbc") {
        Ok(Command::CubicBezier)
    } else if is_word(&l, "h") || is_word(&l, "help") {
        Ok(Command::Help)
    } else {
        let mut words = String::from_str("invalid command ");
        words.append(line);
        Err(words)
    }
}

/// The lines of the help.
pub open spec fn help_lines() -> Seq<Seq<char>> {
    seq![
        "Available commands:"@,
        ":g  | :graph -> graphing mode"@,
        ":t  | :table -> table mode"@,
        ":o  | :graph options -> graph options mode"@,
        ":ag | :animated graph -> animated graph mode"@,
        ":ig | :interactive graph -> interactive graph mode"@,
        ":la | :linear algebra -> linear algebra mode"@,
        ":c  | :cube | :3d -> renders an animated cube to the terminal"@,
        ":qbc -> quadratic bezier curve"@,
        ":cbc -> cubic bezier curve"@,
        ":q  | :quit -> exits the repl session"@,
    ]
}

/// The views of the items of a vector of texts.
pub open spec fn texts_of(lines: Seq<&'static str>) -> Seq<Seq<char>> {
    Seq::new(lines.len(), |i: int| lines[i]@)
}

/// The help: one line for each command.
pub fn h() -> (lines: Vec<&'static str>)
    ensures
        texts_of(lines@) == help_lines(),
{
    let mut lines: Vec<&'static str> = Vec::new();
    lines.push("Available commands:");
    lines.push(":g  | :graph -> graphing mode");
    lines.push(":t  | :table -> table mode");
    lines.push(":o  | :graph options -> graph options mode");
    lines.push(":ag | :animated graph -> animated graph mode");
    lines.push(":ig | :interactive graph -> interactive graph mode");
    lines.push(":la | :linear algebra -> linear algebra mode");
    lines.push(":c  | :cube | :3d -> renders an animated cube to the terminal");
    lines.push(":qbc -> quadratic bezier curve");
    lines.push(":cbc -> cubic bezier curve");
    lines.push(":q  | :quit -> exits the repl session");
    assert(texts_of(lines@) =~= help_lines());
    lines
}

/// What the loop of a session does with a line.
#[derive(Debug, Clone, PartialEq, Eq)]
pub enum ReplStep {
    /// Nothing: the line is empty.
    Skip,
    /// Leave the session.
    Quit,
    /// Run the command that follows the colon.
    RunCommand(String),
    /// Refuse the line: it names the last answer and there is none.
    InvalidAns,
    /// Define a variable.
    DefineVariable,
    /// Evaluate the line as an expression.
    Evaluate,
}

/// Decides what a line of a session asks for. A line that begins with a
/// colon is a command, `:q` and `:quit` among them; a line that speaks of
/// `ans` needs an answer to speak of; a line that begins with a name and an
/// equals sign defines a variable; any other line is an expression.
pub fn as_repl(line: &str, previous_answer_valid: bool) -> (step: ReplStep)
    ensures
        line@.len() == 0 ==> step == ReplStep::Skip,
        line@.len() > 0 && line@[0] == ':' ==> {
            let rest = line@.subrange(1, line@.len() as int);
            if rest == "q"@ || rest == "quit"@ {
                step == ReplStep::Quit
            } else {
                step matches ReplStep::RunCommand(name) && name@ == rest
            }
        },
        line@.len() > 0 && line@[0] != ':' ==> {
            if !previous_answer_valid && contains(line@, "ans"@) {
                step == ReplStep::InvalidAns
            } else if is_definition(line@, is_name(line@[0])) {
                step == ReplStep::DefineVariable
            } else {
                step == ReplStep::Evaluate
            }
        },
{
    let l = chars_of(line);
    if l.len() == 0 {
        return ReplStep::Skip;
    }
    if l[0] == ':' {
        let mut rest: Vec<char> = Vec::new();
        let mut i: usize = 1;
        while i < l.len()
            invariant
                1 <= i <= l@.len(),
                rest@ == l@.subrange(1, i as int),
            decreases l@.len() - i,
        {
            rest.push(l[i]);
            i = i + 1;
            assert(rest@ =~= l@.subrange(1, i as int));
        }
        if is_word(&rest, "q") || is_word(&rest, "quit") {
            return ReplStep::Quit;
        }
        return ReplStep::RunCommand(string_of(&rest));
    }
    let ans = chars_of("ans");
    if !previous_answer_valid && has_pattern(&l, &ans) {
        ReplStep::InvalidAns
    } else if is_variable(line) {
        ReplStep::DefineVariable
    } else {
        ReplStep::Evaluate
    }
}

/// What the arguments of the program ask for.
#[derive(Debug, Clone, PartialEq, Eq)]
pub enum CliRequest {
    /// Evaluate an expression.
    Evaluate(String),
    /// Draw the graph of an equation; both ends of the window as typed.
    Graph { equation: String, x_min: String, x_max: String },
    /// Print the table of an equation; the window and the step as typed.
    Table { equation: String, x_min: String, x_max: String, step_size: String },
    /// Nothing: the arguments do not fit, and these words say how.
    Refuse(String),
}

/// The views of the items of a vector of strings.
pub open spec fn views_of(items: Seq<String>) -> Seq<Seq<char>> {
    Seq::new(items.len(), |i: int| items[i]@)
}

/// What the arguments `args` ask for; the first of them is the name of the
/// program.
pub open spec fn cli_asks(args: Seq<Seq<char>>, request: CliRequest) -> bool {
    if args.len() < 2 {
        request matches CliRequest::Refuse(words) && words@ == "Usage: rmr [expression]"@
    } else if args.len() == 2 {
        request matches CliRequest::Evaluate(expression) && expression@ == args[1]
    } else if args[1] == "-g"@ || args[1] == "--graph"@ {
        if args.len() != 5 {
            request matches CliRequest::Refuse(words) && words@
                == "Usage: rmr -g [equation] [x-min] [x-max]"@
        } else {
            request matches CliRequest::Graph { equation, x_min, x_max } && equation@ == args[2]
                && x_min@ == args[3] && x_max@ == args[4]
        }
    } else if args[1] == "-t"@ || args[1] == "--table"@ {
        if args.len() != 6 {
            request matches CliRequest::Refuse(words) && words@
                == "Usage: rmr -t [equation] [x-min] [x-max] [step_size]"@
        } else {
            request matches CliRequest::Table { equation, x_min, x_max, step_size } && equation@
                == args[2] && x_min@ == args[3] && x_max@ == args[4] && step_size@ == args[5]
        }
    } else {
        request matches CliRequest::Refuse(words) && words@ == "invalid use of rmr"@
    }
}

/// Reads the arguments of the program: a single expression to evaluate, or
/// a flag for a graph or a table with the arguments that it takes.
pub fn as_cli_tool(args: &Vec<String>) -> (request: CliRequest)
    ensures
        cli_asks(views_of(args@), request),
{
    if args.len() < 2 {
        return CliRequest::Refuse(String::from_str("Usage: rmr [expression]"));
    }
    if args.len() == 2 {
        return CliRequest::Evaluate(args[1].clone());
    }
    let flag = chars_of(args[1].as_str());
    if is_word(&flag, "-g") || is_word(&flag, "--graph") {
        if args.len() != 5 {
            CliRequest::Refuse(String::from_str("Usage: rmr -g [equation] [x-min] [x-max]"))
        } else {
            CliRequest::Graph {
                equation: args[2].clone(),
                x_min: args[3].clone(),
                x_max: args[4].clone(),
            }
        }
    } else if is_word(&flag, "-t") || is_word(&flag, "--table") {
        if args.len() != 6 {
            CliRequest::Refuse(
                String::from_str("Usage: rmr -t [equation] [x-min] [x-max] [step_size]"),
            )
        } else {
            CliRequest::Table {
                equation: args[2].clone(),
                x_min: args[3].clone(),
                x_max: args[4].clone(),
                step_size: args[5].clone(),
            }
        }
    } else {
        CliRequest::Refuse(String::from_str("invalid use of rmr"))
    }
}

/// The value of a sequence of decimal digits.
pub open spec fn digits_value(digits: Seq<char>) -> nat
    decreases digits.len(),
{
    if digits.len() == 0 {
        0
    } else {
        digits_value(digits.drop_last()) * 10 + (digits.last() as nat - 48) as nat
    }
}

/// Every character of `digits` is a decimal digit.
pub open spec fn all_digits(digits: Seq<char>) -> bool {
    forall|i: int| 0 <= i < digits.len() ==> '0' <= #[trigger] digits[i] <= '9'
}

/// The digits of a number as it is typed: the text without a plus sign at
/// its head.
pub open spec fn unsigned_part(text: Seq<char>) -> Seq<char> {
    if text.len() > 0 && text[0] == '+' {
        text.drop_first()
    } else {
        text
    }
}

/// The count that `text` names: decimal digits, at least one, a plus sign
/// before them or not, and a value that `usize` holds. Any other text names
/// none.
pub open spec fn count_of(text: Seq<char>) -> Option<usize> {
    let digits = unsigned_part(text);
    if digits.len() > 0 && all_digits(digits) && digits_value(digits) <= usize::MAX {
        Some(digits_value(digits) as usize)
    } else {
        None
    }
}

/// The value of digits grows with every digit.
proof fn lemma_digits_value_grows(digits: Seq<char>, upto: int)
    requires
        0 <= upto <= digits.len(),
        all_digits(digits),
    ensures
        digits_value(digits.take(upto)) <= digits_value(digits),
    decreases digits.len() - upto,
{
    if upto < digits.len() {
        let next = digits.take(upto + 1);
        assert(next.drop_last() =~= digits.take(upto));
        assert(next.last() == digits[upto]);
        assert(digits_value(next) >= digits_value(digits.take(upto))) by (nonlinear_arith)
            requires
                digits_value(next) == digits_value(digits.take(upto)) * 10 + (digits[upto] as nat
                    - 48) as nat,
        ;
        lemma_digits_value_grows(digits, upto + 1);
    } else {
        assert(digits.take(upto) =~= digits);
    }
}

/// Reads a count as it is typed. Text that names no count is answered with
/// the words for that.
pub fn get_numerical_input(text: &str) -> (read: Result<usize, String>)
    ensures
        match count_of(text@) {
            Some(n) => read == Ok::<usize, String>(n),
            None => read.is_err() && read.unwrap_err()@ == "'"@ + text@
                + "' is not a valid number"@,
        },
{
    let t = chars_of(text);
    let start: usize = if t.len() > 0 && t[0] == '+' {
        1
    } else {
        0
    };
    let ghost digits = unsigned_part(t@);
    assert(digits =~= t@.subrange(start as int, t@.len() as int));
    let mut ok = t.len() > start;
    let mut value: usize = 0;
    let mut i: usize = start;
    assert(digits.take(0) =~= Seq::<char>::empty());
    while ok && i < t.len()
        invariant
            start <= i <= t@.len(),
            digits == t@.subrange(start as int, t@.len() as int),
            digits == unsigned_part(t@),
            ok ==> t@.len() > start,
            ok ==> all_digits(digits.take(i - start)) && value == digits_value(
                digits.take(i - start),
            ),
            !ok ==> count_of(t@).is_none(),
        decreases t@.len() - i + if ok { 1int } else { 0int },
    {
        let c = t[i];
        let ghost next = digits.take(i - start + 1);
        assert(next.drop_last() =~= digits.take(i - start));
        assert(next.last() == c);
        if c < '0' || c > '9' {
            ok = false;
            assert(!all_digits(digits)) by {
                assert(digits[i - start] == c);
            }
        } else {
            let d: usize = (c as u32 - 48) as usize;
            if value > (usize::MAX - d) / 10 {
                ok = false;
                proof {
                    assert(digits_value(next) == value * 10 + d);
                    assert(value * 10 + d > usize::MAX);
                    if all_digits(digits) {
                        lemma_digits_value_grows(digits, i - start + 1);
                    }
                }
            } else {
                value = value * 10 + d;
                assert(all_digits(next)) by {
                    assert forall|k: int| 0 <= k < next.len() implies '0' <= #[trigger] next[k]
                        <= '9' by {
                        if k < i - start {
                            assert(digits.take(i - start)[k] == next[k]);
                        }
                    }
                }
                i = i + 1;
            }
        }
    }
    if ok {
        assert(digits.take(i - start) =~= digits);
        Ok(value)
    } else {
        let mut words = String::from_str("'");
        words.append(text);
        words.append("' is not a valid number");
        Err(words)
    }
}

} // verus!
