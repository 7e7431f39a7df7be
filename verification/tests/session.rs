use rmr::graph::{check_viewport, split_equations, GraphError};
use rmr::repl::{
    as_cli_tool, as_repl, get_numerical_input, h, run_command, CliRequest, Command, Repl,
    ReplStep, Variable,
};
use rmr::text::{has_pattern, matches_here, replace_all, same_chars, same_text};
use rmr::variables::{flags_of, handle_var, insert_ans_vars, substitute};

fn chars(s: &str) -> Vec<char> {
    s.chars().collect()
}

fn session(answer: Option<&str>, variables: &[(char, &str)]) -> Repl {
    let mut repl = Repl::new(String::from("0"), false, 240);
    if let Some(a) = answer {
        repl.set_previous_answer(a.to_owned());
    }
    for (name, value) in variables {
        repl.set_variable(*name, (*value).to_owned());
    }
    repl
}

fn args(words: &[&str]) -> Vec<String> {
    words.iter().map(|w| (*w).to_owned()).collect()
}

#[test]
fn as_cli_tool_test_eval_error_2() {
    //Given
    let args = vec!["rmr".to_owned()];

    //When
    let request = as_cli_tool(&args);

    //Then
    assert_eq!(request, CliRequest::Refuse("Usage: rmr [expression]".to_owned()));
}

#[test]
fn as_cli_tool_test_graph_error() {
    //Given
    let args = vec!["rmr".to_owned(), "-g".to_owned(), "y=x".to_owned(), "-2".to_owned()];

    //When
    let request = as_cli_tool(&args);

    //Then
    assert_eq!(
        request,
        CliRequest::Refuse("Usage: rmr -g [equation] [x-min] [x-max]".to_owned())
    );
}

#[test]
fn as_cli_tool_test_graph_error_2() {
    //Given
    let args = vec![
        "rmr".to_owned(),
        "-g".to_owned(),
        "y=x".to_owned(),
        "-2".to_owned(),
        "-3".to_owned(),
    ];

    //When
    let request = as_cli_tool(&args);

    //Then
    assert_eq!(
        request,
        CliRequest::Graph {
            equation: "y=x".to_owned(),
            x_min: "-2".to_owned(),
            x_max: "-3".to_owned()
        }
    );
    let refused = check_viewport(-2_000_000, -3_000_000);
    assert_eq!(
        "x min `-2` must be less than x max `-3`",
        refused.unwrap_err().message()
    );
}

#[test]
fn as_cli_tool_test_table_error() {
    //Given
    let args = vec!["rmr".to_owned(), "-t".to_owned(), "y=x".to_owned(), "-2".to_owned()];

    //When
    let request = as_cli_tool(&args);

    //Then
    assert_eq!(
        request,
        CliRequest::Refuse("Usage: rmr -t [equation] [x-min] [x-max] [step_size]".to_owned())
    );
}

#[test]
fn as_cli_tool_test_graph_table_2() {
    //Given
    let args = vec![
        "rmr".to_owned(),
        "-t".to_owned(),
        "y=x".to_owned(),
        "-2".to_owned(),
        "-3".to_owned(),
        "1".to_owned(),
    ];

    //When
    let request = as_cli_tool(&args);

    //Then
    assert_eq!(
        request,
        CliRequest::Table {
            equation: "y=x".to_owned(),
            x_min: "-2".to_owned(),
            x_max: "-3".to_owned(),
            step_size: "1".to_owned()
        }
    );
    assert_eq!(
        "x min `-2` must be less than x max `-3`",
        check_viewport(-2_000_000, -3_000_000).unwrap_err().message()
    );
}

#[test]
fn as_cli_tool_test_bad_flag() {
    //Given
    let args = vec![
        "rmr".to_owned(),
        "-69".to_owned(),
        "y=q".to_owned(),
        "-2".to_owned(),
        "a".to_owned(),
    ];

    //When
    let request = as_cli_tool(&args);

    //Then
    assert_eq!(request, CliRequest::Refuse("invalid use of rmr".to_owned()));
}

#[test]
fn arguments_of_the_program() {
    assert_eq!(
        as_cli_tool(&args(&["rmr", "3-sqrt(4)"])),
        CliRequest::Evaluate("3-sqrt(4)".to_owned())
    );
    assert_eq!(
        as_cli_tool(&args(&["rmr", "--graph", "y=q", "-2", "a"])),
        CliRequest::Graph { equation: "y=q".to_owned(), x_min: "-2".to_owned(), x_max: "a".to_owned() }
    );
    assert_eq!(
        as_cli_tool(&args(&["rmr", "--table", "y=x", "0", "1", "0.5"])),
        CliRequest::Table {
            equation: "y=x".to_owned(),
            x_min: "0".to_owned(),
            x_max: "1".to_owned(),
            step_size: "0.5".to_owned()
        }
    );
    assert_eq!(
        as_cli_tool(&args(&["rmr", "-69", "y=q", "-2", "a"])),
        CliRequest::Refuse("invalid use of rmr".to_owned())
    );
    assert_eq!(
        as_cli_tool(&args(&["rmr", "-g", "y=x", "1", "2", "3"])),
        CliRequest::Refuse("Usage: rmr -g [equation] [x-min] [x-max]".to_owned())
    );
    assert_eq!(
        as_cli_tool(&args(&["rmr", "-t", "y=x", "1", "2"])),
        CliRequest::Refuse("Usage: rmr -t [equation] [x-min] [x-max] [step_size]".to_owned())
    );
    assert_eq!(as_cli_tool(&Vec::new()), CliRequest::Refuse("Usage: rmr [expression]".to_owned()));
}

#[test]
fn window_is_tested_before_drawing() {
    assert_eq!(check_viewport(-1, 1), Ok(()));
    assert_eq!(check_viewport(1, 1), Err(GraphError::DegenerateViewport { x_min: 1, x_max: 1 }));
    assert_eq!(
        GraphError::DegenerateViewport { x_min: 2_500_000, x_max: -500_000 }.message(),
        "x min `2.5` must be less than x max `-0.5`"
    );
}

#[test]
fn equations_are_split_at_the_bar() {
    assert_eq!(split_equations("y=x|y=2*x"), vec!["y=x", "y=2*x"]);
    assert_eq!(split_equations("y=x"), vec!["y=x"]);
    assert_eq!(split_equations(""), vec![""]);
    assert_eq!(split_equations("|a||"), vec!["", "a", "", ""]);
    assert_eq!(split_equations("y=x|y=x^2|y=x^3").len(), 3);
}

#[test]
fn commands_by_their_names() {
    assert_eq!(run_command("t"), Ok(Command::Table));
    assert_eq!(run_command("table"), Ok(Command::Table));
    assert_eq!(run_command("g"), Ok(Command::Graph));
    assert_eq!(run_command("graph"), Ok(Command::Graph));
    assert_eq!(run_command("o"), Ok(Command::GraphOptions));
    assert_eq!(run_command("graph options"), Ok(Command::GraphOptions));
    assert_eq!(run_command("ag"), Ok(Command::AnimatedGraph));
    assert_eq!(run_command("animated graph"), Ok(Command::AnimatedGraph));
    assert_eq!(run_command("ig"), Ok(Command::InteractiveGraph));
    assert_eq!(run_command("interactive graph"), Ok(Command::InteractiveGraph));
    assert_eq!(run_command("la"), Ok(Command::LinearAlgebra));
    assert_eq!(run_command("linear algebra"), Ok(Command::LinearAlgebra));
    assert_eq!(run_command("c"), Ok(Command::Cube));
    assert_eq!(run_command("cube"), Ok(Command::Cube));
    assert_eq!(run_command("3d"), Ok(Command::Cube));
    assert_eq!(run_command("qbc"), Ok(Command::QuadraticBezier));
    assert_eq!(run_command("cbc"), Ok(Command::CubicBezier));
    assert_eq!(run_command("h"), Ok(Command::Help));
    assert_eq!(run_command("help"), Ok(Command::Help));
}

#[test]
fn unknown_command_is_named() {
    assert_eq!(run_command("invalidcmd"), Err("invalid command invalidcmd".to_owned()));
    assert_eq!(run_command(""), Err("invalid command ".to_owned()));
    assert_eq!(run_command("T"), Err("invalid command T".to_owned()));
    assert_eq!(run_command("graph "), Err("invalid command graph ".to_owned()));
}

#[test]
fn help_names_every_command() {
    let lines = h();
    assert_eq!(lines.len(), 11);
    assert_eq!(lines[0], "Available commands:");
    assert_eq!(lines[1], ":g  | :graph -> graphing mode");
    assert_eq!(lines[7], ":c  | :cube | :3d -> renders an animated cube to the terminal");
    assert_eq!(lines[10], ":q  | :quit -> exits the repl session");
}

#[test]
fn what_a_line_asks_for() {
    assert_eq!(as_repl("", true), ReplStep::Skip);
    assert_eq!(as_repl(":q", false), ReplStep::Quit);
    assert_eq!(as_repl(":quit", true), ReplStep::Quit);
    assert_eq!(as_repl(":g", true), ReplStep::RunCommand("g".to_owned()));
    assert_eq!(as_repl(":", true), ReplStep::RunCommand(String::new()));
    assert_eq!(as_repl(":ans", false), ReplStep::RunCommand("ans".to_owned()));
    assert_eq!(as_repl("ans + 1", false), ReplStep::InvalidAns);
    assert_eq!(as_repl("A=ans", false), ReplStep::InvalidAns);
    assert_eq!(as_repl("ans + 1", true), ReplStep::Evaluate);
    assert_eq!(as_repl("A=ans", true), ReplStep::DefineVariable);
    assert_eq!(as_repl("A =1", false), ReplStep::DefineVariable);
    assert_eq!(as_repl("a=1", false), ReplStep::Evaluate);
    assert_eq!(as_repl("1+1", false), ReplStep::Evaluate);
    assert_eq!(as_repl("an s", false), ReplStep::Evaluate);
}

#[test]
fn counts_as_they_are_typed() {
    assert_eq!(get_numerical_input("240"), Ok(240));
    assert_eq!(get_numerical_input("0"), Ok(0));
    assert_eq!(get_numerical_input("+7"), Ok(7));
    assert_eq!(get_numerical_input("007"), Ok(7));
    assert_eq!(get_numerical_input(&usize::MAX.to_string()), Ok(usize::MAX));
}

#[test]
fn text_that_is_no_count() {
    for text in ["", "+", "-1", "1.5", "12a", " 1", "1 ", "++1", "٣", "18446744073709551616"] {
        assert_eq!(
            get_numerical_input(text),
            Err(format!("'{}' is not a valid number", text)),
        );
        assert!(text.parse::<usize>().is_err());
    }
    assert!(get_numerical_input("99999999999999999999999999").is_err());
}

#[test]
fn session_keeps_answer_and_size() {
    let mut repl = Repl::new("0".to_owned(), false, 240);
    assert_eq!((repl.width, repl.height), (240, 120));
    assert!(repl.variables.is_empty());
    assert!(!repl.previous_answer_valid);
    repl.update_dimensions(101);
    assert_eq!((repl.width, repl.height), (101, 50));
    repl.set_previous_answer("2.5".to_owned());
    assert!(repl.previous_answer_valid);
    assert_eq!(repl.previous_answer, "2.5");
    repl.invalidate_prev_answer();
    assert!(!repl.previous_answer_valid);
    assert_eq!(repl.previous_answer, "0");
}

#[test]
fn variable_is_set_once_per_name() {
    let mut repl = session(None, &[('A', "1"), ('B', "2")]);
    repl.set_variable('A', "3".to_owned());
    assert_eq!(
        repl.variables,
        vec![
            Variable { name: 'A', value: "3".to_owned() },
            Variable { name: 'B', value: "2".to_owned() }
        ]
    );
    repl.set_variable('C', "4".to_owned());
    assert_eq!(repl.variables.len(), 3);
    assert_eq!(repl.variables[2], Variable { name: 'C', value: "4".to_owned() });
}

#[test]
fn answer_is_written_in_place_of_ans() {
    let repl = session(Some("2"), &[]);
    assert_eq!(insert_ans_vars("ans + 1", &repl), "2 + 1");
    assert_eq!(insert_ans_vars("ans*ans", &repl), "2*2");
    assert_eq!(insert_ans_vars("tans", &repl), "t2");
    assert_eq!(insert_ans_vars("an s", &repl), "an s");
    let none = session(None, &[]);
    assert_eq!(insert_ans_vars("ans + 1", &none), "ans + 1");
}

#[test]
fn variables_are_written_where_they_stand_alone() {
    let repl = session(Some("2"), &[('A', "1")]);
    assert_eq!(insert_ans_vars("ans + A", &repl), "2 + 1");
    let x = session(None, &[('X', "10")]);
    assert_eq!(insert_ans_vars("max(X, 5)", &x), "max(10, 5)");
    let b = session(None, &[('B', "7")]);
    assert_eq!(insert_ans_vars("B+B*B", &b), "7+7*7");
    assert_eq!(insert_ans_vars("B", &b), "7");
    assert_eq!(insert_ans_vars("AB+B2+2B+Bé", &b), "AB+B2+2B+Bé");
    let s = session(None, &[('s', "5"), ('a', "100")]);
    assert_eq!(insert_ans_vars("sin(1)+tan(1)", &s), "sin(1)+tan(1)");
    assert_eq!(insert_ans_vars("s+a", &s), "5+100");
}

#[test]
fn variables_are_taken_in_order() {
    let repl = session(None, &[('A', "B+1"), ('B', "2")]);
    assert_eq!(insert_ans_vars("A", &repl), "2+1");
    let other = session(None, &[('B', "2"), ('A', "B+1")]);
    assert_eq!(insert_ans_vars("A", &other), "B+1");
    let many = session(None, &[('A', "5"), ('B', "3")]);
    assert_eq!(insert_ans_vars("A*B+A", &many), "5*3+5");
}

#[test]
fn definition_gives_name_and_expression() {
    let repl = session(Some("4"), &[('B', "3")]);
    assert_eq!(handle_var("A=1", &repl), Some(('A', "1".to_owned())));
    assert_eq!(handle_var("A = B+ans", &repl), Some(('A', "  3+4".to_owned())));
    assert_eq!(handle_var("A=1=2", &repl), Some(('A', "12".to_owned())));
    assert_eq!(handle_var("A", &repl), Some(('A', String::new())));
    assert_eq!(handle_var("", &repl), None);
}

#[test]
fn substitution_goes_by_the_flags() {
    let text = chars("a+a1");
    assert_eq!(flags_of(&text), vec![true, false, true, true]);
    assert_eq!(flags_of(&chars("é ٣_")), vec![true, false, true, false]);
    assert_eq!(
        substitute(&text, &vec![true, false, true, true], 'a', &chars("XY")),
        chars("XY+a1")
    );
    assert_eq!(
        substitute(&text, &vec![false, false, false, false], 'a', &chars("XY")),
        chars("XY+XY1")
    );
    assert_eq!(substitute(&text, &vec![true; 4], 'a', &Vec::new()), chars("a+a1"));
    assert_eq!(substitute(&Vec::new(), &Vec::new(), 'a', &chars("X")), Vec::<char>::new());
}

#[test]
fn patterns_in_text() {
    assert!(has_pattern(&chars("1+ans"), &chars("ans")));
    assert!(has_pattern(&chars("ans"), &chars("ans")));
    assert!(!has_pattern(&chars("an"), &chars("ans")));
    assert!(!has_pattern(&chars("a ns"), &chars("ans")));
    assert!(has_pattern(&chars("abc"), &Vec::new()));
    assert!(has_pattern(&Vec::new(), &Vec::new()));
    assert!(matches_here(&chars("banana"), &chars("ana"), 1));
    assert!(matches_here(&chars("banana"), &chars("ana"), 3));
    assert!(!matches_here(&chars("banana"), &chars("ana"), 4));
    assert!(!matches_here(&chars("banana"), &chars("ana"), 2));
    assert!(!matches_here(&chars("banana"), &chars("ana"), 9));
    assert!(same_text("graph", "graph"));
    assert!(!same_text("graph", "graph "));
    assert!(!same_text("graph", "grapH"));
    assert!(same_chars(&Vec::new(), &Vec::new()));
}

#[test]
fn replacement_goes_from_left_to_right() {
    assert_eq!(replace_all(&chars("banana"), &chars("ana"), &chars("X")), chars("bXna"));
    assert_eq!(replace_all(&chars("aaaa"), &chars("aa"), &chars("b")), chars("bb"));
    assert_eq!(replace_all(&chars("aaa"), &chars("aa"), &chars("b")), chars("ba"));
    assert_eq!(replace_all(&chars("abc"), &chars("x"), &chars("y")), chars("abc"));
    assert_eq!(replace_all(&chars("abc"), &chars("b"), &Vec::new()), chars("ac"));
    assert_eq!(replace_all(&Vec::new(), &chars("b"), &chars("y")), Vec::<char>::new());
    assert_eq!("banana".replace("ana", "X"), "bXna");
}
