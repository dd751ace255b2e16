use todo_list::operations::{
    populate_todo, process_line, process_operation, LineOutcome, Operation, Todo,
};
use todo_list::text::{parse_index, tokenize};

fn tasks(descriptions: &[(&str, bool)]) -> Vec<Todo> {
    descriptions
        .iter()
        .map(|(t, d)| Todo { task: (*t).to_string(), done: *d })
        .collect()
}

fn snapshot(list: &[Todo]) -> Vec<(String, bool)> {
    list.iter().map(|t| (t.task.clone(), t.done)).collect()
}

#[test]
fn unknown_command_reports_error_and_changes_nothing() {
    let mut list = populate_todo();
    let before = snapshot(&list);
    match process_line(&mut list, "frobnicate 1 2") {
        LineOutcome::Invalid(token) => assert_eq!(token, "frobnicate"),
        _ => panic!("an unrecognized token must be reported"),
    }
    assert_eq!(snapshot(&list), before);
}

#[test]
fn empty_line_is_ignored() {
    let mut list = populate_todo();
    let before = snapshot(&list);
    assert!(matches!(process_line(&mut list, ""), LineOutcome::Empty));
    assert!(matches!(process_line(&mut list, " \t  "), LineOutcome::Empty));
    assert_eq!(snapshot(&list), before);
}

#[test]
fn add_then_list_shows_new_last_task() {
    let mut list = populate_todo();
    let n = list.len();
    match process_line(&mut list, "add X Y") {
        LineOutcome::Ran(out) => {
            assert!(out.lines.is_empty());
            assert!(out.invalid.is_empty());
        }
        _ => panic!("add must run"),
    }
    assert_eq!(list.len(), n + 1);
    match process_line(&mut list, "list") {
        LineOutcome::Ran(out) => {
            assert_eq!(out.lines.len(), n + 1);
            let last = out.lines.last().unwrap();
            assert_eq!(last.text, "X Y");
            assert!(!last.struck);
        }
        _ => panic!("list must run"),
    }
}

#[test]
fn add_joins_arguments_with_single_spaces() {
    let mut list = Vec::new();
    process_line(&mut list, "add   buy    some   carrots");
    assert_eq!(list.len(), 1);
    assert_eq!(list[0].task, "buy some carrots");
    assert!(!list[0].done);
}

#[test]
fn add_without_arguments_is_a_silent_no_op() {
    let mut list = populate_todo();
    let before = snapshot(&list);
    match process_line(&mut list, "add") {
        LineOutcome::Ran(out) => {
            assert!(out.lines.is_empty());
            assert!(out.invalid.is_empty());
        }
        _ => panic!("add must run"),
    }
    assert_eq!(snapshot(&list), before);
}

#[test]
fn sort_groups_unfinished_first_stably() {
    let mut list = tasks(&[("A", false), ("B", true), ("C", false)]);
    process_line(&mut list, "sort");
    assert_eq!(
        snapshot(&list),
        vec![
            ("A".to_string(), false),
            ("C".to_string(), false),
            ("B".to_string(), true),
        ]
    );
}

#[test]
fn sort_twice_gives_the_same_order_as_once() {
    let mut list = tasks(&[("A", true), ("B", false), ("C", true), ("D", false)]);
    process_line(&mut list, "sort");
    let once = snapshot(&list);
    process_line(&mut list, "sort");
    assert_eq!(snapshot(&list), once);
}

#[test]
fn done_marks_the_given_indices() {
    let mut list = tasks(&[("A", false), ("B", false), ("C", false), ("D", false)]);
    match process_line(&mut list, "done 0 2") {
        LineOutcome::Ran(out) => assert!(out.invalid.is_empty()),
        _ => panic!("done must run"),
    }
    assert_eq!(
        snapshot(&list),
        vec![
            ("A".to_string(), true),
            ("B".to_string(), false),
            ("C".to_string(), true),
            ("D".to_string(), false),
        ]
    );
}

#[test]
fn done_out_of_range_is_a_silent_no_op() {
    let mut list = tasks(&[("A", false), ("B", false)]);
    match process_line(&mut list, "done 99") {
        LineOutcome::Ran(out) => assert!(out.invalid.is_empty()),
        _ => panic!("done must run"),
    }
    assert_eq!(
        snapshot(&list),
        vec![("A".to_string(), false), ("B".to_string(), false)]
    );
}

#[test]
fn done_with_an_unparsable_token_reports_it_and_marks_nothing() {
    let mut list = tasks(&[("A", false), ("B", false)]);
    match process_line(&mut list, "done x") {
        LineOutcome::Ran(out) => assert_eq!(out.invalid, vec!["x".to_string()]),
        _ => panic!("done must run"),
    }
    assert_eq!(
        snapshot(&list),
        vec![("A".to_string(), false), ("B".to_string(), false)]
    );
}

#[test]
fn done_keeps_going_after_a_bad_token() {
    let mut list = tasks(&[("A", false), ("B", false)]);
    match process_line(&mut list, "done x 1") {
        LineOutcome::Ran(out) => assert_eq!(out.invalid, vec!["x".to_string()]),
        _ => panic!("done must run"),
    }
    assert_eq!(
        snapshot(&list),
        vec![("A".to_string(), false), ("B".to_string(), true)]
    );
}

#[test]
fn rm_removes_and_shifts_indices() {
    let mut list = tasks(&[("A", false), ("B", false), ("C", false)]);
    process_line(&mut list, "rm 0");
    assert_eq!(
        snapshot(&list),
        vec![("B".to_string(), false), ("C".to_string(), false)]
    );

    let mut list = tasks(&[("A", false), ("B", false), ("C", false)]);
    process_line(&mut list, "rm 0 0");
    assert_eq!(snapshot(&list), vec![("C".to_string(), false)]);
}

#[test]
fn rm_out_of_range_is_a_silent_no_op() {
    let mut list = tasks(&[("A", false)]);
    match process_line(&mut list, "rm 5") {
        LineOutcome::Ran(out) => assert!(out.invalid.is_empty()),
        _ => panic!("rm must run"),
    }
    assert_eq!(snapshot(&list), vec![("A".to_string(), false)]);
}

#[test]
fn rm_with_an_unparsable_token_reports_it() {
    let mut list = tasks(&[("A", false)]);
    match process_line(&mut list, "rm two") {
        LineOutcome::Ran(out) => assert_eq!(out.invalid, vec!["two".to_string()]),
        _ => panic!("rm must run"),
    }
    assert_eq!(snapshot(&list), vec![("A".to_string(), false)]);
}

#[test]
fn reset_then_list_produces_no_lines() {
    let mut list = populate_todo();
    process_line(&mut list, "reset");
    assert!(list.is_empty());
    match process_line(&mut list, "list") {
        LineOutcome::Ran(out) => assert!(out.lines.is_empty()),
        _ => panic!("list must run"),
    }
}

#[test]
fn exit_and_quit_end_the_session_without_touching_the_list() {
    let mut list = populate_todo();
    let before = snapshot(&list);
    assert!(matches!(process_line(&mut list, "exit"), LineOutcome::Exit));
    assert!(matches!(process_line(&mut list, "quit"), LineOutcome::Exit));
    assert_eq!(snapshot(&list), before);
}

#[test]
fn list_strikes_through_exactly_the_completed_tasks() {
    let mut list = tasks(&[("A", false), ("B", true)]);
    match process_line(&mut list, "list") {
        LineOutcome::Ran(out) => {
            assert_eq!(out.lines.len(), 2);
            assert_eq!(out.lines[0].text, "A");
            assert!(!out.lines[0].struck);
            assert_eq!(out.lines[1].text, "B");
            assert!(out.lines[1].struck);
        }
        _ => panic!("list must run"),
    }
}

#[test]
fn help_prints_the_usage_message() {
    for cmd in ["help", "--help", "-h"] {
        let mut list = Vec::new();
        match process_line(&mut list, cmd) {
            LineOutcome::Ran(out) => {
                assert_eq!(out.lines.len(), 1);
                assert!(out.lines[0].text.starts_with("Usage:"));
                assert!(!out.lines[0].struck);
            }
            _ => panic!("help must run"),
        }
    }
}

#[test]
fn populate_todo_seeds_four_sample_tasks() {
    let list = populate_todo();
    assert_eq!(
        snapshot(&list),
        vec![
            ("first task".to_string(), false),
            ("second task".to_string(), true),
            ("third task".to_string(), false),
            ("fourth task".to_string(), true),
        ]
    );
}

#[test]
fn from_str_recognizes_every_command_token() {
    assert_eq!(Operation::from_str("add"), Ok(Operation::Add));
    assert_eq!(Operation::from_str("list"), Ok(Operation::List));
    assert_eq!(Operation::from_str("done"), Ok(Operation::Done));
    assert_eq!(Operation::from_str("rm"), Ok(Operation::Remove));
    assert_eq!(Operation::from_str("reset"), Ok(Operation::Reset));
    assert_eq!(Operation::from_str("sort"), Ok(Operation::Sort));
    assert_eq!(Operation::from_str("exit"), Ok(Operation::Exit));
    assert_eq!(Operation::from_str("quit"), Ok(Operation::Exit));
    assert_eq!(Operation::from_str("help"), Ok(Operation::Help));
    assert_eq!(Operation::from_str("--help"), Ok(Operation::Help));
    assert_eq!(Operation::from_str("-h"), Ok(Operation::Help));
}

#[test]
fn from_str_rejects_anything_else() {
    assert_eq!(Operation::from_str(""), Err(()));
    assert_eq!(Operation::from_str("Add"), Err(()));
    assert_eq!(Operation::from_str("remove"), Err(()));
    assert_eq!(Operation::from_str("adds"), Err(()));
}

#[test]
fn parse_index_reads_decimal_tokens() {
    assert_eq!(parse_index("0"), Some(0));
    assert_eq!(parse_index("12"), Some(12));
    assert_eq!(parse_index("+5"), Some(5));
    assert_eq!(parse_index("007"), Some(7));
}

#[test]
fn parse_index_rejects_malformed_or_oversized_tokens() {
    assert_eq!(parse_index(""), None);
    assert_eq!(parse_index("+"), None);
    assert_eq!(parse_index("-1"), None);
    assert_eq!(parse_index("1x"), None);
    assert_eq!(parse_index("x1"), None);
    assert_eq!(parse_index("99999999999999999999999999999999999"), None);
}

#[test]
fn tokenize_splits_on_runs_of_whitespace() {
    assert_eq!(tokenize("  add \t buy   carrots \n"), vec!["add", "buy", "carrots"]);
    assert_eq!(tokenize("list"), vec!["list"]);
    assert!(tokenize("   \t ").is_empty());
    assert!(tokenize("").is_empty());
}

#[test]
fn tokenize_splits_on_unicode_whitespace() {
    assert_eq!(tokenize("add\u{00A0}milk\u{2003}now"), vec!["add", "milk", "now"]);
    assert_eq!(
        tokenize("  a\u{3000}b "),
        "  a\u{3000}b ".split_whitespace().collect::<Vec<_>>()
    );
}

#[test]
fn process_operation_applies_a_parsed_command() {
    let mut list = tasks(&[("A", false)]);
    let args: Vec<String> = vec!["done".to_string(), "0".to_string()];
    let out = process_operation(&mut list, Operation::Done, &args);
    assert!(out.lines.is_empty());
    assert!(out.invalid.is_empty());
    assert_eq!(snapshot(&list), vec![("A".to_string(), true)]);
}
