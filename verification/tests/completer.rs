use shellkit::command::completer::{sort, CommandCompleter, PrefixTree};
use shellkit::command::BUILTIN_COMMAND_NAMES;

#[test]
fn prefix_tree_constructed_correctly() {
    let mut pt = PrefixTree::new();
    let first_str = String::from("Hello");
    let second_str = String::from("Halo");
    let third_str = String::from("Ham");

    let _ = pt.add(&first_str);
    let _ = pt.add(&second_str);
    let _ = pt.add(&third_str);

    println!("{:?}", &pt);
}

#[test]
fn prefix_tree_starts_with_works_correctly() {
    let mut pt = PrefixTree::new();

    for command in BUILTIN_COMMAND_NAMES {
        let _ = pt.add(command);
    }

    let test_input = String::from("e");
    if let Some(results) = pt.starts_with(&test_input) {
        println!("{:?}", results);
    }

    let test_input = String::from("c");
    if let Some(results) = pt.starts_with(&test_input) {
        println!("{:?}", results);
    }

    let test_input = String::from("cd");
    if let Some(results) = pt.starts_with(&test_input) {
        println!("{:?}", results);
    }
}

#[test]
fn starts_with_lists_the_last_branch_first() {
    let mut pt = PrefixTree::new();
    for command in BUILTIN_COMMAND_NAMES {
        assert_eq!(Ok(()), pt.add(command));
    }
    assert_eq!(
        Some(vec!["echo".to_string(), "exit".to_string()]),
        pt.starts_with("e")
    );
    assert_eq!(Some(vec!["cd".to_string()]), pt.starts_with("c"));
    assert_eq!(Some(vec!["cd".to_string()]), pt.starts_with("cd"));
    assert_eq!(None, pt.starts_with("cdx"));
    assert_eq!(None, pt.starts_with("x"));
}

#[test]
fn starts_with_the_empty_prefix_lists_every_name() {
    let mut pt = PrefixTree::new();
    assert_eq!(None, pt.starts_with(""));
    let _ = pt.add("b");
    let _ = pt.add("a");
    let _ = pt.add("ab");
    assert_eq!(
        Some(vec!["a".to_string(), "ab".to_string(), "b".to_string()]),
        pt.starts_with("")
    );
    let _ = pt.add("c");
    assert_eq!(
        Some(vec!["c".to_string(), "a".to_string(), "ab".to_string(), "b".to_string()]),
        pt.starts_with("")
    );
}

#[test]
fn a_name_comes_before_the_names_that_extend_it() {
    let mut pt = PrefixTree::new();
    let _ = pt.add("types");
    let _ = pt.add("type");
    let _ = pt.add("typo");
    assert_eq!(
        Some(vec!["typo".to_string(), "type".to_string(), "types".to_string()]),
        pt.starts_with("typ")
    );
    assert_eq!(
        Some(vec!["type".to_string(), "types".to_string()]),
        pt.starts_with("type")
    );
}

#[test]
fn adding_a_name_twice_keeps_it_once() {
    let mut pt = PrefixTree::new();
    let _ = pt.add("echo");
    let _ = pt.add("echo");
    assert_eq!(Some(vec!["echo".to_string()]), pt.starts_with("ec"));
}

#[test]
fn the_empty_name_is_not_kept() {
    let mut pt = PrefixTree::new();
    assert_eq!(Ok(()), pt.add(""));
    assert_eq!(None, pt.starts_with(""));
}

#[test]
fn names_outside_ascii_come_back_whole() {
    let mut pt = PrefixTree::new();
    let _ = pt.add("héllo");
    let _ = pt.add("hé");
    let _ = pt.add("日本語");
    assert_eq!(
        Some(vec!["hé".to_string(), "héllo".to_string()]),
        pt.starts_with("h")
    );
    assert_eq!(Some(vec!["日本語".to_string()]), pt.starts_with("日"));
}

#[test]
fn sort_orders_by_bytes() {
    let items = vec![
        "pwd".to_string(),
        "echo".to_string(),
        "exit".to_string(),
        "ec".to_string(),
        "Zed".to_string(),
        "écho".to_string(),
    ];
    let expected = vec![
        "Zed".to_string(),
        "ec".to_string(),
        "echo".to_string(),
        "exit".to_string(),
        "pwd".to_string(),
        "écho".to_string(),
    ];
    assert_eq!(expected, sort(items));
}

#[test]
fn sort_agrees_with_the_standard_order_of_strings() {
    let items = vec![
        "b".to_string(),
        "".to_string(),
        "ab".to_string(),
        "a".to_string(),
        "b".to_string(),
        "aa".to_string(),
    ];
    let mut expected = items.clone();
    expected.sort();
    assert_eq!(expected, sort(items));
}

#[test]
fn complete_proposes_the_rest_of_each_name_in_order() {
    let completer = CommandCompleter::new(&BUILTIN_COMMAND_NAMES);
    let (start, candidates) = completer.complete("e", 1);
    assert_eq!(1, start);
    assert_eq!(2, candidates.len());
    assert_eq!("echo", candidates[0].display);
    assert_eq!("cho ", candidates[0].replacement);
    assert_eq!("exit", candidates[1].display);
    assert_eq!("xit ", candidates[1].replacement);
}

#[test]
fn complete_cuts_at_the_cursor_and_not_at_the_end_of_the_line() {
    let completer = CommandCompleter::new(&["type"]);
    let (start, candidates) = completer.complete("ty", 0);
    assert_eq!(0, start);
    assert_eq!(1, candidates.len());
    assert_eq!("type", candidates[0].display);
    assert_eq!("type ", candidates[0].replacement);
}

#[test]
fn complete_rings_the_bell_when_nothing_matches() {
    let completer = CommandCompleter::new(&BUILTIN_COMMAND_NAMES);
    let (start, candidates) = completer.complete("zz", 2);
    assert_eq!(2, start);
    assert_eq!(1, candidates.len());
    assert_eq!("", candidates[0].display);
    assert_eq!("\x07", candidates[0].replacement);
}

#[test]
fn add_commands_makes_more_names_known() {
    let mut completer = CommandCompleter::new(&["echo"]);
    assert_eq!(Ok(()), completer.add_commands(&["env", "exit"]));
    let (_, candidates) = completer.complete("e", 1);
    let shown: Vec<String> = candidates.into_iter().map(|c| c.display).collect();
    assert_eq!(
        vec!["echo".to_string(), "env".to_string(), "exit".to_string()],
        shown
    );
}
