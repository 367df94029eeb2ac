use shellkit::command::environment::{Environment, ExpansionError};
use shellkit::command::meta::{tokenize, MetaSymbolExpander, TokenizerError};

fn words(tokens: Vec<Result<String, ExpansionError>>) -> Vec<String> {
    tokens.into_iter().map(|token| token.unwrap()).collect()
}

#[test]
fn expander_case1() {
    let input = "\"hello\" \"world\"";
    let input_iter = MetaSymbolExpander::new(input);

    let actual: Vec<String> = words(input_iter.collect());
    let expected = vec!["hello".to_string(), "world".to_string()];

    assert_eq!(expected, actual, "\ninput: ${:#?}", input);
}

#[test]
fn expander_case2() {
    let input = "\"hello\"  \"world\" memo";
    let input_iter = MetaSymbolExpander::new(input);

    let actual: Vec<String> = words(input_iter.collect());
    let expected = vec!["hello".to_string(), "world".to_string(), "memo".to_string()];

    assert_eq!(expected, actual, "\ninput: ${:#?}", input);
}

#[test]
fn expander_case3() {
    let input = "hello  world memo";
    let input_iter = MetaSymbolExpander::new(input);

    let actual: Vec<String> = words(input_iter.collect());
    let expected = vec!["hello".to_string(), "world".to_string(), "memo".to_string()];

    assert_eq!(expected, actual, "\ninput: ${:#?}", input);
}

#[test]
fn expander_case4() {
    let input = "hello  \"worl'd  memo\"";
    let input_iter = MetaSymbolExpander::new(input);

    let actual: Vec<String> = words(input_iter.collect());
    let expected = vec!["hello".to_string(), "worl'd  memo".to_string()];

    assert_eq!(expected, actual, "\ninput: {:#?}", input);
}

#[test]
fn expander_case5() {
    let input = "echo hello world";
    let input_iter = MetaSymbolExpander::new(input);

    let actual: Vec<String> = words(input_iter.collect());
    let expected = vec!["echo".to_string(), "hello".to_string(), "world".to_string()];

    assert_eq!(expected, actual, "\ninput: {:#?}", input);
}

#[test]
fn expander_case6() {
    let input =
        r#"cat /tmp/rat/'no slash 44' /tmp/rat/'one slash \95' /tmp/rat/'two slashes \50\'"#;

    let input_iter = MetaSymbolExpander::new(input);

    let actual: Vec<String> = words(input_iter.collect());
    let expected = vec![
        "cat".to_string(),
        "/tmp/rat/no slash 44".to_string(),
        r#"/tmp/rat/one slash \95"#.to_string(),
        r#"/tmp/rat/two slashes \50\"#.to_string(),
    ];
    assert_eq!(expected, actual, "\ninput: {:#?}", input);
}

#[test]
fn expander_case7() {
    let input = r#"\'\"test hello\"\'"#;

    let input_iter = MetaSymbolExpander::new(input);

    let actual: Vec<String> = words(input_iter.collect());
    let expected = vec!["'\"test".to_string(), "hello\"'".to_string()];
    assert_eq!(expected, actual, "\ninput: {:#?}", input);
}

#[test]
fn expander_case8() {
    let input = r#""mixed\"quote'example'\\"#;

    let input_iter = MetaSymbolExpander::new(input);

    let actual: String = words(input_iter.collect()).join("");
    let expected = "mixed\"quote'example'\\".to_string();

    assert_eq!(expected, actual, "\ninput: {:#?}", input);
}

#[test]
fn expander_case9() {
    let input = r#""exe with \'single quotes\'" /tmp/cow/f3"#;

    let mut input_iter = MetaSymbolExpander::new(input);

    let actual_command = input_iter.next().unwrap().unwrap();
    let actual_args = input_iter.next().unwrap().unwrap();

    let expected_command = r#"exe with \'single quotes\'"#.to_string();
    let expected_args = "/tmp/cow/f3";

    assert_eq!(expected_command, actual_command);
    assert_eq!(expected_args, actual_args);
}

#[test]
fn expander_case10() {
    let input = r#"'exe with "quotes"' /tmp/cow/f3"#;

    let mut input_iter = MetaSymbolExpander::new(input);

    let actual_command = input_iter.next().unwrap().unwrap();
    let actual_args = input_iter.next().unwrap().unwrap();

    let expected_command = "exe with \"quotes\"".to_string();
    let expected_args = "/tmp/cow/f3";

    assert_eq!(expected_command, actual_command);
    assert_eq!(expected_args, actual_args);
}

#[test]
fn adjacent_segments_join_into_one_token() {
    let actual = words(tokenize("\"hello\"world", &Environment::new()));
    assert_eq!(vec!["helloworld".to_string()], actual);
}

#[test]
fn runs_of_whitespace_make_one_boundary() {
    let actual = words(tokenize("a    b", &Environment::new()));
    assert_eq!(vec!["a".to_string(), "b".to_string()], actual);
}

#[test]
fn whitespace_inside_double_quotes_is_kept() {
    let actual = words(tokenize("echo \"hello   world\"", &Environment::new()));
    assert_eq!(vec!["echo".to_string(), "hello   world".to_string()], actual);
}

#[test]
fn undefined_variable_gives_an_empty_token() {
    let actual = tokenize("echo $UNDEFINED_VAR_X", &Environment::new());
    assert_eq!(vec![Ok("echo".to_string()), Ok(String::new())], actual);
}

#[test]
fn quotes_are_removed_across_segments() {
    let actual = words(tokenize("cat /tmp/'a b'/'c'", &Environment::new()));
    assert_eq!(vec!["cat".to_string(), "/tmp/a b/c".to_string()], actual);
}

#[test]
fn escaped_quotes_outside_quotes_are_literal() {
    let actual = words(tokenize("echo \\'hi\\'", &Environment::new()));
    assert_eq!(vec!["echo".to_string(), "'hi'".to_string()], actual);
}

#[test]
fn unterminated_quote_is_reported_after_the_last_token() {
    let mut expander = MetaSymbolExpander::new("echo 'abc");
    assert_eq!(Ok(()), expander.status());
    assert_eq!(Some(Ok("echo".to_string())), expander.next());
    assert_eq!(Some(Ok("abc".to_string())), expander.next());
    assert_eq!(None, expander.next());
    assert_eq!(Err(TokenizerError::UnterminatedQuote), expander.status());
}
