use shellkit::command::environment::{Environment, ExpansionError};
use shellkit::command::meta::{
    classify, is_whitespace, tokenize, CharClass, MetaSymbolExpander, ModifierChar, Separator,
    SpecialChar,
};

fn fixed() -> Environment {
    let mut env = Environment::new();
    env.set("USER", "ada");
    env.set("EMPTY", "");
    env.set("GREETING", "hello   world");
    env.set_home(Some("/home/ada".to_string()));
    env
}

fn ok(words: &[&str]) -> Vec<Result<String, ExpansionError>> {
    words.iter().map(|word| Ok(word.to_string())).collect()
}

#[test]
fn every_character_has_one_class() {
    assert_eq!(CharClass::Trigger(SpecialChar::Dollar), classify('$'));
    assert_eq!(CharClass::Trigger(SpecialChar::Star), classify('*'));
    assert_eq!(CharClass::Trigger(SpecialChar::Tilde), classify('~'));
    assert_eq!(CharClass::Trigger(SpecialChar::Backslash), classify('\\'));
    assert_eq!(CharClass::Quote(ModifierChar::SingleQuote), classify('\''));
    assert_eq!(CharClass::Quote(ModifierChar::DoubleQuote), classify('"'));
    assert_eq!(CharClass::Separator(Separator::Whitespace(' ')), classify(' '));
    assert_eq!(CharClass::Separator(Separator::Whitespace('\t')), classify('\t'));
    assert_eq!(CharClass::Separator(Separator::Whitespace('\n')), classify('\n'));
    assert_eq!(
        CharClass::Separator(Separator::Whitespace('\u{3000}')),
        classify('\u{3000}')
    );
    assert_eq!(CharClass::Ordinary, classify('a'));
    assert_eq!(CharClass::Ordinary, classify('/'));
    assert_eq!(CharClass::Ordinary, classify('>'));
    assert_eq!(CharClass::Ordinary, classify('\u{200B}'));
    assert_eq!(CharClass::Ordinary, classify('\u{180E}'));
}

#[test]
fn whitespace_is_what_the_standard_library_calls_whitespace() {
    let mut count = 0;
    for code in 0..=0x10FFFFu32 {
        if let Some(c) = char::from_u32(code) {
            assert_eq!(c.is_whitespace(), is_whitespace(c), "U+{:04X}", code);
            if is_whitespace(c) {
                count += 1;
            }
        }
    }
    assert_eq!(25, count);
}

#[test]
fn names_and_characters_correspond() {
    for trigger in [
        SpecialChar::Dollar,
        SpecialChar::Star,
        SpecialChar::Tilde,
        SpecialChar::Backslash,
    ] {
        assert_eq!(Ok(trigger), SpecialChar::try_from(trigger.name()));
    }
    assert_eq!('$', SpecialChar::Dollar.name());
    assert_eq!('*', SpecialChar::Star.name());
    assert_eq!('~', SpecialChar::Tilde.name());
    assert_eq!('\\', SpecialChar::Backslash.name());
    assert_eq!(Err(()), SpecialChar::try_from('a'));
    assert_eq!('\'', ModifierChar::SingleQuote.name());
    assert_eq!('"', ModifierChar::DoubleQuote.name());
    assert_eq!(Ok(ModifierChar::SingleQuote), ModifierChar::try_from('\''));
    assert_eq!(Ok(ModifierChar::DoubleQuote), ModifierChar::try_from('"'));
    assert_eq!(Err(()), ModifierChar::try_from('`'));
    assert_eq!(Ok(Separator::Whitespace('\r')), Separator::try_from('\r'));
    assert_eq!(Err(()), Separator::try_from('x'));
    assert_eq!('\t', Separator::Whitespace('\t').name());
}

#[test]
fn quotes_allow_only_their_triggers() {
    for trigger in [
        SpecialChar::Dollar,
        SpecialChar::Star,
        SpecialChar::Tilde,
        SpecialChar::Backslash,
    ] {
        assert!(!ModifierChar::SingleQuote.allows_special_char(&trigger));
    }
    assert!(ModifierChar::DoubleQuote.allows_special_char(&SpecialChar::Dollar));
    assert!(ModifierChar::DoubleQuote.allows_special_char(&SpecialChar::Backslash));
    assert!(!ModifierChar::DoubleQuote.allows_special_char(&SpecialChar::Star));
    assert!(!ModifierChar::DoubleQuote.allows_special_char(&SpecialChar::Tilde));
}

#[test]
fn lookups_fail_with_their_own_errors() {
    let env = fixed();
    assert_eq!(Ok("ada".to_string()), env.var("USER"));
    assert_eq!(Ok(String::new()), env.var("EMPTY"));
    assert_eq!(
        Err(ExpansionError::UndefinedVariable("NOPE".to_string())),
        env.var("NOPE")
    );
    assert_eq!(Ok("/home/ada".to_string()), env.home_dir());
    assert_eq!(Err(ExpansionError::NoHomeDirectory), Environment::new().home_dir());
    assert_eq!(None, env.program("ls"));
}

#[test]
fn a_later_definition_replaces_an_earlier_one() {
    let mut env = fixed();
    env.set("USER", "grace");
    assert_eq!(Ok("grace".to_string()), env.var("USER"));
    env.add_program("ls", "/bin/ls");
    env.add_program("ls", "/usr/bin/ls");
    assert_eq!(Some("/usr/bin/ls".to_string()), env.program("ls"));
    env.set_home(None);
    assert_eq!(Err(ExpansionError::NoHomeDirectory), env.home_dir());
}

#[test]
fn expand_resolves_each_trigger() {
    let env = fixed();
    let none = None;
    let single = Some(ModifierChar::SingleQuote);
    let double = Some(ModifierChar::DoubleQuote);
    assert_eq!(Ok("ada".to_string()), SpecialChar::Dollar.expand("USER", &none, &env));
    assert_eq!(Ok("ada".to_string()), SpecialChar::Dollar.expand("USER", &double, &env));
    assert_eq!(Ok("$".to_string()), SpecialChar::Dollar.expand("USER", &single, &env));
    assert_eq!(Ok(String::new()), SpecialChar::Dollar.expand("NOPE", &none, &env));
    assert_eq!(Ok("*".to_string()), SpecialChar::Star.expand("", &none, &env));
    assert_eq!(Ok("*".to_string()), SpecialChar::Star.expand("", &double, &env));
    assert_eq!(Ok("/home/ada".to_string()), SpecialChar::Tilde.expand("", &none, &env));
    assert_eq!(Ok("~".to_string()), SpecialChar::Tilde.expand("", &double, &env));
    assert_eq!(
        Err(ExpansionError::NoHomeDirectory),
        SpecialChar::Tilde.expand("", &none, &Environment::new())
    );
    assert_eq!(Ok("n".to_string()), SpecialChar::Backslash.expand("n", &none, &env));
    assert_eq!(Ok("\\n".to_string()), SpecialChar::Backslash.expand("n", &double, &env));
    assert_eq!(Ok("\"".to_string()), SpecialChar::Backslash.expand("\"", &double, &env));
    assert_eq!(Ok("\\".to_string()), SpecialChar::Backslash.expand("\\", &double, &env));
    assert_eq!(Ok("$".to_string()), SpecialChar::Backslash.expand("$", &double, &env));
    assert_eq!(Ok("\\".to_string()), SpecialChar::Backslash.expand("x", &single, &env));
}

#[test]
fn variables_expand_outside_quotes_and_in_double_quotes() {
    let env = fixed();
    assert_eq!(ok(&["echo", "ada"]), tokenize("echo $USER", &env));
    assert_eq!(ok(&["echo", "ada", "x"]), tokenize("echo $USER x", &env));
    assert_eq!(ok(&["echo", "ada"]), tokenize("echo \"$USER\"", &env));
    assert_eq!(ok(&["echo", "<ada>"]), tokenize("echo \"<$USER\"'>'", &env));
    assert_eq!(ok(&["echo", "$USER"]), tokenize("echo '$USER'", &env));
    assert_eq!(ok(&["echo", "ada/bin"]), tokenize("echo \"$USER\"/bin", &env));
}

#[test]
fn the_value_of_a_variable_is_not_split_again() {
    let env = fixed();
    assert_eq!(ok(&["echo", "hello   world"]), tokenize("echo $GREETING", &env));
}

#[test]
fn a_name_runs_up_to_whitespace_or_a_quote() {
    let env = fixed();
    assert_eq!(ok(&["echo", ""]), tokenize("echo $USER/bin", &env));
    assert_eq!(ok(&["echo", ""]), tokenize("echo $USER$USER", &env));
    assert_eq!(ok(&["echo", "adax"]), tokenize("echo $USER\"x\"", &env));
    assert_eq!(ok(&["echo", "$x"]), tokenize("echo $USER'x'", &env));
    assert_eq!(ok(&["echo", "ada y"]), tokenize("echo \"$USER y\"", &env));
}

#[test]
fn literal_characters_pass_a_pending_name_in_double_quotes() {
    let mut env = fixed();
    env.set("AB", "value");
    assert_eq!(ok(&["*value"]), tokenize("\"$A*B\"", &env));
    assert_eq!(ok(&["'value"]), tokenize("\"$A'B\"", &env));
}

#[test]
fn empty_values_still_make_a_token() {
    let env = fixed();
    assert_eq!(ok(&["echo", ""]), tokenize("echo $EMPTY", &env));
    assert_eq!(ok(&["echo", "", "x"]), tokenize("echo $NOPE x", &env));
    assert_eq!(ok(&["echo", ""]), tokenize("echo $", &env));
    assert_eq!(ok(&["echo"]), tokenize("echo ''", &env));
    assert_eq!(ok(&["echo"]), tokenize("echo \"\"", &env));
}

#[test]
fn tilde_is_the_home_directory_outside_quotes() {
    let env = fixed();
    assert_eq!(ok(&["cd", "/home/ada"]), tokenize("cd ~", &env));
    assert_eq!(ok(&["cd", "/home/ada/src"]), tokenize("cd ~/src", &env));
    assert_eq!(ok(&["cd", "a/home/ada"]), tokenize("cd a~", &env));
    assert_eq!(ok(&["cd", "~"]), tokenize("cd '~'", &env));
    assert_eq!(ok(&["cd", "~"]), tokenize("cd \"~\"", &env));
    assert_eq!(ok(&["cd", "~"]), tokenize("cd \\~", &env));
}

#[test]
fn a_missing_home_directory_fails_the_one_token() {
    let env = Environment::new();
    assert_eq!(
        vec![
            Ok("cd".to_string()),
            Err(ExpansionError::NoHomeDirectory),
            Ok("next".to_string()),
        ],
        tokenize("cd ~/src next", &env)
    );
}

#[test]
fn star_is_itself() {
    let env = fixed();
    assert_eq!(ok(&["ls", "*"]), tokenize("ls *", &env));
    assert_eq!(ok(&["ls", "*.rs"]), tokenize("ls *.rs", &env));
    assert_eq!(ok(&["ls", "a*b"]), tokenize("ls a*b", &env));
    assert_eq!(ok(&["ls", "*"]), tokenize("ls \"*\"", &env));
}

#[test]
fn a_backslash_outside_quotes_keeps_the_next_character() {
    let env = fixed();
    assert_eq!(ok(&["a b"]), tokenize("a\\ b", &env));
    assert_eq!(ok(&["$USER"]), tokenize("\\$USER", &env));
    assert_eq!(ok(&["\\"]), tokenize("\\\\", &env));
    assert_eq!(ok(&["n"]), tokenize("\\n", &env));
    assert_eq!(ok(&["\"a\""]), tokenize("\\\"a\\\"", &env));
}

#[test]
fn a_backslash_in_double_quotes_unescapes_three_characters() {
    let env = fixed();
    assert_eq!(ok(&["a\"b"]), tokenize("\"a\\\"b\"", &env));
    assert_eq!(ok(&["a\\b"]), tokenize("\"a\\\\b\"", &env));
    assert_eq!(ok(&["a$USER"]), tokenize("\"a\\$USER\"", &env));
    assert_eq!(ok(&["a\\nb"]), tokenize("\"a\\nb\"", &env));
    assert_eq!(ok(&["a\\ b"]), tokenize("\"a\\ b\"", &env));
    assert_eq!(ok(&["a\\*"]), tokenize("\"a\\*\"", &env));
}

#[test]
fn what_is_open_at_the_end_is_resolved_there() {
    let env = fixed();
    assert_eq!(ok(&["echo", "abc def"]), tokenize("echo \"abc def", &env));
    assert_eq!(ok(&["echo", "ada"]), tokenize("echo \"$USER", &env));
    assert_eq!(ok(&["echo", ""]), tokenize("echo \\", &env));
    assert_eq!(ok(&["echo", "a"]), tokenize("echo a\\", &env));
    assert_eq!(ok(&["echo", "a\\"]), tokenize("echo \"a\\", &env));
}

#[test]
fn redirection_operators_are_ordinary_words() {
    let env = fixed();
    assert_eq!(
        ok(&["echo", "hi", ">", "out", "2>>", "err", "1>", "x"]),
        tokenize("echo hi > out 2>> err 1> x", &env)
    );
}

#[test]
fn every_kind_of_whitespace_separates() {
    let env = fixed();
    assert_eq!(ok(&["a", "b", "c", "d"]), tokenize("a\tb\u{a0}c\u{2003}d", &env));
    assert_eq!(ok(&["a\u{200b}b"]), tokenize("a\u{200b}b", &env));
    assert_eq!(ok(&[]), tokenize("  \t \n", &env));
    assert_eq!(ok(&[]), tokenize("", &env));
}

#[test]
fn a_plain_line_is_split_as_the_standard_library_splits_it() {
    let env = fixed();
    for line in ["", "  ", "a", " a  b ", "one\ttwo\u{3000}three", "x-y_z 1.5 /usr/bin"] {
        let expected: Vec<Result<String, ExpansionError>> =
            line.split_whitespace().map(|word| Ok(word.to_string())).collect();
        assert_eq!(expected, tokenize(line, &env));
    }
}

#[test]
fn single_quoted_text_comes_out_verbatim() {
    let env = fixed();
    for text in ["$USER", "~", "*", "a\\nb", "a \"b\" c", "  ", "\\"] {
        let line = format!("'{}'", text);
        assert_eq!(ok(&[text]), tokenize(&line, &env));
    }
}

#[test]
fn one_step_at_a_time_gives_the_same_tokens() {
    let env = fixed();
    let line = "echo \"$USER\" 'a b' c\\ d";
    let mut expander = MetaSymbolExpander::with_environment(line, &env);
    for _ in 0..7 {
        expander.process_next_char();
    }
    expander.apply_special_or_meta_or_separator_or_else(None);
    assert_eq!(Some(Ok("echo".to_string())), expander.next());
    expander.process_next_char();
    expander.process_next_char();
    assert_eq!(ok(&["ada", "a b", "c d"]), expander.collect());
}

#[test]
fn next_keeps_answering_none_at_the_end() {
    let mut expander = MetaSymbolExpander::new("one");
    assert_eq!(Some(Ok("one".to_string())), expander.next());
    assert_eq!(None, expander.next());
    assert_eq!(None, expander.next());
    expander.process_next_char();
    assert_eq!(None, expander.next());
}

#[test]
fn joining_the_tokens_of_a_plain_line_gives_the_same_tokens() {
    let env = fixed();
    for line in [" a  b ", "one\ttwo\u{3000}three", "x-y_z 1.5 /usr/bin", ""] {
        let first = tokenize(line, &env);
        let words: Vec<String> = first.iter().map(|token| token.clone().unwrap()).collect();
        assert_eq!(first, tokenize(&words.join(" "), &env));
    }
}
