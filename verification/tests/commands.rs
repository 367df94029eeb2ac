use shellkit::command::environment::{Environment, ExpansionError};
use shellkit::command::{
    join, trim, Command, CommandPartial, RedirectInfo, RedirectMode, BUILTIN_COMMAND_NAMES,
};

fn fixed() -> Environment {
    let mut env = Environment::new();
    env.set("USER", "ada");
    env.set_home(Some("/home/ada".to_string()));
    env.add_program("ls", "/bin/ls");
    env.add_program("cat", "/usr/bin/cat");
    env
}

fn nothing_redirected() -> Command {
    Command::EnviromentalModifier { stdout_redirect: None, stderr_redirect: None }
}

fn to(path: &str, mode: RedirectMode) -> Option<RedirectInfo> {
    Some(RedirectInfo { file_path: path.to_string(), mode })
}

fn strings(words: &[&str]) -> Vec<String> {
    words.iter().map(|word| word.to_string()).collect()
}

#[test]
fn join_puts_the_separator_between_neighbours() {
    assert_eq!("", join(&strings(&[]), " "));
    assert_eq!("a", join(&strings(&["a"]), " "));
    assert_eq!("a b c", join(&strings(&["a", "b", "c"]), " "));
    assert_eq!("abc", join(&strings(&["a", "b", "c"]), ""));
    assert_eq!("a, , c", join(&strings(&["a", "", "c"]), ", "));
}

#[test]
fn first_words_are_read_as_operators_builtins_or_names() {
    assert_eq!(CommandPartial::StdOutRedirect, CommandPartial::parse(">"));
    assert_eq!(CommandPartial::StdOutRedirect, CommandPartial::parse("1>"));
    assert_eq!(CommandPartial::StdOutRedirectAppend, CommandPartial::parse(">>"));
    assert_eq!(CommandPartial::StdOutRedirectAppend, CommandPartial::parse("1>>"));
    assert_eq!(CommandPartial::StdErrRedirect, CommandPartial::parse("2>"));
    assert_eq!(CommandPartial::StdErrRedirectAppend, CommandPartial::parse("2>>"));
    assert_eq!(CommandPartial::Exit, CommandPartial::parse("exit"));
    assert_eq!(CommandPartial::Echo, CommandPartial::parse("echo"));
    assert_eq!(CommandPartial::Type, CommandPartial::parse("type"));
    assert_eq!(CommandPartial::Pwd, CommandPartial::parse("pwd"));
    assert_eq!(CommandPartial::Cd, CommandPartial::parse("cd"));
    assert_eq!(CommandPartial::Unknown("ls".to_string()), CommandPartial::parse("ls"));
    assert_eq!(CommandPartial::Unknown("3>".to_string()), CommandPartial::parse("3>"));
    assert_eq!(CommandPartial::Unknown("Echo".to_string()), CommandPartial::parse("Echo"));
    assert_eq!(CommandPartial::Unknown(String::new()), CommandPartial::parse(""));
}

#[test]
fn every_builtin_name_is_read_as_a_builtin() {
    for name in BUILTIN_COMMAND_NAMES {
        assert!(!matches!(CommandPartial::parse(name), CommandPartial::Unknown(_)));
    }
}

#[test]
fn only_redirections_end_the_command_before_them() {
    let before = [CommandPartial::Echo, CommandPartial::StdOutRedirect, CommandPartial::Exit];
    for other in &before {
        assert!(CommandPartial::StdOutRedirect.can_be_chained_after(other));
        assert!(CommandPartial::StdOutRedirectAppend.can_be_chained_after(other));
        assert!(CommandPartial::StdErrRedirect.can_be_chained_after(other));
        assert!(CommandPartial::StdErrRedirectAppend.can_be_chained_after(other));
        assert!(!CommandPartial::Echo.can_be_chained_after(other));
        assert!(!CommandPartial::Type.can_be_chained_after(other));
        assert!(!CommandPartial::Unknown("ls".to_string()).can_be_chained_after(other));
    }
}

#[test]
fn a_first_word_and_its_arguments_make_a_command() {
    let env = fixed();
    let args = strings(&["a", "b"]);
    assert_eq!(Command::Exit, CommandPartial::Exit.into_full(&args, &env));
    assert_eq!(Command::Pwd, CommandPartial::Pwd.into_full(&args, &env));
    assert_eq!(Command::Echo("a b".to_string()), CommandPartial::Echo.into_full(&args, &env));
    assert_eq!(Command::Cd("ab".to_string()), CommandPartial::Cd.into_full(&args, &env));
    assert_eq!(
        Command::EnviromentalModifier {
            stdout_redirect: to("ab", RedirectMode::Truncate),
            stderr_redirect: None,
        },
        CommandPartial::StdOutRedirect.into_full(&args, &env)
    );
    assert_eq!(
        Command::EnviromentalModifier {
            stdout_redirect: to("ab", RedirectMode::Append),
            stderr_redirect: None,
        },
        CommandPartial::StdOutRedirectAppend.into_full(&args, &env)
    );
    assert_eq!(
        Command::EnviromentalModifier {
            stdout_redirect: None,
            stderr_redirect: to("ab", RedirectMode::Truncate),
        },
        CommandPartial::StdErrRedirect.into_full(&args, &env)
    );
    assert_eq!(
        Command::EnviromentalModifier {
            stdout_redirect: None,
            stderr_redirect: to("ab", RedirectMode::Append),
        },
        CommandPartial::StdErrRedirectAppend.into_full(&args, &env)
    );
    assert_eq!(
        Command::External { exec_path: "/bin/ls".to_string(), args: strings(&["a", "b"]) },
        CommandPartial::Unknown("ls".to_string()).into_full(&args, &env)
    );
    assert_eq!(
        Command::NotFound("nope".to_string()),
        CommandPartial::Unknown("nope".to_string()).into_full(&args, &env)
    );
}

#[test]
fn type_holds_what_each_argument_names() {
    let env = fixed();
    let args = strings(&["echo", "ls", "nope", "type", "cd"]);
    assert_eq!(
        Command::Type(vec![
            Command::Echo(String::new()),
            Command::External { exec_path: "/bin/ls".to_string(), args: vec![] },
            Command::NotFound("nope".to_string()),
            Command::Type(vec![]),
            Command::Cd(String::new()),
        ]),
        CommandPartial::Type.into_full(&args, &env)
    );
}

#[test]
fn a_line_starts_with_a_modifier_that_redirects_nothing() {
    let env = fixed();
    let result = Command::parse("echo hello world", &env);
    assert_eq!("echo hello world", result.input);
    assert_eq!(
        vec![nothing_redirected(), Command::Echo("hello world".to_string())],
        result.commands
    );
    assert!(result.failures.is_empty());
}

#[test]
fn the_empty_line_is_the_one_modifier() {
    let env = fixed();
    assert_eq!(vec![nothing_redirected()], Command::parse("", &env).commands);
    assert_eq!(vec![nothing_redirected()], Command::parse("   \t", &env).commands);
}

#[test]
fn the_line_is_trimmed_before_it_is_read() {
    let env = fixed();
    let result = Command::parse("  \t pwd \n", &env);
    assert_eq!("pwd", result.input);
    assert_eq!(vec![nothing_redirected(), Command::Pwd], result.commands);
    let result = Command::parse("\u{3000}echo a\\ \u{a0}", &env);
    assert_eq!("echo a\\", result.input);
    assert_eq!(vec![nothing_redirected(), Command::Echo("a".to_string())], result.commands);
}

#[test]
fn a_redirection_stands_in_the_modifier_before_its_command() {
    let env = fixed();
    let result = Command::parse("echo hi > out.txt", &env);
    assert_eq!(
        vec![
            Command::EnviromentalModifier {
                stdout_redirect: to("out.txt", RedirectMode::Truncate),
                stderr_redirect: None,
            },
            Command::Echo("hi".to_string()),
        ],
        result.commands
    );
    let result = Command::parse("ls -l 2>> err.log", &env);
    assert_eq!(
        vec![
            Command::EnviromentalModifier {
                stdout_redirect: None,
                stderr_redirect: to("err.log", RedirectMode::Append),
            },
            Command::External { exec_path: "/bin/ls".to_string(), args: strings(&["-l"]) },
        ],
        result.commands
    );
}

#[test]
fn a_second_redirection_opens_a_new_modifier() {
    let env = fixed();
    let result = Command::parse("cat a 1>> out 2> err", &env);
    assert_eq!(
        vec![
            Command::EnviromentalModifier {
                stdout_redirect: to("out", RedirectMode::Append),
                stderr_redirect: None,
            },
            Command::External { exec_path: "/usr/bin/cat".to_string(), args: strings(&["a"]) },
            Command::EnviromentalModifier {
                stdout_redirect: None,
                stderr_redirect: to("err", RedirectMode::Truncate),
            },
        ],
        result.commands
    );
    let result = Command::parse("> a > b echo", &env);
    assert_eq!(
        vec![
            Command::EnviromentalModifier {
                stdout_redirect: to("a", RedirectMode::Truncate),
                stderr_redirect: None,
            },
            Command::EnviromentalModifier {
                stdout_redirect: to("becho", RedirectMode::Truncate),
                stderr_redirect: None,
            },
        ],
        result.commands
    );
}

#[test]
fn builtin_names_after_the_first_word_are_arguments() {
    let env = fixed();
    assert_eq!(
        vec![nothing_redirected(), Command::Echo("exit cd pwd".to_string())],
        Command::parse("echo exit cd pwd", &env).commands
    );
}

#[test]
fn a_name_off_the_search_path_is_not_found() {
    let env = fixed();
    assert_eq!(
        vec![nothing_redirected(), Command::NotFound("nosuch".to_string())],
        Command::parse("nosuch a b", &env).commands
    );
}

#[test]
fn type_reads_each_argument_as_a_name() {
    let env = fixed();
    assert_eq!(
        vec![
            nothing_redirected(),
            Command::Type(vec![
                Command::Pwd,
                Command::External { exec_path: "/usr/bin/cat".to_string(), args: vec![] },
                Command::NotFound("echo hi".to_string()),
            ]),
        ],
        Command::parse("type pwd cat 'echo hi'", &env).commands
    );
}

#[test]
fn expansions_are_done_before_the_words_are_grouped() {
    let env = fixed();
    let result = Command::parse("cd ~/src", &env);
    assert_eq!(vec![nothing_redirected(), Command::Cd("/home/ada/src".to_string())], result.commands);
    let result = Command::parse("echo \"$USER\" '>' x", &env);
    assert_eq!(
        vec![
            Command::EnviromentalModifier {
                stdout_redirect: to("x", RedirectMode::Truncate),
                stderr_redirect: None,
            },
            Command::Echo("ada".to_string()),
        ],
        result.commands
    );
}

#[test]
fn a_failed_token_is_read_as_the_empty_word_and_reported() {
    let env = Environment::new();
    let result = Command::parse("cd ~ ; echo ~", &env);
    assert_eq!(vec![nothing_redirected(), Command::Cd(";echo".to_string())], result.commands);
    assert_eq!(
        vec![ExpansionError::NoHomeDirectory, ExpansionError::NoHomeDirectory],
        result.failures
    );
    let result = Command::parse("~", &env);
    assert_eq!(vec![nothing_redirected(), Command::NotFound(String::new())], result.commands);
    assert_eq!(vec![ExpansionError::NoHomeDirectory], result.failures);
}

#[test]
fn commands_are_called_by_their_names() {
    assert_eq!("exit", Command::Exit.to_text());
    assert_eq!("pwd", Command::Pwd.to_text());
    assert_eq!("echo", Command::Echo("a b".to_string()).to_text());
    assert_eq!("cd", Command::Cd("/tmp".to_string()).to_text());
    assert_eq!("type", Command::Type(vec![Command::Pwd]).to_text());
    assert_eq!("", nothing_redirected().to_text());
    assert_eq!("nope", Command::NotFound("nope".to_string()).to_text());
    assert_eq!(
        "ls is /bin/ls",
        Command::External { exec_path: "/bin/ls".to_string(), args: strings(&["-l"]) }.to_text()
    );
    assert_eq!(
        "ls is ls",
        Command::External { exec_path: "ls".to_string(), args: vec![] }.to_text()
    );
    assert_eq!(
        " is /bin/",
        Command::External { exec_path: "/bin/".to_string(), args: vec![] }.to_text()
    );
}

#[test]
fn trim_agrees_with_the_standard_library() {
    for line in [
        "",
        " ",
        "\t\n",
        "a",
        " a",
        "a ",
        "  a  b  ",
        "\u{3000}é\u{a0}",
        "\u{2003}日本語 x\u{85}",
        "\u{200b} a \u{200b}",
    ] {
        assert_eq!(line.trim(), trim(line));
    }
}
