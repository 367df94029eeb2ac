use shellkit::command::environment::Environment;
use shellkit::command::{Command, RedirectInfo, RedirectMode};
use shellkit::shell::{Action, Shell};

fn to(path: &str, mode: RedirectMode) -> Option<RedirectInfo> {
    Some(RedirectInfo { file_path: path.to_string(), mode })
}

fn out(text: &str) -> Action {
    Action::Print { to_error: false, redirect: None, text: text.to_string() }
}

fn err(text: &str) -> Action {
    Action::Print { to_error: true, redirect: None, text: text.to_string() }
}

#[test]
fn builtins_call_for_one_action_each() {
    let mut shell = Shell::new("/work".to_string());
    assert_eq!(vec![out("hello world")], shell.exec_command(&Command::Echo("hello world".to_string())));
    assert_eq!(vec![out("/work")], shell.exec_command(&Command::Pwd));
    assert_eq!(vec![Action::Exit], shell.exec_command(&Command::Exit));
    assert_eq!(
        vec![Action::ChangeDirectory("/tmp".to_string())],
        shell.exec_command(&Command::Cd("/tmp".to_string()))
    );
    assert_eq!(
        vec![err("nope: command not found")],
        shell.exec_command(&Command::NotFound("nope".to_string()))
    );
}

#[test]
fn the_working_directory_changes_only_when_the_caller_says_so() {
    let mut shell = Shell::new("/work".to_string());
    let _ = shell.exec_command(&Command::Cd("/tmp".to_string()));
    assert_eq!(vec![out("/work")], shell.exec_command(&Command::Pwd));
    shell.change_dir("/tmp".to_string());
    assert_eq!(vec![out("/tmp")], shell.exec_command(&Command::Pwd));
    assert_eq!(
        err("cd: /nowhere: No such file or directory"),
        shell.missing_directory("/nowhere")
    );
}

#[test]
fn a_program_is_run_by_its_file_name() {
    let mut shell = Shell::new("/work".to_string());
    let command = Command::External {
        exec_path: "/usr/bin/cat".to_string(),
        args: vec!["a".to_string(), "b c".to_string()],
    };
    assert_eq!(
        vec![Action::Run {
            program: "cat".to_string(),
            args: vec!["a".to_string(), "b c".to_string()],
            stdout_redirect: None,
            stderr_redirect: None,
        }],
        shell.exec_command(&command)
    );
}

#[test]
fn a_modifier_sets_both_redirections_and_opens_their_files() {
    let mut shell = Shell::new("/work".to_string());
    let modifier = Command::EnviromentalModifier {
        stdout_redirect: to("out", RedirectMode::Truncate),
        stderr_redirect: to("err", RedirectMode::Append),
    };
    assert_eq!(
        vec![
            Action::Open(to("out", RedirectMode::Truncate).unwrap()),
            Action::Open(to("err", RedirectMode::Append).unwrap()),
        ],
        shell.exec_command(&modifier)
    );
    assert_eq!(
        vec![Action::Print {
            to_error: false,
            redirect: to("out", RedirectMode::Truncate),
            text: "hi".to_string(),
        }],
        shell.exec_command(&Command::Echo("hi".to_string()))
    );
    assert_eq!(
        vec![Action::Print {
            to_error: true,
            redirect: to("err", RedirectMode::Append),
            text: "x: command not found".to_string(),
        }],
        shell.exec_command(&Command::NotFound("x".to_string()))
    );
    assert_eq!(
        vec![Action::Run {
            program: "ls".to_string(),
            args: vec![],
            stdout_redirect: to("out", RedirectMode::Truncate),
            stderr_redirect: to("err", RedirectMode::Append),
        }],
        shell.exec_command(&Command::External { exec_path: "/bin/ls".to_string(), args: vec![] })
    );
    let only_errors = Command::EnviromentalModifier {
        stdout_redirect: None,
        stderr_redirect: to("log", RedirectMode::Truncate),
    };
    assert_eq!(
        vec![Action::Open(to("log", RedirectMode::Truncate).unwrap())],
        shell.exec_command(&only_errors)
    );
    assert_eq!(vec![out("hi")], shell.exec_command(&Command::Echo("hi".to_string())));
    let nothing = Command::EnviromentalModifier { stdout_redirect: None, stderr_redirect: None };
    assert_eq!(Vec::<Action>::new(), shell.exec_command(&nothing));
    assert_eq!(vec![err("x: command not found")], shell.exec_command(&Command::NotFound("x".to_string())));
}

#[test]
fn type_says_what_each_command_is() {
    let mut shell = Shell::new("/work".to_string());
    let command = Command::Type(vec![
        Command::Echo(String::new()),
        Command::External { exec_path: "/bin/ls".to_string(), args: vec![] },
        Command::EnviromentalModifier { stdout_redirect: None, stderr_redirect: None },
        Command::NotFound("nope".to_string()),
        Command::Type(vec![]),
    ]);
    assert_eq!(
        vec![
            out("echo is a shell builtin"),
            out("ls is /bin/ls"),
            err("nope: not found"),
            out("type is a shell builtin"),
        ],
        shell.exec_command(&command)
    );
    assert_eq!(Vec::<Action>::new(), shell.exec_command(&Command::Type(vec![])));
}

#[test]
fn a_line_is_carried_through_from_text_to_actions() {
    let mut env = Environment::new();
    env.add_program("cat", "/usr/bin/cat");
    let mut shell = Shell::new("/work".to_string());
    let result = Command::parse("cat notes.txt > copy.txt", &env);
    let mut actions = Vec::new();
    for command in &result.commands {
        actions.extend(shell.exec_command(command));
    }
    assert_eq!(
        vec![
            Action::Open(to("copy.txt", RedirectMode::Truncate).unwrap()),
            Action::Run {
                program: "cat".to_string(),
                args: vec!["notes.txt".to_string()],
                stdout_redirect: to("copy.txt", RedirectMode::Truncate),
                stderr_redirect: None,
            },
        ],
        actions
    );
}
