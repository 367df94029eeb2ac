//! What the shell does with a command: the decisions, without the doing.
//!
//! For each command the shell says which actions are to be carried out, in
//! order, and keeps the redirections and the working directory in mind. The
//! caller carries the actions out and reports a change of directory back.

use crate::command::{
    copy_all, file_name, last_segment, models, redirect_view, texts, Command, CommandModel,
    Redirect, RedirectInfo,
};
use vstd::prelude::*;
use vstd::string::*;

verus! {

/// What is to be done for a command.
#[derive(Debug, PartialEq, Eq)]
pub enum Action {
    /// The process is to change its directory. The caller reports success
    /// with [`Shell::change_dir`] and failure with [`Shell::missing_directory`].
    ChangeDirectory(String),
    /// One line is to be written: to the file of the redirection if there is
    /// one, else to the error stream or the output stream.
    Print { to_error: bool, redirect: Option<RedirectInfo>, text: String },
    /// A program is to be run with its arguments and with its streams redirected.
    Run {
        program: String,
        args: Vec<String>,
        stdout_redirect: Option<RedirectInfo>,
        stderr_redirect: Option<RedirectInfo>,
    },
    /// The file of a redirection is to be opened, so that it exists.
    Open(RedirectInfo),
    /// The process is to end.
    Exit,
}

/// Mathematical value of an [`Action`].
pub enum ActionModel {
    ChangeDirectory(Seq<char>),
    Print { to_error: bool, redirect: Option<Redirect>, text: Seq<char> },
    Run {
        program: Seq<char>,
        args: Seq<Seq<char>>,
        stdout_redirect: Option<Redirect>,
        stderr_redirect: Option<Redirect>,
    },
    Open(Redirect),
    Exit,
}

impl View for Action {
    type V = ActionModel;

    open spec fn view(&self) -> ActionModel {
        match self {
            Action::ChangeDirectory(path) => ActionModel::ChangeDirectory(path@),
            Action::Print { to_error, redirect, text } => ActionModel::Print {
                to_error: *to_error,
                redirect: redirect_view(*redirect),
                text: text@,
            },
            Action::Run { program, args, stdout_redirect, stderr_redirect } => ActionModel::Run {
                program: program@,
                args: texts(args@),
                stdout_redirect: redirect_view(*stdout_redirect),
                stderr_redirect: redirect_view(*stderr_redirect),
            },
            Action::Open(redirect) => ActionModel::Open(redirect@),
            Action::Exit => ActionModel::Exit,
        }
    }
}

/// Mathematical value of a list of actions.
pub open spec fn action_models(actions: Seq<Action>) -> Seq<ActionModel> {
    Seq::new(actions.len(), |i: int| actions[i]@)
}

/// Mathematical value of a [`Shell`].
#[verifier::ext_equal]
pub struct ShellModel {
    pub working_dir: Seq<char>,
    pub stdout_redirect: Option<Redirect>,
    pub stderr_redirect: Option<Redirect>,
}

impl ShellModel {
    /// One line for the output stream, under the redirection of that stream.
    pub open spec fn result(self, text: Seq<char>) -> ActionModel {
        ActionModel::Print { to_error: false, redirect: self.stdout_redirect, text }
    }

    /// One line for the error stream, under the redirection of that stream.
    pub open spec fn error(self, text: Seq<char>) -> ActionModel {
        ActionModel::Print { to_error: true, redirect: self.stderr_redirect, text }
    }

    /// What `type` says of one command: a name that was not found is an
    /// error, a program is shown with its path, a builtin is called one, and
    /// of a modifier nothing is said.
    pub open spec fn report(self, command: CommandModel) -> Seq<ActionModel> {
        match command {
            CommandModel::NotFound(name) => seq![self.error(name + ": not found"@)],
            CommandModel::External { .. } => seq![self.result(command.text())],
            CommandModel::EnviromentalModifier { .. } => Seq::empty(),
            _ => seq![self.result(command.text() + " is a shell builtin"@)],
        }
    }

    /// What `type` says of each of `commands`, in order.
    pub open spec fn reports(self, commands: Seq<CommandModel>) -> Seq<ActionModel>
        decreases commands.len(),
    {
        if commands.len() == 0 {
            Seq::empty()
        } else {
            self.reports(commands.drop_last()) + self.report(commands.last())
        }
    }

    /// The files that a modifier opens: that of the output stream first.
    pub open spec fn openings(
        stdout_redirect: Option<Redirect>,
        stderr_redirect: Option<Redirect>,
    ) -> Seq<ActionModel> {
        (match stdout_redirect {
            Some(redirect) => seq![ActionModel::Open(redirect)],
            None => Seq::empty(),
        }) + (match stderr_redirect {
            Some(redirect) => seq![ActionModel::Open(redirect)],
            None => Seq::empty(),
        })
    }

    /// The actions that `command` calls for.
    pub open spec fn actions(self, command: CommandModel) -> Seq<ActionModel> {
        match command {
            CommandModel::Cd(path) => seq![ActionModel::ChangeDirectory(path)],
            CommandModel::Echo(text) => seq![self.result(text)],
            CommandModel::External { exec_path, args } => seq![
                ActionModel::Run {
                    program: last_segment(exec_path),
                    args,
                    stdout_redirect: self.stdout_redirect,
                    stderr_redirect: self.stderr_redirect,
                },
            ],
            CommandModel::Type(inner) => self.reports(inner),
            CommandModel::Pwd => seq![self.result(self.working_dir)],
            CommandModel::Exit => seq![ActionModel::Exit],
            CommandModel::NotFound(name) => seq![self.error(name + ": command not found"@)],
            CommandModel::EnviromentalModifier { stdout_redirect, stderr_redirect } => {
                ShellModel::openings(stdout_redirect, stderr_redirect)
            },
        }
    }

    /// The shell after `command`: a modifier replaces both redirections, and
    /// no other command changes anything.
    pub open spec fn after(self, command: CommandModel) -> ShellModel {
        match command {
            CommandModel::EnviromentalModifier { stdout_redirect, stderr_redirect } => ShellModel {
                stdout_redirect,
                stderr_redirect,
                ..self
            },
            _ => self,
        }
    }
}

/// What the shell keeps in mind between two commands.
#[derive(Debug)]
pub struct Shell {
    working_dir: String,
    stdout_redirect: Option<RedirectInfo>,
    stderr_redirect: Option<RedirectInfo>,
}

impl View for Shell {
    type V = ShellModel;

    closed spec fn view(&self) -> ShellModel {
        ShellModel {
            working_dir: self.working_dir@,
            stdout_redirect: redirect_view(self.stdout_redirect),
            stderr_redirect: redirect_view(self.stderr_redirect),
        }
    }
}

/// A copy of an optional redirection.
fn copy_redirect(redirect: &Option<RedirectInfo>) -> (copy: Option<RedirectInfo>)
    ensures
        redirect_view(copy) == redirect_view(*redirect),
{
    match redirect {
        Some(info) => Some(RedirectInfo { file_path: info.file_path.clone(), mode: info.mode }),
        None => None,
    }
}

/// `text` followed by `suffix`.
fn followed(text: String, suffix: &str) -> (whole: String)
    ensures
        whole@ == text@ + suffix@,
{
    let mut whole = text;
    whole.append(suffix);
    whole
}

/// The values of the commands of a list are the values of its members.
proof fn lemma_models_index(commands: Seq<Command>)
    ensures
        models(commands).len() == commands.len(),
        forall|i: int| 0 <= i < commands.len() ==> (#[trigger] models(commands)[i]) == commands[i]@,
    decreases commands.len(),
{
    if commands.len() > 0 {
        lemma_models_index(commands.drop_last());
        assert(models(commands) == models(commands.drop_last()).push(commands.last()@));
        assert forall|i: int| 0 <= i < commands.len() implies (#[trigger] models(commands)[i])
            == commands[i]@ by {
            if i < commands.len() - 1 {
                assert(commands.drop_last()[i] == commands[i]);
            }
        }
    }
}

impl Shell {
    /// A shell that works in `working_dir` and redirects nothing.
    pub fn new(working_dir: String) -> (shell: Shell)
        ensures
            shell@ == (ShellModel {
                working_dir: working_dir@,
                stdout_redirect: None,
                stderr_redirect: None,
            }),
    {
        Shell { working_dir, stdout_redirect: None, stderr_redirect: None }
    }

    /// The line `text` for the output stream.
    pub fn display_result(&self, text: String) -> (action: Action)
        ensures
            action@ == self@.result(text@),
    {
        Action::Print { to_error: false, redirect: copy_redirect(&self.stdout_redirect), text }
    }

    /// The line `text` for the error stream.
    pub fn display_error(&self, text: String) -> (action: Action)
        ensures
            action@ == self@.error(text@),
    {
        Action::Print { to_error: true, redirect: copy_redirect(&self.stderr_redirect), text }
    }

    /// The process has changed its directory to `path`.
    pub fn change_dir(&mut self, path: String)
        ensures
            final(self)@ == (ShellModel { working_dir: path@, ..old(self)@ }),
    {
        self.working_dir = path;
    }

    /// What is to be said when the process could not change its directory to `path`.
    pub fn missing_directory(&self, path: &str) -> (action: Action)
        ensures
            action@ == self@.error("cd: "@ + path@ + ": No such file or directory"@),
    {
        let text = followed(followed("cd: ".to_owned(), path), ": No such file or directory");
        self.display_error(text)
    }

    /// What `type` says of `command`.
    fn report(&self, command: &Command) -> (actions: Vec<Action>)
        ensures
            action_models(actions@) == self@.report(command@),
    {
        let mut actions: Vec<Action> = Vec::new();
        match command {
            Command::NotFound(name) => {
                actions.push(self.display_error(followed(name.clone(), ": not found")));
            },
            Command::External { .. } => {
                actions.push(self.display_result(command.to_text()));
            },
            Command::EnviromentalModifier { .. } => {},
            _ => {
                actions.push(self.display_result(followed(command.to_text(), " is a shell builtin")));
            },
        }
        assert(action_models(actions@) =~= self@.report(command@));
        actions
    }

    /// Says which actions `command` calls for, in order, and takes note of
    /// the redirections that it sets.
    pub fn exec_command(&mut self, command: &Command) -> (actions: Vec<Action>)
        ensures
            action_models(actions@) == old(self)@.actions(command@),
            final(self)@ == old(self)@.after(command@),
    {
        let mut actions: Vec<Action> = Vec::new();
        match command {
            Command::Cd(exec_path) => {
                actions.push(Action::ChangeDirectory(exec_path.clone()));
            },
            Command::Echo(msg) => {
                actions.push(self.display_result(msg.clone()));
            },
            Command::External { exec_path, args } => {
                actions.push(
                    Action::Run {
                        program: file_name(exec_path.as_str()),
                        args: copy_all(args),
                        stdout_redirect: copy_redirect(&self.stdout_redirect),
                        stderr_redirect: copy_redirect(&self.stderr_redirect),
                    },
                );
            },
            Command::Type(inner_commands) => {
                let mut i: usize = 0;
                proof {
                    lemma_models_index(inner_commands@);
                    assert(models(inner_commands@).take(0) =~= Seq::<CommandModel>::empty());
                }
                while i < inner_commands.len()
                    invariant
                        i <= inner_commands.len(),
                        self@ == old(self)@,
                        models(inner_commands@).len() == inner_commands.len(),
                        forall|k: int|
                            0 <= k < inner_commands.len() ==> (#[trigger] models(
                                inner_commands@,
                            )[k]) == inner_commands@[k]@,
                        action_models(actions@) == self@.reports(
                            models(inner_commands@).take(i as int),
                        ),
                    decreases inner_commands.len() - i,
                {
                    let ghost before = action_models(actions@);
                    let mut said = self.report(&inner_commands[i]);
                    let ghost added = action_models(said@);
                    actions.append(&mut said);
                    proof {
                        let upto = models(inner_commands@).take(i + 1);
                        assert(upto.drop_last() =~= models(inner_commands@).take(i as int));
                        assert(upto.last() == inner_commands@[i as int]@);
                        assert(action_models(actions@) =~= before + added);
                    }
                    i = i + 1;
                }
                assert(models(inner_commands@).take(inner_commands.len() as int) =~= models(
                    inner_commands@,
                ));
            },
            Command::Pwd => {
                actions.push(self.display_result(self.working_dir.clone()));
            },
            Command::Exit => {
                actions.push(Action::Exit);
            },
            Command::NotFound(cmd_name) => {
                actions.push(self.display_error(followed(cmd_name.clone(), ": command not found")));
            },
            Command::EnviromentalModifier { stdout_redirect, stderr_redirect } => {
                self.stdout_redirect = copy_redirect(stdout_redirect);
                self.stderr_redirect = copy_redirect(stderr_redirect);
                match copy_redirect(stdout_redirect) {
                    Some(redirect) => {
                        actions.push(Action::Open(redirect));
                    },
                    None => {},
                }
                match copy_redirect(stderr_redirect) {
                    Some(redirect) => {
                        actions.push(Action::Open(redirect));
                    },
                    None => {},
                }
            },
        }
        assert(action_models(actions@) =~= old(self)@.actions(command@));
        actions
    }
}

} // verus!
