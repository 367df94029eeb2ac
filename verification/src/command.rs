//! Word tokens and what consumes them: a line is trimmed, split into tokens
//! and grouped into commands and redirections.

pub mod completer;
pub mod environment;
pub mod meta;
pub mod quoting;

use crate::command::environment::{Env, Environment, ExpansionError, Fault};
use crate::command::meta::{
    characters, is_white_space, is_whitespace, tokens_of, MetaSymbolExpander, Token,
};
use vstd::prelude::*;
use vstd::string::*;

verus! {

/// The names of the commands that the shell carries out itself.
pub const BUILTIN_COMMAND_NAMES: [&'static str; 5] = ["exit", "echo", "type", "pwd", "cd"];

/// `text` without the whitespace at its start.
pub open spec fn trim_start(text: Seq<char>) -> Seq<char>
    decreases text.len(),
{
    if text.len() > 0 && is_white_space(text[0]) {
        trim_start(text.drop_first())
    } else {
        text
    }
}

/// `text` without the whitespace at its end.
pub open spec fn trim_end(text: Seq<char>) -> Seq<char>
    decreases text.len(),
{
    if text.len() > 0 && is_white_space(text.last()) {
        trim_end(text.drop_last())
    } else {
        text
    }
}

/// `text` without the whitespace at its start and at its end.
pub open spec fn trimmed(text: Seq<char>) -> Seq<char> {
    trim_end(trim_start(text))
}

/// Where the whitespace at the start of a text ends, the rest is what
/// [`trim_start`] leaves.
proof fn lemma_trim_start(text: Seq<char>, start: int)
    requires
        0 <= start <= text.len(),
        forall|i: int| 0 <= i < start ==> is_white_space(text[i]),
        start < text.len() ==> !is_white_space(text[start]),
    ensures
        trim_start(text) == text.skip(start),
    decreases start,
{
    if start == 0 {
        assert(text.skip(0) =~= text);
    } else {
        let tail = text.drop_first();
        assert forall|i: int| 0 <= i < start - 1 implies is_white_space(tail[i]) by {
            assert(tail[i] == text[i + 1]);
        }
        if start - 1 < tail.len() {
            assert(tail[start - 1] == text[start]);
        }
        lemma_trim_start(tail, start - 1);
        assert(tail.skip(start - 1) =~= text.skip(start));
    }
}

/// Where the whitespace at the end of a text starts, what stands before
/// is what [`trim_end`] leaves.
proof fn lemma_trim_end(text: Seq<char>, end: int)
    requires
        0 <= end <= text.len(),
        forall|i: int| end <= i < text.len() ==> is_white_space(text[i]),
        end > 0 ==> !is_white_space(text[end - 1]),
    ensures
        trim_end(text) == text.take(end),
    decreases text.len() - end,
{
    if end == text.len() {
        assert(text.take(end) =~= text);
    } else {
        let init = text.drop_last();
        assert forall|i: int| end <= i < init.len() implies is_white_space(init[i]) by {
            assert(init[i] == text[i]);
        }
        if end > 0 {
            assert(init[end - 1] == text[end - 1]);
        }
        lemma_trim_end(init, end);
        assert(init.take(end) =~= text.take(end));
    }
}

/// The part of `line` between the whitespace at its start and the
/// whitespace at its end.
pub fn trim<'a>(line: &'a str) -> (inner: &'a str)
    ensures
        inner@ == trimmed(line@),
{
    let chars = characters(line);
    let mut start: usize = 0;
    while start < chars.len() && is_whitespace(chars[start])
        invariant
            start <= chars.len(),
            forall|i: int| 0 <= i < start ==> is_white_space(chars@[i]),
        decreases chars.len() - start,
    {
        start = start + 1;
    }
    let mut end: usize = chars.len();
    while end > start && is_whitespace(chars[end - 1])
        invariant
            start <= end <= chars.len(),
            forall|i: int| end <= i < chars.len() ==> is_white_space(chars@[i]),
        decreases end,
    {
        end = end - 1;
    }
    proof {
        lemma_trim_start(line@, start as int);
        let rest = line@.skip(start as int);
        assert forall|i: int| end - start <= i < rest.len() implies is_white_space(rest[i]) by {
            assert(rest[i] == line@[i + start]);
        }
        if end > start {
            assert(rest[end - start - 1] == line@[end - 1]);
        }
        lemma_trim_end(rest, end - start);
        assert(rest.take(end - start) =~= line@.subrange(start as int, end as int));
    }
    line.substring_char(start, end)
}

/// The words joined into one text, `separator` standing between neighbours.
pub open spec fn joined(words: Seq<Seq<char>>, separator: Seq<char>) -> Seq<char>
    decreases words.len(),
{
    if words.len() == 0 {
        Seq::empty()
    } else if words.len() == 1 {
        words[0]
    } else {
        joined(words.drop_last(), separator) + separator + words.last()
    }
}

/// The text of each string.
pub open spec fn texts(strings: Seq<String>) -> Seq<Seq<char>> {
    Seq::new(strings.len(), |i: int| strings[i]@)
}

/// Joins `words` with `separator` between neighbours.
pub fn join(words: &Vec<String>, separator: &str) -> (text: String)
    ensures
        text@ == joined(texts(words@), separator@),
{
    let mut text = String::new();
    let mut i: usize = 0;
    assert(texts(words@).take(0) =~= Seq::<Seq<char>>::empty());
    while i < words.len()
        invariant
            i <= words.len(),
            text@ == joined(texts(words@).take(i as int), separator@),
        decreases words.len() - i,
    {
        proof {
            let upto = texts(words@).take(i + 1);
            assert(upto.drop_last() =~= texts(words@).take(i as int));
            assert(upto.last() == words@[i as int]@);
            if i == 0 {
                assert(upto[0] == words@[0]@);
                assert(Seq::<char>::empty() + words@[0]@ =~= words@[0]@);
            }
        }
        if i > 0 {
            text.append(separator);
        }
        text.append(words[i].as_str());
        i = i + 1;
    }
    assert(texts(words@).take(words.len() as int) =~= texts(words@));
    text
}

/// How a redirection opens its file.
#[derive(PartialEq, Eq, Structural, Debug, Clone, Copy)]
pub enum RedirectMode {
    /// The file is created if need be and emptied.
    Truncate,
    /// The file is created if need be and written at its end.
    Append,
}

/// Where one output stream goes.
#[derive(Debug, Clone, PartialEq, Eq)]
pub struct RedirectInfo {
    pub file_path: String,
    pub mode: RedirectMode,
}

/// Mathematical value of a [`RedirectInfo`].
pub struct Redirect {
    pub file_path: Seq<char>,
    pub mode: RedirectMode,
}

impl View for RedirectInfo {
    type V = Redirect;

    open spec fn view(&self) -> Redirect {
        Redirect { file_path: self.file_path@, mode: self.mode }
    }
}

/// Mathematical value of an optional redirection.
pub open spec fn redirect_view(redirect: Option<RedirectInfo>) -> Option<Redirect> {
    match redirect {
        Some(info) => Some(info@),
        None => None,
    }
}

/// What the first word of a command, or a redirection operator, stands for.
#[derive(Debug, PartialEq, Eq)]
pub enum CommandPartial {
    Exit,
    Echo,
    Type,
    Pwd,
    Cd,
    StdOutRedirect,
    StdOutRedirectAppend,
    StdErrRedirect,
    StdErrRedirectAppend,
    Unknown(String),
}

/// Mathematical value of a [`CommandPartial`].
pub enum Partial {
    Exit,
    Echo,
    Type,
    Pwd,
    Cd,
    StdOutRedirect,
    StdOutRedirectAppend,
    StdErrRedirect,
    StdErrRedirectAppend,
    Unknown(Seq<char>),
}

impl View for CommandPartial {
    type V = Partial;

    open spec fn view(&self) -> Partial {
        match self {
            CommandPartial::Exit => Partial::Exit,
            CommandPartial::Echo => Partial::Echo,
            CommandPartial::Type => Partial::Type,
            CommandPartial::Pwd => Partial::Pwd,
            CommandPartial::Cd => Partial::Cd,
            CommandPartial::StdOutRedirect => Partial::StdOutRedirect,
            CommandPartial::StdOutRedirectAppend => Partial::StdOutRedirectAppend,
            CommandPartial::StdErrRedirect => Partial::StdErrRedirect,
            CommandPartial::StdErrRedirectAppend => Partial::StdErrRedirectAppend,
            CommandPartial::Unknown(name) => Partial::Unknown(name@),
        }
    }
}

/// What `word` stands for: a redirection operator, a builtin, or another name.
pub open spec fn partial_of(word: Seq<char>) -> Partial {
    if word == ">"@ || word == "1>"@ {
        Partial::StdOutRedirect
    } else if word == ">>"@ || word == "1>>"@ {
        Partial::StdOutRedirectAppend
    } else if word == "2>"@ {
        Partial::StdErrRedirect
    } else if word == "2>>"@ {
        Partial::StdErrRedirectAppend
    } else if word == "exit"@ {
        Partial::Exit
    } else if word == "echo"@ {
        Partial::Echo
    } else if word == "type"@ {
        Partial::Type
    } else if word == "pwd"@ {
        Partial::Pwd
    } else if word == "cd"@ {
        Partial::Cd
    } else {
        Partial::Unknown(word)
    }
}

impl Partial {
    /// Whether this is one of the four redirection operators.
    pub open spec fn is_redirect(self) -> bool {
        self is StdOutRedirect || self is StdOutRedirectAppend || self is StdErrRedirect
            || self is StdErrRedirectAppend
    }
}

/// Whether `a` and `b` hold the same text.
fn same_text(a: &str, b: &str) -> (same: bool)
    ensures
        same == (a@ == b@),
{
    a.to_owned() == b.to_owned()
}

impl CommandPartial {
    /// Reads `input` as a redirection operator, a builtin or another name.
    pub fn parse(input: &str) -> (partial: CommandPartial)
        ensures
            partial@ == partial_of(input@),
    {
        if same_text(input, ">") || same_text(input, "1>") {
            CommandPartial::StdOutRedirect
        } else if same_text(input, ">>") || same_text(input, "1>>") {
            CommandPartial::StdOutRedirectAppend
        } else if same_text(input, "2>") {
            CommandPartial::StdErrRedirect
        } else if same_text(input, "2>>") {
            CommandPartial::StdErrRedirectAppend
        } else if same_text(input, "exit") {
            CommandPartial::Exit
        } else if same_text(input, "echo") {
            CommandPartial::Echo
        } else if same_text(input, "type") {
            CommandPartial::Type
        } else if same_text(input, "pwd") {
            CommandPartial::Pwd
        } else if same_text(input, "cd") {
            CommandPartial::Cd
        } else {
            CommandPartial::Unknown(input.to_owned())
        }
    }

    /// Whether this word ends the command before it: only a redirection
    /// operator does, whatever the command before it is.
    pub fn can_be_chained_after(&self, other: &CommandPartial) -> (chained: bool)
        ensures
            chained == self@.is_redirect(),
    {
        match self {
            CommandPartial::StdErrRedirect
            | CommandPartial::StdOutRedirect
            | CommandPartial::StdOutRedirectAppend
            | CommandPartial::StdErrRedirectAppend => true,
            _ => false,
        }
    }
}

/// One command of a line, ready to be carried out.
#[derive(Debug, PartialEq, Eq)]
pub enum Command {
    Exit,
    Echo(String),
    Type(Vec<Command>),
    Pwd,
    Cd(String),
    EnviromentalModifier { stdout_redirect: Option<RedirectInfo>, stderr_redirect: Option<RedirectInfo> },
    External { exec_path: String, args: Vec<String> },
    /// A name that is no builtin and that the search path does not offer.
    NotFound(String),
}

/// Mathematical value of a [`Command`].
pub enum CommandModel {
    Exit,
    Echo(Seq<char>),
    Type(Seq<CommandModel>),
    Pwd,
    Cd(Seq<char>),
    EnviromentalModifier { stdout_redirect: Option<Redirect>, stderr_redirect: Option<Redirect> },
    External { exec_path: Seq<char>, args: Seq<Seq<char>> },
    NotFound(Seq<char>),
}

impl View for Command {
    type V = CommandModel;

    open spec fn view(&self) -> CommandModel
        decreases self,
    {
        match self {
            Command::Exit => CommandModel::Exit,
            Command::Echo(text) => CommandModel::Echo(text@),
            Command::Type(inner) => CommandModel::Type(models(inner@)),
            Command::Pwd => CommandModel::Pwd,
            Command::Cd(path) => CommandModel::Cd(path@),
            Command::EnviromentalModifier { stdout_redirect, stderr_redirect } => {
                CommandModel::EnviromentalModifier {
                    stdout_redirect: redirect_view(*stdout_redirect),
                    stderr_redirect: redirect_view(*stderr_redirect),
                }
            },
            Command::External { exec_path, args } => CommandModel::External {
                exec_path: exec_path@,
                args: texts(args@),
            },
            Command::NotFound(name) => CommandModel::NotFound(name@),
        }
    }
}

/// Mathematical value of a list of commands.
pub open spec fn models(commands: Seq<Command>) -> Seq<CommandModel>
    decreases commands,
{
    if commands.len() == 0 {
        Seq::empty()
    } else {
        models(commands.drop_last()).push(commands.last()@)
    }
}

/// The part of `path` after its last `/`, and all of it where it holds none.
pub open spec fn last_segment(path: Seq<char>) -> Seq<char>
    decreases path.len(),
{
    if path.len() == 0 || path.last() == '/' {
        Seq::empty()
    } else {
        last_segment(path.drop_last()).push(path.last())
    }
}

/// The part of `path` after its last `/`.
pub(crate) fn file_name(path: &str) -> (name: String)
    ensures
        name@ == last_segment(path@),
{
    let chars = characters(path);
    let mut name = String::new();
    let mut i: usize = 0;
    assert(chars@.take(0) =~= Seq::<char>::empty());
    while i < chars.len()
        invariant
            i <= chars.len(),
            chars@ == path@,
            name@ == last_segment(chars@.take(i as int)),
        decreases chars.len() - i,
    {
        proof {
            let upto = chars@.take(i + 1);
            assert(upto.drop_last() =~= chars@.take(i as int));
            assert(upto.last() == chars@[i as int]);
        }
        if chars[i] == '/' {
            name = String::new();
        } else {
            name.push(chars[i]);
        }
        i = i + 1;
    }
    assert(chars@.take(chars.len() as int) =~= chars@);
    name
}

impl CommandModel {
    /// How a command is called: a builtin by its name, a program as its
    /// file name, ` is ` and its path, a name that was not found by that
    /// name, and a modifier by nothing.
    pub open spec fn text(self) -> Seq<char> {
        match self {
            CommandModel::Exit => "exit"@,
            CommandModel::Pwd => "pwd"@,
            CommandModel::Echo(_) => "echo"@,
            CommandModel::Cd(_) => "cd"@,
            CommandModel::Type(_) => "type"@,
            CommandModel::EnviromentalModifier { .. } => Seq::empty(),
            CommandModel::External { exec_path, .. } => last_segment(exec_path) + " is "@
                + exec_path,
            CommandModel::NotFound(name) => name,
        }
    }
}

impl Command {
    /// How this command is called: see [`CommandModel::text`].
    pub fn to_text(&self) -> (text: String)
        ensures
            text@ == self@.text(),
    {
        match self {
            Command::Exit => "exit".to_owned(),
            Command::Pwd => "pwd".to_owned(),
            Command::Echo(_) => "echo".to_owned(),
            Command::Cd(_) => "cd".to_owned(),
            Command::Type(_) => "type".to_owned(),
            Command::EnviromentalModifier { .. } => String::new(),
            Command::External { exec_path, .. } => {
                let mut text = file_name(exec_path.as_str());
                text.append(" is ");
                text.append(exec_path.as_str());
                text
            },
            Command::NotFound(name) => name.clone(),
        }
    }
}

/// The list of values of two lists of commands, one after the other.
pub proof fn lemma_models_concat(first: Seq<Command>, second: Seq<Command>)
    ensures
        models(first + second) == models(first) + models(second),
    decreases second.len(),
{
    if second.len() == 0 {
        assert(first + second =~= first);
        assert(models(first) + models(second) =~= models(first));
    } else {
        lemma_models_concat(first, second.drop_last());
        assert((first + second).drop_last() =~= first + second.drop_last());
        assert((first + second).last() == second.last());
        assert(models(first + second) == models((first + second).drop_last()).push(
            second.last()@,
        ));
        assert(models(second) == models(second.drop_last()).push(second.last()@));
        assert(models(first + second) =~= models(first) + models(second));
    }
}

/// A redirection of one stream to the file named by `args`, joined without a separator.
pub open spec fn redirection(args: Seq<Seq<char>>, mode: RedirectMode) -> Option<Redirect> {
    Some(Redirect { file_path: joined(args, ""@), mode })
}

/// The command that `partial` makes with `args`, nested commands left out.
///
/// The arguments of `echo` are joined by one space; those of `cd` and of a
/// redirection are joined without a separator; another name is the program
/// that the search path offers for it, if any.
pub open spec fn leaf(partial: Partial, args: Seq<Seq<char>>, env: Env) -> CommandModel {
    match partial {
        Partial::Exit => CommandModel::Exit,
        Partial::Echo => CommandModel::Echo(joined(args, " "@)),
        Partial::Type => CommandModel::Type(Seq::empty()),
        Partial::Pwd => CommandModel::Pwd,
        Partial::Cd => CommandModel::Cd(joined(args, ""@)),
        Partial::StdOutRedirect => CommandModel::EnviromentalModifier {
            stdout_redirect: redirection(args, RedirectMode::Truncate),
            stderr_redirect: None,
        },
        Partial::StdErrRedirect => CommandModel::EnviromentalModifier {
            stdout_redirect: None,
            stderr_redirect: redirection(args, RedirectMode::Truncate),
        },
        Partial::StdOutRedirectAppend => CommandModel::EnviromentalModifier {
            stdout_redirect: redirection(args, RedirectMode::Append),
            stderr_redirect: None,
        },
        Partial::StdErrRedirectAppend => CommandModel::EnviromentalModifier {
            stdout_redirect: None,
            stderr_redirect: redirection(args, RedirectMode::Append),
        },
        Partial::Unknown(name) => if env.programs.contains_key(name) {
            CommandModel::External { exec_path: env.programs[name], args }
        } else {
            CommandModel::NotFound(name)
        },
    }
}

/// What the argument `word` of `type` names: the command that the word
/// makes without arguments.
pub open spec fn named(word: Seq<char>, env: Env) -> CommandModel {
    leaf(partial_of(word), Seq::empty(), env)
}

/// The command that `partial` makes with `args`. `type` holds what each of its
/// arguments names; every other command is its [`leaf`].
pub open spec fn full(partial: Partial, args: Seq<Seq<char>>, env: Env) -> CommandModel {
    if partial is Type {
        CommandModel::Type(Seq::new(args.len(), |i: int| named(args[i], env)))
    } else {
        leaf(partial, args, env)
    }
}

/// A copy of each string.
pub(crate) fn copy_all(strings: &Vec<String>) -> (copies: Vec<String>)
    ensures
        texts(copies@) == texts(strings@),
{
    let mut copies: Vec<String> = Vec::new();
    let mut i: usize = 0;
    while i < strings.len()
        invariant
            i <= strings.len(),
            copies.len() == i,
            forall|j: int| 0 <= j < i ==> copies@[j]@ == strings@[j]@,
        decreases strings.len() - i,
    {
        copies.push(strings[i].clone());
        i = i + 1;
    }
    assert(texts(copies@) =~= texts(strings@));
    copies
}

impl CommandPartial {
    fn into_leaf(&self, args: &Vec<String>, env: &Environment) -> (command: Command)
        ensures
            command@ == leaf(self@, texts(args@), env@),
    {
        match self {
            CommandPartial::Exit => Command::Exit,
            CommandPartial::Echo => Command::Echo(join(args, " ")),
            CommandPartial::Type => {
                let inner: Vec<Command> = Vec::new();
                Command::Type(inner)
            },
            CommandPartial::Pwd => Command::Pwd,
            CommandPartial::Cd => Command::Cd(join(args, "")),
            CommandPartial::StdOutRedirect => Command::EnviromentalModifier {
                stdout_redirect: Some(
                    RedirectInfo { file_path: join(args, ""), mode: RedirectMode::Truncate },
                ),
                stderr_redirect: None,
            },
            CommandPartial::StdErrRedirect => Command::EnviromentalModifier {
                stdout_redirect: None,
                stderr_redirect: Some(
                    RedirectInfo { file_path: join(args, ""), mode: RedirectMode::Truncate },
                ),
            },
            CommandPartial::StdOutRedirectAppend => Command::EnviromentalModifier {
                stdout_redirect: Some(
                    RedirectInfo { file_path: join(args, ""), mode: RedirectMode::Append },
                ),
                stderr_redirect: None,
            },
            CommandPartial::StdErrRedirectAppend => Command::EnviromentalModifier {
                stdout_redirect: None,
                stderr_redirect: Some(
                    RedirectInfo { file_path: join(args, ""), mode: RedirectMode::Append },
                ),
            },
            CommandPartial::Unknown(value) => match env.program(value.as_str()) {
                Some(path) => Command::External { exec_path: path, args: copy_all(args) },
                None => Command::NotFound(value.clone()),
            },
        }
    }

    /// Completes this first word with its arguments into a command.
    pub fn into_full(&self, args: &Vec<String>, env: &Environment) -> (command: Command)
        ensures
            command@ == full(self@, texts(args@), env@),
    {
        match self {
            CommandPartial::Type => {
                let nothing: Vec<String> = Vec::new();
                assert(texts(nothing@) =~= Seq::<Seq<char>>::empty());
                let mut inner_commands: Vec<Command> = Vec::new();
                let mut i: usize = 0;
                while i < args.len()
                    invariant
                        i <= args.len(),
                        texts(nothing@) == Seq::<Seq<char>>::empty(),
                        models(inner_commands@) == Seq::new(
                            i as nat,
                            |j: int| named(texts(args@)[j], env@),
                        ),
                    decreases args.len() - i,
                {
                    let ghost before = inner_commands@;
                    let inner = CommandPartial::parse(args[i].as_str()).into_leaf(&nothing, env);
                    inner_commands.push(inner);
                    assert(inner_commands@.drop_last() =~= before);
                    i = i + 1;
                    assert(models(inner_commands@) =~= Seq::new(
                        i as nat,
                        |j: int| named(texts(args@)[j], env@),
                    ));
                }
                Command::Type(inner_commands)
            },
            _ => self.into_leaf(args, env),
        }
    }
}

/// The text of a token; a token that failed counts as the empty text.
pub open spec fn token_text(token: Token) -> Seq<char> {
    match token {
        Ok(text) => text,
        Err(_) => Seq::empty(),
    }
}

/// The text of each token.
pub open spec fn token_texts(tokens: Seq<Token>) -> Seq<Seq<char>> {
    Seq::new(tokens.len(), |i: int| token_text(tokens[i]))
}

/// The failures among the tokens, in order.
pub open spec fn token_faults(tokens: Seq<Token>) -> Seq<Fault>
    decreases tokens.len(),
{
    if tokens.len() == 0 {
        Seq::empty()
    } else {
        match tokens.last() {
            Ok(_) => token_faults(tokens.drop_last()),
            Err(fault) => token_faults(tokens.drop_last()).push(fault),
        }
    }
}

/// Mathematical value of a list of failures.
pub open spec fn faults(failures: Seq<ExpansionError>) -> Seq<Fault> {
    Seq::new(failures.len(), |i: int| failures[i]@)
}

/// How far the words of a line have been grouped into commands.
///
/// The commands come in three parts: those that are settled, the one
/// modifier that later redirections still change, and the commands that
/// follow that modifier.
#[verifier::ext_equal]
pub struct Grouping {
    pub settled: Seq<CommandModel>,
    pub stdout_redirect: Option<Redirect>,
    pub stderr_redirect: Option<Redirect>,
    pub following: Seq<CommandModel>,
    /// The first word of the command being read, if one was read.
    pub current: Option<Partial>,
    /// The arguments read for it so far.
    pub args: Seq<Seq<char>>,
}

impl Grouping {
    /// Before the first word: one modifier that redirects nothing.
    pub open spec fn start() -> Grouping {
        Grouping {
            settled: Seq::empty(),
            stdout_redirect: None,
            stderr_redirect: None,
            following: Seq::empty(),
            current: None,
            args: Seq::empty(),
        }
    }

    /// The commands in order.
    pub open spec fn commands(self) -> Seq<CommandModel> {
        self.settled + seq![
            CommandModel::EnviromentalModifier {
                stdout_redirect: self.stdout_redirect,
                stderr_redirect: self.stderr_redirect,
            },
        ] + self.following
    }

    /// The command being read is completed. A redirection changes the open
    /// modifier, on the stream that it names; any other command follows it.
    pub open spec fn completed(self, env: Env) -> Grouping {
        match self.current {
            None => self,
            Some(partial) => match full(partial, self.args, env) {
                CommandModel::EnviromentalModifier { stdout_redirect, stderr_redirect } => {
                    Grouping {
                        stdout_redirect: if stdout_redirect is Some {
                            stdout_redirect
                        } else {
                            self.stdout_redirect
                        },
                        stderr_redirect: if stderr_redirect is Some {
                            stderr_redirect
                        } else {
                            self.stderr_redirect
                        },
                        ..self
                    }
                },
                command => Grouping { following: self.following.push(command), ..self },
            },
        }
    }

    /// After a completed redirection a fresh modifier is opened, and what
    /// came before is settled.
    pub open spec fn reopened(self) -> Grouping {
        if self.current is Some && self.current->0.is_redirect() {
            Grouping {
                settled: self.commands(),
                stdout_redirect: None,
                stderr_redirect: None,
                following: Seq::empty(),
                ..self
            }
        } else {
            self
        }
    }

    /// The next word is read: the first word names the command, a
    /// redirection operator ends the command before it and starts a
    /// redirection, and any other word is an argument.
    pub open spec fn feed(self, word: Seq<char>, env: Env) -> Grouping {
        if self.current is None {
            Grouping { current: Some(partial_of(word)), ..self }
        } else if partial_of(word).is_redirect() {
            Grouping {
                current: Some(partial_of(word)),
                args: Seq::empty(),
                ..self.completed(env).reopened()
            }
        } else {
            Grouping { args: self.args.push(word), ..self }
        }
    }

    /// The commands once the last word is read.
    pub open spec fn finish(self, env: Env) -> Seq<CommandModel> {
        self.completed(env).commands()
    }
}

/// The grouping after all of `words`.
pub open spec fn grouping_after(words: Seq<Seq<char>>, env: Env) -> Grouping
    decreases words.len(),
{
    if words.len() == 0 {
        Grouping::start()
    } else {
        grouping_after(words.drop_last(), env).feed(words.last(), env)
    }
}

/// The commands that `words` make.
pub open spec fn grouped(words: Seq<Seq<char>>, env: Env) -> Seq<CommandModel> {
    grouping_after(words, env).finish(env)
}

/// What a line was read as.
#[derive(Debug)]
pub struct CommandResult<'a> {
    /// The line that was read, without the whitespace around it.
    pub input: &'a str,
    /// The commands of the line, each modifier before the commands that it applies to.
    pub commands: Vec<Command>,
    /// The failures of the tokens, in order. A token that failed was read as the empty word.
    pub failures: Vec<ExpansionError>,
}

/// The exec state of the grouping as a mathematical value.
spec fn grouping_of(
    settled: Vec<Command>,
    stdout_redirect: Option<RedirectInfo>,
    stderr_redirect: Option<RedirectInfo>,
    following: Vec<Command>,
    current: Option<CommandPartial>,
    args: Vec<String>,
) -> Grouping {
    Grouping {
        settled: models(settled@),
        stdout_redirect: redirect_view(stdout_redirect),
        stderr_redirect: redirect_view(stderr_redirect),
        following: models(following@),
        current: match current {
            Some(partial) => Some(partial@),
            None => None,
        },
        args: texts(args@),
    }
}

/// Completes the command being read, as [`Grouping::completed`] and
/// [`Grouping::reopened`] say.
fn close_command(
    settled: &mut Vec<Command>,
    stdout_redirect: &mut Option<RedirectInfo>,
    stderr_redirect: &mut Option<RedirectInfo>,
    following: &mut Vec<Command>,
    partial: &CommandPartial,
    args: &Vec<String>,
    reopen: bool,
    env: &Environment,
)
    ensures
        ({
            let before = Grouping {
                settled: models(old(settled)@),
                stdout_redirect: redirect_view(*old(stdout_redirect)),
                stderr_redirect: redirect_view(*old(stderr_redirect)),
                following: models(old(following)@),
                current: Some(partial@),
                args: texts(args@),
            };
            let after = if reopen {
                before.completed(env@).reopened()
            } else {
                before.completed(env@)
            };
            &&& models(final(settled)@) == after.settled
            &&& redirect_view(*final(stdout_redirect)) == after.stdout_redirect
            &&& redirect_view(*final(stderr_redirect)) == after.stderr_redirect
            &&& models(final(following)@) == after.following
        }),
{
    let command = partial.into_full(args, env);
    match command {
        Command::EnviromentalModifier {
            stdout_redirect: new_stdout_redirect,
            stderr_redirect: new_stderr_redirect,
        } => {
            if new_stdout_redirect.is_some() {
                *stdout_redirect = new_stdout_redirect;
            }
            if new_stderr_redirect.is_some() {
                *stderr_redirect = new_stderr_redirect;
            }
            if reopen {
                let mut closed_stdout: Option<RedirectInfo> = None;
                let mut closed_stderr: Option<RedirectInfo> = None;
                core::mem::swap(stdout_redirect, &mut closed_stdout);
                core::mem::swap(stderr_redirect, &mut closed_stderr);
                let ghost first = settled@;
                let ghost last = following@;
                settled.push(
                    Command::EnviromentalModifier {
                        stdout_redirect: closed_stdout,
                        stderr_redirect: closed_stderr,
                    },
                );
                let ghost middle = settled@;
                assert(middle.drop_last() =~= first);
                settled.append(following);
                proof {
                    lemma_models_concat(middle, last);
                    assert(following@ =~= Seq::<Command>::empty());
                    assert(models(middle) == models(first).push(middle.last()@));
                    assert(models(settled@) =~= models(first) + seq![middle.last()@] + models(
                        last,
                    ));
                }
            }
        },
        other => {
            let ghost before = following@;
            following.push(other);
            assert(following@.drop_last() =~= before);
        },
    }
}

impl Command {
    /// Reads a line: the line is trimmed and split into tokens, and the
    /// tokens are grouped into commands and redirections.
    ///
    /// The first word names a command and the words after it are its
    /// arguments, up to a redirection operator (`>`, `1>`, `>>`, `1>>`, `2>`,
    /// `2>>`), whose arguments name the file. The redirections stand in a
    /// modifier before the commands that they apply to.
    pub fn parse<'a>(input: &'a str, env: &Environment) -> (result: CommandResult<'a>)
        ensures
            result.input@ == trimmed(input@),
            models(result.commands@) == grouped(
                token_texts(tokens_of(trimmed(input@), env@)),
                env@,
            ),
            faults(result.failures@) == token_faults(tokens_of(trimmed(input@), env@)),
    {
        let trimmed_input = trim(input);
        let mut expander = MetaSymbolExpander::with_environment(trimmed_input, env);
        let ghost all = expander@.tokens();
        let ghost mut seen: Seq<Token> = Seq::empty();

        let mut settled: Vec<Command> = Vec::new();
        let mut stdout_redirect: Option<RedirectInfo> = None;
        let mut stderr_redirect: Option<RedirectInfo> = None;
        let mut following: Vec<Command> = Vec::new();
        let mut current: Option<CommandPartial> = None;
        let mut args: Vec<String> = Vec::new();
        let mut failures: Vec<ExpansionError> = Vec::new();

        proof {
            assert(seen + expander@.tokens() =~= all);
            assert(token_texts(seen) =~= Seq::<Seq<char>>::empty());
            assert(texts(args@) =~= Seq::<Seq<char>>::empty());
            assert(faults(failures@) =~= Seq::<Fault>::empty());
        }
        loop
            invariant
                seen + expander@.tokens() == all,
                grouping_of(settled, stdout_redirect, stderr_redirect, following, current, args)
                    == grouping_after(token_texts(seen), env@),
                faults(failures@) == token_faults(seen),
            ensures
                seen == all,
            decreases expander@.tokens().len(),
        {
            let ghost coming = expander@.tokens();
            let ghost state = grouping_of(
                settled,
                stdout_redirect,
                stderr_redirect,
                following,
                current,
                args,
            );
            let token = match expander.next() {
                Some(token) => token,
                None => {
                    assert(seen + coming =~= seen);
                    break ;
                },
            };
            let ghost read = seen.push(crate::command::meta::token_view(token));
            proof {
                assert(read + expander@.tokens() =~= seen + coming);
                assert(read.drop_last() =~= seen);
                assert(token_texts(read).drop_last() =~= token_texts(seen));
            }
            let word = match token {
                Ok(word) => word,
                Err(failure) => {
                    failures.push(failure);
                    assert(faults(failures@) =~= token_faults(seen).push(failure@));
                    String::new()
                },
            };
            assert(word@ == token_texts(read).last());
            let word_partial = CommandPartial::parse(word.as_str());
            match current {
                None => {
                    current = Some(word_partial);
                },
                Some(partial) => {
                    if word_partial.can_be_chained_after(&partial) {
                        close_command(
                            &mut settled,
                            &mut stdout_redirect,
                            &mut stderr_redirect,
                            &mut following,
                            &partial,
                            &args,
                            true,
                            env,
                        );
                        current = Some(word_partial);
                        args = Vec::new();
                        assert(texts(args@) =~= Seq::<Seq<char>>::empty());
                    } else {
                        let ghost before = texts(args@);
                        args.push(word);
                        assert(texts(args@) =~= before.push(word@));
                        current = Some(partial);
                    }
                },
            }
            proof {
                seen = read;
                assert(grouping_of(
                    settled,
                    stdout_redirect,
                    stderr_redirect,
                    following,
                    current,
                    args,
                ) =~= state.feed(word@, env@));
            }
        }
        match current {
            Some(partial) => {
                close_command(
                    &mut settled,
                    &mut stdout_redirect,
                    &mut stderr_redirect,
                    &mut following,
                    &partial,
                    &args,
                    false,
                    env,
                );
            },
            None => {},
        }
        let ghost first = settled@;
        let ghost last = following@;
        settled.push(Command::EnviromentalModifier { stdout_redirect, stderr_redirect });
        let ghost middle = settled@;
        assert(middle.drop_last() =~= first);
        settled.append(&mut following);
        proof {
            lemma_models_concat(middle, last);
            assert(models(middle) == models(first).push(middle.last()@));
            assert(models(settled@) =~= models(first) + seq![middle.last()@] + models(last));
        }
        CommandResult { input: trimmed_input, commands: settled, failures }
    }
}

} // verus!
