//! What the front end reads from outside: named variables, the home
//! directory and the programs found on the search path, all held as plain
//! text so that a fixed environment can be injected.

use vstd::prelude::*;

verus! {

/// Why an expansion could not produce its text.
#[derive(Debug, Clone, PartialEq, Eq)]
pub enum ExpansionError {
    /// No variable of this name is defined.
    UndefinedVariable(String),
    /// The home directory is not known.
    NoHomeDirectory,
}

/// Mathematical value of an [`ExpansionError`].
pub enum Fault {
    UndefinedVariable(Seq<char>),
    NoHomeDirectory,
}

impl View for ExpansionError {
    type V = Fault;

    open spec fn view(&self) -> Fault {
        match self {
            ExpansionError::UndefinedVariable(name) => Fault::UndefinedVariable(name@),
            ExpansionError::NoHomeDirectory => Fault::NoHomeDirectory,
        }
    }
}

/// Mathematical value of an [`Environment`]: the variables and the programs
/// as maps from names to text, and an optional home directory.
#[verifier::ext_equal]
pub struct Env {
    pub vars: Map<Seq<char>, Seq<char>>,
    pub home: Option<Seq<char>>,
    pub programs: Map<Seq<char>, Seq<char>>,
}

impl Env {
    /// The environment that defines nothing.
    pub open spec fn empty() -> Env {
        Env { vars: Map::empty(), home: None, programs: Map::empty() }
    }

    /// Text that `$name` stands for: the value of `name`, or nothing when the
    /// name is not defined.
    pub open spec fn value_of(self, name: Seq<char>) -> Seq<char> {
        if self.vars.contains_key(name) {
            self.vars[name]
        } else {
            Seq::empty()
        }
    }
}

/// The latest binding of `name` among `entries`, later entries shadowing earlier ones.
pub open spec fn latest_binding(entries: Seq<(String, String)>, name: Seq<char>) -> Option<
    Seq<char>,
>
    decreases entries.len(),
{
    if entries.len() == 0 {
        None
    } else if entries.last().0@ == name {
        Some(entries.last().1@)
    } else {
        latest_binding(entries.drop_last(), name)
    }
}

/// The map that a list of bindings stands for.
pub open spec fn bindings(entries: Seq<(String, String)>) -> Map<Seq<char>, Seq<char>> {
    Map::new(
        |name: Seq<char>| latest_binding(entries, name) is Some,
        |name: Seq<char>| latest_binding(entries, name)->0,
    )
}

/// Adds the binding of `name` to `value` at the end of `entries`.
fn bind(entries: &mut Vec<(String, String)>, name: &str, value: &str)
    ensures
        bindings(final(entries)@) == bindings(old(entries)@).insert(name@, value@),
{
    let ghost before = entries@;
    entries.push((name.to_owned(), value.to_owned()));
    proof {
        let after = entries@;
        assert(after.drop_last() =~= before);
        assert forall|n: Seq<char>| #[trigger] latest_binding(after, n) == (if n == name@ {
            Some(value@)
        } else {
            latest_binding(before, n)
        }) by {}
        assert(bindings(after) =~= bindings(before).insert(name@, value@));
    }
}

/// The text bound to `name` in `entries`, if any.
fn bound(entries: &Vec<(String, String)>, name: &str) -> (r: Option<String>)
    ensures
        match r {
            Some(value) => bindings(entries@).contains_key(name@) && value@ == bindings(
                entries@,
            )[name@],
            None => !bindings(entries@).contains_key(name@),
        },
{
    let key = name.to_owned();
    let mut i: usize = entries.len();
    assert(entries@.take(i as int) =~= entries@);
    while i > 0
        invariant
            i <= entries.len(),
            key@ == name@,
            latest_binding(entries@, name@) == latest_binding(entries@.take(i as int), name@),
        decreases i,
    {
        i = i - 1;
        proof {
            let upto = entries@.take(i + 1);
            assert(upto.drop_last() =~= entries@.take(i as int));
            assert(upto.last() == entries@[i as int]);
        }
        if entries[i].0 == key {
            return Some(entries[i].1.clone());
        }
    }
    None
}

/// A fixed environment: named variables, an optional home directory and the
/// programs that the search path offers, each under its name.
#[derive(Debug)]
pub struct Environment {
    vars: Vec<(String, String)>,
    home: Option<String>,
    programs: Vec<(String, String)>,
}

impl View for Environment {
    type V = Env;

    closed spec fn view(&self) -> Env {
        Env {
            vars: bindings(self.vars@),
            home: match self.home {
                Some(h) => Some(h@),
                None => None,
            },
            programs: bindings(self.programs@),
        }
    }
}

impl Environment {
    /// An environment with no variables, no home directory and no programs.
    pub fn new() -> (env: Environment)
        ensures
            env@ == Env::empty(),
    {
        let env = Environment { vars: Vec::new(), home: None, programs: Vec::new() };
        assert(env@.vars =~= Map::empty());
        assert(env@.programs =~= Map::empty());
        env
    }

    /// Defines the variable `name` as `value`, replacing an earlier definition.
    pub fn set(&mut self, name: &str, value: &str)
        ensures
            final(self)@ == (Env {
                vars: old(self)@.vars.insert(name@, value@),
                ..old(self)@
            }),
    {
        bind(&mut self.vars, name, value);
    }

    /// Sets or clears the home directory.
    pub fn set_home(&mut self, home: Option<String>)
        ensures
            final(self)@ == (Env {
                home: match home {
                    Some(h) => Some(h@),
                    None => None,
                },
                ..old(self)@
            }),
    {
        self.home = home;
    }

    /// Records that the program `name` is found at `path`, replacing an
    /// earlier record of the same name.
    pub fn add_program(&mut self, name: &str, path: &str)
        ensures
            final(self)@ == (Env {
                programs: old(self)@.programs.insert(name@, path@),
                ..old(self)@
            }),
    {
        bind(&mut self.programs, name, path);
    }

    /// Looks `name` up among the variables.
    ///
    /// Returns the value when the name is defined, and
    /// `ExpansionError::UndefinedVariable(name)` when it is not.
    pub fn var(&self, name: &str) -> (r: Result<String, ExpansionError>)
        ensures
            match r {
                Ok(value) => self@.vars.contains_key(name@) && value@ == self@.vars[name@],
                Err(e) => !self@.vars.contains_key(name@) && e@ == Fault::UndefinedVariable(name@),
            },
    {
        match bound(&self.vars, name) {
            Some(value) => Ok(value),
            None => Err(ExpansionError::UndefinedVariable(name.to_owned())),
        }
    }

    /// The home directory, or `ExpansionError::NoHomeDirectory` when none is known.
    pub fn home_dir(&self) -> (r: Result<String, ExpansionError>)
        ensures
            match r {
                Ok(dir) => self@.home == Some(dir@),
                Err(e) => self@.home is None && e@ == Fault::NoHomeDirectory,
            },
    {
        match &self.home {
            Some(h) => Ok(h.clone()),
            None => Err(ExpansionError::NoHomeDirectory),
        }
    }

    /// The path of the program `name`, if the search path offers one.
    pub fn program(&self, name: &str) -> (r: Option<String>)
        ensures
            match r {
                Some(path) => self@.programs.contains_key(name@) && path@
                    == self@.programs[name@],
                None => !self@.programs.contains_key(name@),
            },
    {
        bound(&self.programs, name)
    }
}

} // verus!
