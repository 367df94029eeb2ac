//! Front end of an interactive command shell.
//!
//! The crate turns one raw input line into an ordered sequence of word tokens,
//! applying quoting, escaping and expansion rules in a single left-to-right
//! pass, groups the tokens into commands and redirections, and says what is
//! to be done for each command. It reads nothing from the process: the
//! variables, the home directory and the programs of the search path are
//! handed in as plain values.
//!
//! Every executable item carries a contract over a mathematical model of the
//! data, and the contracts are discharged by the verifier.

pub mod command;
pub mod shell;
