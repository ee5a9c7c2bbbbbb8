//! Lexical and syntactic front end for an interactive shell.
//!
//! One line of raw input text is turned into a structured command: a leading
//! run of `KEY=VALUE` assignments, followed by either a recognized builtin or
//! an external invocation. The token producers in [`token`] recognize one
//! lexical form each; [`env`] scans the assignment prefix; [`ast`] assembles
//! the typed command; [`parse`] holds the shared error vocabulary. The
//! prefix-trie containers in [`trie`] back autocompletion and are independent
//! of the grammar engine.

pub mod ast;
pub mod trie;
pub mod env;
pub mod parse;
pub mod st;
pub mod token;
