//! A minimal command-language runtime: a tokenizer, a parser, an evaluator
//! over a session of variables, aliases and cached executable paths, and the
//! decisions of the process executor and of the line editor.
//!
//! The library reads no file, no environment and no terminal, and starts no
//! process. A line of text goes in; the session changes, and what is to be
//! done outside comes out action by action, each before the statements
//! behind it are evaluated.

pub mod atom;
pub mod input;
pub mod process;
pub mod shell;
pub mod text;
