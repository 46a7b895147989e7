//! A command-parsing library for slash-style chat commands.
//!
//! A host application composes a typed grammar out of literals, whitespace
//! and typed arguments, attaches a handler, and dispatches raw input strings
//! through it.  Every grammar also yields a regular expression, and the
//! `regex` module compiles such expressions through an NFA into a compact
//! DFA with byte-class compression, used to police trailing input and to
//! pre-filter dispatch across many commands.

pub mod argument;
pub mod command;
pub mod error;
pub mod generic;
pub mod parser;
pub mod regex;

mod scan;
