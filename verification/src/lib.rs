//! A parser for a small expression language: arithmetic over integer
//! literals and named references, prefix function calls, single-argument
//! lambdas, and `let ... in` binding groups.
//!
//! The grammar is specified by a family of mathematical parsing functions
//! over byte sequences (`grammar`); the executable recursive-descent parser
//! (`parse`) is proved to return exactly what those functions describe, and
//! `laws` states the properties that hold of every parse.

pub mod ast;
pub mod diag;
pub mod grammar;
pub mod laws;
pub mod parse;
