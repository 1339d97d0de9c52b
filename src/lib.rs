//! An interpreter core for a small concatenative language of the Joy family: a parser from
//! text to program trees and a stack-machine evaluator, both proved against a mathematical
//! semantics.
//!
//! - `value`: runtime values and their mathematical model.
//! - `builtin`: the built-in words and their names.
//! - `env`: the user-defined words.
//! - `semantics`: what evaluating a program means, as spec functions.
//! - `eval`: the evaluator, proved to follow `semantics`.
//! - `parse`: the grammar as spec functions, and the parser that follows it.
//! - `session`: one line of input at a time, against a persistent stack and environment.
//! - `laws`: properties of the language, proved of `semantics` and the grammar.
//!
//! Binary32 arithmetic and the reading of decimal literals are floating point, which is not
//! verified here: the caller supplies both as functions on bit patterns and characters.
pub mod value;
pub mod builtin;
pub mod env;
pub mod semantics;
pub mod eval;
pub mod parse;
pub mod session;
pub mod laws;
