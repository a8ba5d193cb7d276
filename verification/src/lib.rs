//! A small expression interpreter: a lexer, dynamically typed values, a
//! variable environment, and the evaluation of one-line expressions.
pub mod text;
pub mod number;
pub mod token;
pub mod object;
pub mod environment;
pub mod eval;
pub mod session;
pub mod laws;
