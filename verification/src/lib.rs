//! An arithmetic expression language: a lexer, an operator-precedence parser
//! and the evaluation order of the resulting tree.
pub mod eval;
pub mod opts;
pub mod parse;
pub mod token;
