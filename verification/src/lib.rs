//! An interpreter core for a terse, line-oriented array-expression language:
//! nested arrays of arbitrary-precision integers, broadcasting binary and
//! unary operators with modifiers, lambdas with positional arguments, and a
//! small built-in function library.
pub mod errors;
pub mod lexer;
pub mod library;
pub mod number;
pub mod operation;
pub mod parser;
pub mod runtime;
pub mod text;
pub mod tokenstream;
pub mod value;
