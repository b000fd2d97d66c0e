//! A small interpreter for a parenthesized expression language.
//!
//! A line of text is split into tokens, the tokens are parsed into a tree of
//! expressions, and the tree is evaluated against an environment that binds
//! operator symbols to builtin operations:
//!
//! - [`tokenizer::tokenize`] splits a line into words and parentheses;
//! - [`parser::parse`] reads the first expression from a slice of tokens;
//! - [`eval::eval`] gives the value of an expression, or the reason why it
//!   has none;
//! - [`eval::parse_and_eval`] does the last two in one call;
//! - [`render::render`] writes a value out.
//!
//! Numbers are double-precision numbers throughout, and the library holds
//! each as its bit pattern, a `u64`. Sums, differences and comparisons are
//! computed on the patterns, in [`binary64`]. Decimal text is not the
//! library's business: the caller says of each word which number it denotes,
//! if any (see [`parser::Token`]), and writes out the numbers of a result
//! (see [`render::Piece`]).
//!
//! Parsing, evaluating, copying and writing out an expression recurse as
//! deep as the expression is nested.

pub mod binary64;
pub mod builtins;
pub mod config;
pub mod env;
pub mod eval;
pub mod parser;
pub mod render;
pub mod tokenizer;
pub mod value;
