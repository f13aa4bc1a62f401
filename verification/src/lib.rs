//! Front end of a small expression language: a scanner over bytes and a
//! recursive-descent parser with precedence climbing, both verified against
//! a mathematical description of the grammar.

pub mod util;
pub mod operator;
pub mod token;
pub mod ast;
pub mod error;
pub mod lexer;
pub mod grammar;
pub mod parser;
