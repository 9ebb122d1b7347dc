//! A parser from regular-expression pattern text to an abstract syntax tree.
pub mod ast;
pub mod canonical;
pub mod message;
pub mod parser;
