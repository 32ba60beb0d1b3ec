//! An Earley parser: grammars, the chart of a sequence of lexemes, and
//! the derivations that a chart shows.

pub mod grammar;
pub mod lexer;
pub mod parser;
pub mod tree1;
pub mod trees;
pub mod types;
