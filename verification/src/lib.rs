//! Parsing tools: a scanner with backtracking, a tokenizer and a
//! shunting yard for mathematical expressions, an Earley parser for
//! context-free grammars, and arithmetic on calendar dates.

pub mod calendar;
pub mod earley;
pub mod parser;
pub mod scanner;
pub mod text;
pub mod tokenizer;
