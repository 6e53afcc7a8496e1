//! Context-free grammars and a parser that finds every syntax tree of a word.
pub mod grammar;
pub mod parser;
pub mod order;
