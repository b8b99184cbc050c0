//! Parser for a small brace-delimited template language (`rsx! { ... }`):
//! a two-level lexer, a recursive-descent parser, the syntax tree with its
//! canonical printed form, and a trie-backed directory of element and
//! attribute names.

pub mod ast;
pub mod text;
pub mod values;
pub mod directory;
pub mod lexer;
pub mod parser;
