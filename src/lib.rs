//! A tokenizer and a Pratt parser for a small C-like scripting language.
pub mod ast;
pub mod grammar;
pub mod lexer;
pub mod parser;
pub mod token;
