//! A small parser for a JSON-like document format: a tokenizer from characters
//! to spanned tokens and a recursive-descent tree builder from tokens to values.
pub mod ast;
pub mod errors;
pub mod grammar;
pub mod lexer;
pub mod parser;
pub mod text;
pub mod tokens;
