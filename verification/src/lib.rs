//! Front end for a small expression language: a tokenizer that turns source
//! text into spanned tokens, and a recursive-descent parser that turns the
//! token stream into a spanned abstract syntax tree.

pub mod error;
pub mod lexer;
pub mod location;
pub mod parser;
pub mod token;
pub mod tree;
