//! A small markup templating engine: a lexer and a recursive-descent parser
//! for a strict tag/attribute/text grammar, and an evaluator that resolves
//! `!{path}!` placeholders and expands repetition directives against a
//! JSON-like scope value.
pub mod text;
pub mod lexer;
pub mod tokenizer;
pub mod parser;
pub mod scope;
pub mod evaluator;
pub mod logger;
pub mod utils;
pub mod markup;
pub mod laws;
