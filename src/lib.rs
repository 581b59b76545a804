//! Front end of a small interpreted language: a tokenizer and a precedence-climbing
//! parser that turn source text into a syntax tree and a list of diagnostics.
pub mod ast;
pub mod binding;
pub mod lexer;
pub mod parser;
pub mod roundtrip;
pub mod token;
