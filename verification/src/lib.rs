//! Front end of a small scripting language: a tokenizer, a recursive-descent
//! parser and a lexical-scope resolver, all built around byte-accurate source
//! spans.  Every token and every syntax-tree node carries the exact span of
//! the source text it came from, and the contracts of `lex` and
//! `parse_program` pin the produced tokens, trees and error reports down to a
//! mathematical description of the grammar.

pub mod span;
pub mod token;
pub mod error;
pub mod lexer;
pub mod ast;
pub mod parser;
pub mod resolver;
pub mod command;
pub mod repl;
