//! The declarative relation-definition format: its own tokenizer and parser.
//!
//! A definition file holds statements of the form `Name > Name = Name`, one
//! per line, with `#` line comments and blank lines in between.

pub mod lexer;
pub mod parse;
