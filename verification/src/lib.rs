//! Resolver for short kinship queries written in a fixed ideographic script.
//!
//! A query such as `爸爸的爸爸是什么` ("father's father is what") is tokenized
//! by [`lexer`], parsed by [`parse::Parser`], and resolved against a
//! [`parse::Relation`] store mapping ordered pairs of role names to a result
//! role name.  The store is seeded with built-in entries and can be extended
//! from a small declarative text format read by the [`record`] module.

pub mod lexer;
pub mod parse;
pub mod record;
