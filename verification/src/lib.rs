//! Lexical and syntactic front end of a small interpreted language.
//!
//! [`tokenizer`] turns source text into a sequence of classified tokens;
//! [`parser`] turns such a sequence into a tree of statements.

pub mod parser;
pub mod tokenizer;
