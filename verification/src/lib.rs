//! A lexical scanner for a small scripting language.
//!
//! The scanner turns a source text into a flat sequence of classified
//! tokens, terminated by an end-of-input token. Its behaviour is stated
//! against a mathematical model of the scan (`lexing::model`) and the
//! general laws of that model are proved in `lexing::props`.

pub mod lexing;
pub mod token;
