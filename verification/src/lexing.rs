//! Lexical analysis: the executable scanner, its specification model,
//! and the proved laws of the token stream.

pub mod lexer;
pub mod model;
pub mod props;
