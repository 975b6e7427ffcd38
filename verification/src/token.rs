//! Tokens: the classified, positioned spans of source text that the
//! scanner emits, together with their mathematical image `SpecToken`.

use vstd::prelude::*;

verus! {

/// The classification of a token. `At` is the kind emitted for the `&`
/// character; the name is kept as the scanner's consumers know it.
#[derive(Clone, Copy, Debug, PartialEq, Eq)]
pub enum TokenType {
    LeftParen,
    RightParen,
    LeftBrace,
    RightBrace,
    At,
    Comma,
    Dot,
    DoubleDot,
    Minus,
    Plus,
    Colon,
    Semicolon,
    Slash,
    Star,
    Bang,
    BangEqual,
    Equal,
    EqualEqual,
    FatArrow,
    PlusEqual,
    Greater,
    GreaterEqual,
    Less,
    LessEqual,
    Identifier,
    Char,
    String,
    Number,
    And,
    Continue,
    Else,
    False,
    Fn,
    For,
    If,
    Let,
    Match,
    Or,
    Print,
    Return,
    True,
    While,
    Error,
    EOF,
}

/// The mathematical image of a token: its kind, the characters of its
/// lexeme, and the 1-based line number it carries.
pub struct SpecToken {
    pub kind: TokenType,
    pub text: Seq<char>,
    pub line: nat,
}

/// A token: a kind, the exact substring of the source text it was
/// scanned from (an error token carries its message instead), and the
/// 1-based line number on which it was emitted.
pub struct Token<'a> {
    pub token_type: TokenType,
    pub string: &'a str,
    pub line: usize,
}

impl<'a> View for Token<'a> {
    type V = SpecToken;

    open spec fn view(&self) -> SpecToken {
        SpecToken { kind: self.token_type, text: self.string@, line: self.line as nat }
    }
}

impl<'a> Token<'a> {
    pub fn new(token_type: TokenType, string: &'a str, line: usize) -> (t: Token<'a>)
        ensures
            t.token_type == token_type,
            t.string == string,
            t.line == line,
    {
        Token { token_type, string, line }
    }
}

} // verus!
