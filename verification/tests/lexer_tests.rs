use glint::lexing::lexer::Lexer;
use glint::token::Token;
use glint::token::TokenType;
use glint::token::TokenType::{
    And, At, Bang, BangEqual, Char, Colon, Comma, Continue, Dot, DoubleDot, Else, Equal,
    EqualEqual, Error, False, FatArrow, Fn, For, Greater, GreaterEqual, Identifier, If, LeftBrace,
    LeftParen, Less, LessEqual, Let, Match, Minus, Number, Or, Plus, PlusEqual, Print, Return,
    RightBrace, RightParen, Semicolon, Slash, Star, True, While, EOF,
};

fn test_lexer<'a>(program: &'a str, expected_tokens: &'a [TokenType]) -> Vec<Token<'a>> {
    let mut lexer = Lexer::new(program);
    let tokens = lexer.scan();
    assert_eq!(tokens.len(), expected_tokens.len());
    let mut index: usize = 0;
    for token in &tokens {
        assert_eq!(token.token_type, expected_tokens[index]);
        index += 1;
    }
    tokens
}

#[test]
fn test_lexer_empty() {
    let program = "";
    let expected_tokens = [EOF];
    test_lexer(program, &expected_tokens);
}

#[test]
fn test_lexer_thorough() {
    let program = "(){}&;:,-+/*. .. ! != = == => += < <= > >= \"hello\"             and continue else false for fn if let match or print return true while a b c d efg";
    let expected_tokens = [
        LeftParen, RightParen, LeftBrace, RightBrace, At, Semicolon, Colon, Comma, Minus, Plus,
        Slash, Star, Dot, DoubleDot, Bang, BangEqual, Equal, EqualEqual, FatArrow, PlusEqual, Less,
        LessEqual, Greater, GreaterEqual, TokenType::String, And, Continue, Else, False, For, Fn,
        If, Let, Match, Or, Print, Return, True, While, Identifier, Identifier, Identifier,
        Identifier, Identifier, EOF,
    ];
    test_lexer(program, &expected_tokens);
}

#[test]
fn test_lexer_eof_after_line_break() {
    let program = "\n";
    let expected_tokens = [EOF];
    test_lexer(program, &expected_tokens);
}

#[test]
fn test_lexer_case() {
    let program = "AnD aNd ANd anD";
    let expected_tokens = [And, And, And, And, EOF];
    test_lexer(program, &expected_tokens);
}

#[test]
fn test_lexer_unterminated_string() {
    let program = "\"hi";
    let expected_tokens = [Error, EOF];
    test_lexer(program, &expected_tokens);
}

#[test]
fn test_lexer_number() {
    let program = "2934882.50349";
    let expected_tokens = [Number, EOF];
    test_lexer(program, &expected_tokens);
}

#[test]
fn test_lexer_characters() {
    let program = "\'h\'";
    let expected_tokens = [Char, EOF];
    let tokens = test_lexer(program, &expected_tokens);
    assert_eq!(tokens[0].string, "\'h\'");
}

#[test]
fn test_lexer_characters_multiple_characters() {
    let program = "\'hi\'";
    let expected_tokens = [Error, EOF];
    test_lexer(program, &expected_tokens);
}

#[test]
fn test_lexer_underscore_in_name() {
    let program = "self.make_token";
    let expected_tokens = [Identifier, Dot, Identifier, EOF];
    test_lexer(program, &expected_tokens);
}
