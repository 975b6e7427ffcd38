use glint::lexing::lexer::Lexer;
use glint::token::Token;
use glint::token::TokenType;
use glint::token::TokenType::{
    And, At, Bang, BangEqual, Char, Colon, Comma, Continue, Dot, DoubleDot, Else, Equal,
    EqualEqual, Error, False, FatArrow, Fn, For, Greater, GreaterEqual, Identifier, If, LeftBrace,
    LeftParen, Less, LessEqual, Let, Match, Minus, Number, Or, Plus, PlusEqual, Print, Return,
    RightBrace, RightParen, Semicolon, Slash, Star, True, While, EOF,
};

fn scan(program: &str) -> Vec<Token<'_>> {
    let mut lexer = Lexer::new(program);
    lexer.scan()
}

#[test]
fn test_empty_scan_yields_single_eof_on_line_one() {
    let tokens = scan("");
    assert_eq!(tokens.len(), 1);
    assert_eq!(tokens[0].token_type, EOF);
    assert_eq!(tokens[0].string, "");
    assert_eq!(tokens[0].line, 1);
}

#[test]
fn test_newline_only_eof_is_on_line_two() {
    let tokens = scan("\n");
    assert_eq!(tokens.len(), 1);
    assert_eq!(tokens[0].token_type, EOF);
    assert_eq!(tokens[0].line, 2);
}

#[test]
fn test_operator_sequence_in_order() {
    let tokens = scan("(){}&;:,-+/*. .. ! != = == => += < <= > >=");
    let expected = [
        LeftParen, RightParen, LeftBrace, RightBrace, At, Semicolon, Colon, Comma, Minus, Plus,
        Slash, Star, Dot, DoubleDot, Bang, BangEqual, Equal, EqualEqual, FatArrow, PlusEqual, Less,
        LessEqual, Greater, GreaterEqual, EOF,
    ];
    assert_eq!(tokens.len(), expected.len());
    for (token, kind) in tokens.iter().zip(expected.iter()) {
        assert_eq!(token.token_type, *kind);
    }
}

#[test]
fn test_every_keyword_classifies() {
    let tokens = scan("and continue else false for fn if let match or print return true while");
    let expected = [
        And, Continue, Else, False, For, Fn, If, Let, Match, Or, Print, Return, True, While, EOF,
    ];
    assert_eq!(tokens.len(), expected.len());
    for (token, kind) in tokens.iter().zip(expected.iter()) {
        assert_eq!(token.token_type, *kind);
    }
}

#[test]
fn test_keyword_case_preserved_in_text() {
    let tokens = scan("AnD");
    assert_eq!(tokens[0].token_type, And);
    assert_eq!(tokens[0].string, "AnD");
}

#[test]
fn test_number_token_spans_whole_literal() {
    let tokens = scan("2934882.50349");
    assert_eq!(tokens.len(), 2);
    assert_eq!(tokens[0].token_type, Number);
    assert_eq!(tokens[0].string, "2934882.50349");
    assert_eq!(tokens[0].line, 1);
}

#[test]
fn test_number_with_trailing_dot_is_accepted() {
    let tokens = scan("5.");
    assert_eq!(tokens.len(), 2);
    assert_eq!(tokens[0].token_type, Number);
    assert_eq!(tokens[0].string, "5.");
}

#[test]
fn test_string_token_keeps_delimiters() {
    let tokens = scan("\"hello\"");
    assert_eq!(tokens.len(), 2);
    assert_eq!(tokens[0].token_type, TokenType::String);
    assert_eq!(tokens[0].string, "\"hello\"");
}

#[test]
fn test_multiline_string_counts_lines() {
    let tokens = scan("\"a\nb\"");
    assert_eq!(tokens.len(), 2);
    assert_eq!(tokens[0].token_type, TokenType::String);
    assert_eq!(tokens[0].string, "\"a\nb\"");
    assert_eq!(tokens[0].line, 1);
    assert_eq!(tokens[1].line, 2);
}

#[test]
fn test_unterminated_string_message_and_recovery() {
    let tokens = scan("\"hi");
    assert_eq!(tokens.len(), 2);
    assert_eq!(tokens[0].token_type, Error);
    assert_eq!(tokens[0].string, "Unterminated string.");
    assert_eq!(tokens[1].token_type, EOF);
}

#[test]
fn test_unterminated_character_message() {
    let tokens = scan("'ab");
    assert_eq!(tokens.len(), 2);
    assert_eq!(tokens[0].token_type, Error);
    assert_eq!(tokens[0].string, "Unterminated character.");
}

#[test]
fn test_lone_quote_at_end_is_an_error() {
    let tokens = scan("'");
    assert_eq!(tokens.len(), 2);
    assert_eq!(tokens[0].token_type, Error);
    assert_eq!(tokens[0].string, "Unterminated character.");
    assert_eq!(tokens[1].token_type, EOF);
}

#[test]
fn test_unexpected_character_message_and_line_skip() {
    let tokens = scan("?abc\nx");
    assert_eq!(tokens.len(), 3);
    assert_eq!(tokens[0].token_type, Error);
    assert_eq!(tokens[0].string, "Unexpected character.");
    assert_eq!(tokens[0].line, 1);
    assert_eq!(tokens[1].token_type, Identifier);
    assert_eq!(tokens[1].string, "x");
    assert_eq!(tokens[1].line, 2);
    assert_eq!(tokens[2].token_type, EOF);
}

#[test]
fn test_error_recovery_skips_rest_of_line_after_bad_literal() {
    let tokens = scan("'hi' junk\nok");
    assert_eq!(tokens.len(), 3);
    assert_eq!(tokens[0].token_type, Error);
    assert_eq!(tokens[1].token_type, Identifier);
    assert_eq!(tokens[1].string, "ok");
    assert_eq!(tokens[1].line, 2);
    assert_eq!(tokens[2].token_type, EOF);
}

#[test]
fn test_line_comment_skipped_to_end_of_line() {
    let tokens = scan("a // comment with / and tokens ()\nb");
    assert_eq!(tokens.len(), 3);
    assert_eq!(tokens[0].token_type, Identifier);
    assert_eq!(tokens[0].string, "a");
    assert_eq!(tokens[0].line, 1);
    assert_eq!(tokens[1].token_type, Identifier);
    assert_eq!(tokens[1].string, "b");
    assert_eq!(tokens[1].line, 2);
}

#[test]
fn test_single_slash_is_a_token_not_a_comment() {
    let tokens = scan("a / b");
    assert_eq!(tokens.len(), 4);
    assert_eq!(tokens[1].token_type, Slash);
    assert_eq!(tokens[1].string, "/");
}

#[test]
fn test_carriage_return_and_tab_do_not_advance_lines() {
    let tokens = scan("a\r\t b\nc");
    assert_eq!(tokens.len(), 4);
    assert_eq!(tokens[0].line, 1);
    assert_eq!(tokens[1].line, 1);
    assert_eq!(tokens[2].line, 2);
    assert_eq!(tokens[3].line, 2);
}

#[test]
fn test_eof_line_is_newline_count_plus_one() {
    let tokens = scan("a\nb\nc\n");
    assert_eq!(tokens.last().unwrap().token_type, EOF);
    assert_eq!(tokens.last().unwrap().line, 4);
}

#[test]
fn test_lines_never_decrease() {
    let tokens = scan("a\nb // c\n\"d\ne\"\nf?g\nh");
    let mut last_line: usize = 0;
    for token in &tokens {
        assert!(token.line >= last_line);
        last_line = token.line;
    }
}

#[test]
fn test_rescanning_token_text_reproduces_kind() {
    let program = "let _x1 = 12.5 .. \"s\" 'c' (){} and OR >= =>";
    let tokens = scan(program);
    for token in &tokens {
        if token.token_type != Error {
            let again = scan(token.string);
            assert!(!again.is_empty());
            assert_eq!(again[0].token_type, token.token_type);
        }
    }
}

#[test]
fn test_identifier_with_digits_and_underscores() {
    let tokens = scan("abc_123 _9");
    assert_eq!(tokens.len(), 3);
    assert_eq!(tokens[0].token_type, Identifier);
    assert_eq!(tokens[0].string, "abc_123");
    assert_eq!(tokens[1].token_type, Identifier);
    assert_eq!(tokens[1].string, "_9");
}

#[test]
fn test_ampersand_maps_to_at_kind() {
    let tokens = scan("&");
    assert_eq!(tokens.len(), 2);
    assert_eq!(tokens[0].token_type, At);
    assert_eq!(tokens[0].string, "&");
}

#[test]
fn test_char_literal_with_newline_counts_the_line() {
    let tokens = scan("'\n'");
    assert_eq!(tokens.len(), 2);
    assert_eq!(tokens[0].token_type, Char);
    assert_eq!(tokens[0].string, "'\n'");
    assert_eq!(tokens[0].line, 1);
    assert_eq!(tokens[1].token_type, EOF);
    assert_eq!(tokens[1].line, 2);
}

#[test]
fn test_bad_char_literal_with_newline_counts_the_line() {
    let tokens = scan("'\nx y");
    assert_eq!(tokens.len(), 2);
    assert_eq!(tokens[0].token_type, Error);
    assert_eq!(tokens[0].string, "Unterminated character.");
    assert_eq!(tokens[0].line, 2);
    assert_eq!(tokens[1].token_type, EOF);
    assert_eq!(tokens[1].line, 2);
}

#[test]
fn test_char_token_with_quote_content() {
    let tokens = scan("'''");
    assert_eq!(tokens.len(), 2);
    assert_eq!(tokens[0].token_type, Char);
    assert_eq!(tokens[0].string, "'''");
}
