//! The mathematical model of the scan: spec functions that say, for a
//! sequence of characters, which tokens the scanner emits, where its
//! cursor moves, and how its line counter grows. The executable scanner
//! in `lexer` is proved to agree with this model, and the laws of the
//! token stream are proved of it in `props`.

use vstd::prelude::*;
use crate::token::{SpecToken, TokenType};

verus! {

/// Whitespace that is skipped without any side effect.
pub open spec fn is_skippable(c: char) -> bool {
    c == ' ' || c == '\r' || c == '\t'
}

/// An ASCII letter or an underscore: the characters that may open an
/// identifier.
pub open spec fn is_alpha_char(c: char) -> bool {
    ('a' as u32 <= c as u32 && c as u32 <= 'z' as u32)
        || ('A' as u32 <= c as u32 && c as u32 <= 'Z' as u32)
        || c == '_'
}

/// An ASCII decimal digit.
pub open spec fn is_digit_char(c: char) -> bool {
    '0' as u32 <= c as u32 && c as u32 <= '9' as u32
}

/// A character that may continue an identifier.
pub open spec fn is_alnum_char(c: char) -> bool {
    is_alpha_char(c) || is_digit_char(c)
}

/// `c` matches `k` ignoring ASCII case, where `k` is a character of a
/// lower-case keyword.
pub open spec fn char_eq_ci(c: char, k: char) -> bool {
    c == k
        || ('A' as u32 <= c as u32 && c as u32 <= 'Z' as u32 && c as u32 + 32 == k as u32)
}

/// `s` matches the lower-case keyword `kw` ignoring ASCII case.
pub open spec fn matches_keyword(s: Seq<char>, kw: Seq<char>) -> bool {
    s.len() == kw.len() && forall|i: int| 0 <= i < s.len() ==> char_eq_ci(s[i], kw[i])
}

/// The kind an identifier-shaped lexeme classifies as: the keyword it
/// matches case-insensitively, or `Identifier`.
pub open spec fn keyword_kind(s: Seq<char>) -> TokenType {
    if matches_keyword(s, "and"@) {
        TokenType::And
    } else if matches_keyword(s, "continue"@) {
        TokenType::Continue
    } else if matches_keyword(s, "else"@) {
        TokenType::Else
    } else if matches_keyword(s, "false"@) {
        TokenType::False
    } else if matches_keyword(s, "for"@) {
        TokenType::For
    } else if matches_keyword(s, "fn"@) {
        TokenType::Fn
    } else if matches_keyword(s, "if"@) {
        TokenType::If
    } else if matches_keyword(s, "let"@) {
        TokenType::Let
    } else if matches_keyword(s, "match"@) {
        TokenType::Match
    } else if matches_keyword(s, "or"@) {
        TokenType::Or
    } else if matches_keyword(s, "print"@) {
        TokenType::Print
    } else if matches_keyword(s, "return"@) {
        TokenType::Return
    } else if matches_keyword(s, "true"@) {
        TokenType::True
    } else if matches_keyword(s, "while"@) {
        TokenType::While
    } else {
        TokenType::Identifier
    }
}

/// The message carried by the error token for a string literal that
/// reaches end of input before its closing quote.
pub open spec fn msg_unterminated_string() -> Seq<char> {
    "Unterminated string."@
}

/// The message carried by the error token for a character literal that
/// is not exactly one character wide.
pub open spec fn msg_unterminated_char() -> Seq<char> {
    "Unterminated character."@
}

/// The message carried by the error token for a character that opens no
/// token at all.
pub open spec fn msg_unexpected_char() -> Seq<char> {
    "Unexpected character."@
}

/// The characters of `text` from `from` (inclusive) to `to` (exclusive).
pub open spec fn span(text: Seq<char>, from: nat, to: nat) -> Seq<char> {
    text.subrange(from as int, to as int)
}

/// How many newline characters `s` holds.
pub open spec fn count_nl(s: Seq<char>) -> nat
    decreases s.len(),
{
    if s.len() == 0 {
        0
    } else {
        count_nl(s.drop_last()) + (if s.last() == '\n' { 1nat } else { 0nat })
    }
}

/// The first position at or after `pos` holding a newline, or the end of
/// the text: where an error recovery or a line comment stops skipping.
pub open spec fn eol_from(text: Seq<char>, pos: nat) -> nat
    decreases text.len() - pos when pos <= text.len()
{
    if pos >= text.len() {
        pos
    } else if text[pos as int] == '\n' {
        pos
    } else {
        eol_from(text, (pos + 1) as nat)
    }
}

/// The first position at or after `pos` holding a double quote, or the
/// end of the text: where a string literal closes.
pub open spec fn quote_from(text: Seq<char>, pos: nat) -> nat
    decreases text.len() - pos when pos <= text.len()
{
    if pos >= text.len() {
        pos
    } else if text[pos as int] == '"' {
        pos
    } else {
        quote_from(text, (pos + 1) as nat)
    }
}

/// The end of the maximal identifier run beginning at `pos`.
pub open spec fn run_end(text: Seq<char>, pos: nat) -> nat
    decreases text.len() - pos when pos <= text.len()
{
    if pos >= text.len() {
        pos
    } else if is_alnum_char(text[pos as int]) {
        run_end(text, (pos + 1) as nat)
    } else {
        pos
    }
}

/// The end of the maximal digit run beginning at `pos`.
pub open spec fn digits_end(text: Seq<char>, pos: nat) -> nat
    decreases text.len() - pos when pos <= text.len()
{
    if pos >= text.len() {
        pos
    } else if is_digit_char(text[pos as int]) {
        digits_end(text, (pos + 1) as nat)
    } else {
        pos
    }
}

/// A token as a value: kind, lexeme and line.
pub open spec fn mk_token(kind: TokenType, text: Seq<char>, line: nat) -> SpecToken {
    SpecToken { kind: kind, text: text, line: line }
}

/// A single-character token spanning `text[pos]`.
pub open spec fn one_char_token(kind: TokenType, text: Seq<char>, pos: nat, line: nat) -> (
    SpecToken,
    nat,
    nat,
) {
    (mk_token(kind, span(text, pos, (pos + 1) as nat), line), (pos + 1) as nat, line)
}

/// A two-character token spanning `text[pos..pos + 2]`.
pub open spec fn two_char_token(kind: TokenType, text: Seq<char>, pos: nat, line: nat) -> (
    SpecToken,
    nat,
    nat,
) {
    (mk_token(kind, span(text, pos, (pos + 2) as nat), line), (pos + 2) as nat, line)
}

/// Where the scanner's whitespace skipper stops when started at `pos` on
/// line `line`: the position and line after skipping spaces, carriage
/// returns, tabs, newlines (each newline raising the line counter) and
/// line comments.
pub open spec fn spec_skip_ws(text: Seq<char>, pos: nat, line: nat) -> (nat, nat)
    decreases text.len() - pos when pos <= text.len()
{
    if pos >= text.len() {
        (pos, line)
    } else {
        let c = text[pos as int];
        if is_skippable(c) {
            spec_skip_ws(text, (pos + 1) as nat, line)
        } else if c == '\n' {
            spec_skip_ws(text, (pos + 1) as nat, (line + 1) as nat)
        } else if c == '/' && pos + 1 < text.len() && text[pos as int + 1] == '/' {
            proof {
                lemma_eol_from(text, (pos + 2) as nat);
            }
            spec_skip_ws(text, eol_from(text, (pos + 2) as nat), line)
        } else {
            (pos, line)
        }
    }
}

/// The token the scanner emits at position `pos` on line `line`, with
/// the position and line at which scanning resumes. `pos` is expected to
/// be a position the whitespace skipper stopped at, strictly before the
/// end of the text.
pub open spec fn spec_next(text: Seq<char>, pos: nat, line: nat) -> (SpecToken, nat, nat) {
    if pos >= text.len() {
        (mk_token(TokenType::EOF, Seq::empty(), line), pos, line)
    } else {
        let c = text[pos as int];
        if is_alpha_char(c) {
            let end = run_end(text, pos);
            (mk_token(keyword_kind(span(text, pos, end)), span(text, pos, end), line), end, line)
        } else if is_digit_char(c) {
            let whole = digits_end(text, pos);
            let end = if whole < text.len() && text[whole as int] == '.' {
                digits_end(text, (whole + 1) as nat)
            } else {
                whole
            };
            (mk_token(TokenType::Number, span(text, pos, end), line), end, line)
        } else if c == '(' {
            one_char_token(TokenType::LeftParen, text, pos, line)
        } else if c == ')' {
            one_char_token(TokenType::RightParen, text, pos, line)
        } else if c == '{' {
            one_char_token(TokenType::LeftBrace, text, pos, line)
        } else if c == '}' {
            one_char_token(TokenType::RightBrace, text, pos, line)
        } else if c == ';' {
            one_char_token(TokenType::Semicolon, text, pos, line)
        } else if c == ':' {
            one_char_token(TokenType::Colon, text, pos, line)
        } else if c == ',' {
            one_char_token(TokenType::Comma, text, pos, line)
        } else if c == '-' {
            one_char_token(TokenType::Minus, text, pos, line)
        } else if c == '/' {
            one_char_token(TokenType::Slash, text, pos, line)
        } else if c == '*' {
            one_char_token(TokenType::Star, text, pos, line)
        } else if c == '&' {
            one_char_token(TokenType::At, text, pos, line)
        } else if c == '+' {
            if pos + 1 < text.len() && text[pos as int + 1] == '=' {
                two_char_token(TokenType::PlusEqual, text, pos, line)
            } else {
                one_char_token(TokenType::Plus, text, pos, line)
            }
        } else if c == '.' {
            if pos + 1 < text.len() && text[pos as int + 1] == '.' {
                two_char_token(TokenType::DoubleDot, text, pos, line)
            } else {
                one_char_token(TokenType::Dot, text, pos, line)
            }
        } else if c == '!' {
            if pos + 1 < text.len() && text[pos as int + 1] == '=' {
                two_char_token(TokenType::BangEqual, text, pos, line)
            } else {
                one_char_token(TokenType::Bang, text, pos, line)
            }
        } else if c == '=' {
            if pos + 1 < text.len() && text[pos as int + 1] == '=' {
                two_char_token(TokenType::EqualEqual, text, pos, line)
            } else if pos + 1 < text.len() && text[pos as int + 1] == '>' {
                two_char_token(TokenType::FatArrow, text, pos, line)
            } else {
                one_char_token(TokenType::Equal, text, pos, line)
            }
        } else if c == '<' {
            if pos + 1 < text.len() && text[pos as int + 1] == '=' {
                two_char_token(TokenType::LessEqual, text, pos, line)
            } else {
                one_char_token(TokenType::Less, text, pos, line)
            }
        } else if c == '>' {
            if pos + 1 < text.len() && text[pos as int + 1] == '=' {
                two_char_token(TokenType::GreaterEqual, text, pos, line)
            } else {
                one_char_token(TokenType::Greater, text, pos, line)
            }
        } else if c == '"' {
            let q = quote_from(text, (pos + 1) as nat);
            if q >= text.len() {
                let l2 = (line + count_nl(span(text, (pos + 1) as nat, text.len()))) as nat;
                (mk_token(TokenType::Error, msg_unterminated_string(), l2), text.len(), l2)
            } else {
                let l2 = (line + count_nl(span(text, (pos + 1) as nat, q))) as nat;
                (mk_token(TokenType::String, span(text, pos, (q + 1) as nat), line), (q + 1) as nat, l2)
            }
        } else if c == '\'' {
            if pos + 1 >= text.len() {
                (mk_token(TokenType::Error, msg_unterminated_char(), line), (pos + 1) as nat, line)
            } else {
                let l2 = if text[pos as int + 1] == '\n' {
                    (line + 1) as nat
                } else {
                    line
                };
                if pos + 2 < text.len() && text[pos as int + 2] == '\'' {
                    (mk_token(TokenType::Char, span(text, pos, (pos + 3) as nat), line), (pos + 3) as nat, l2)
                } else {
                    (mk_token(TokenType::Error, msg_unterminated_char(), l2), eol_from(text, (pos + 2) as nat), l2)
                }
            }
        } else {
            (mk_token(TokenType::Error, msg_unexpected_char(), line), eol_from(text, (pos + 1) as nat), line)
        }
    }
}

/// The token stream the scanner emits when started at `pos` on line
/// `line`: the tokens of the remaining text, closed by exactly one
/// end-of-input token.
pub open spec fn spec_scan_from(text: Seq<char>, pos: nat, line: nat) -> Seq<SpecToken>
    decreases text.len() - pos when pos <= text.len()
{
    let sk = spec_skip_ws(text, pos, line);
    if sk.0 >= text.len() {
        seq![mk_token(TokenType::EOF, Seq::empty(), sk.1)]
    } else {
        proof {
            lemma_skip_ws(text, pos, line);
            lemma_next(text, sk.0, sk.1);
        }
        let n = spec_next(text, sk.0, sk.1);
        seq![n.0] + spec_scan_from(text, n.1, n.2)
    }
}

/// The token stream of a whole text: the scan starts at its beginning on
/// line 1.
pub open spec fn spec_scan(text: Seq<char>) -> Seq<SpecToken> {
    spec_scan_from(text, 0, 1)
}

/// The shape every emitted token has, by kind: operators and punctuation
/// carry their exact characters, identifier-shaped tokens carry a run
/// that classifies back to their kind, literals carry their delimiters,
/// and the end-of-input token carries nothing.
pub open spec fn token_wf(t: SpecToken) -> bool {
    match t.kind {
        TokenType::LeftParen => t.text == seq!['('],
        TokenType::RightParen => t.text == seq![')'],
        TokenType::LeftBrace => t.text == seq!['{'],
        TokenType::RightBrace => t.text == seq!['}'],
        TokenType::At => t.text == seq!['&'],
        TokenType::Comma => t.text == seq![','],
        TokenType::Dot => t.text == seq!['.'],
        TokenType::DoubleDot => t.text == seq!['.', '.'],
        TokenType::Minus => t.text == seq!['-'],
        TokenType::Plus => t.text == seq!['+'],
        TokenType::Colon => t.text == seq![':'],
        TokenType::Semicolon => t.text == seq![';'],
        TokenType::Slash => t.text == seq!['/'],
        TokenType::Star => t.text == seq!['*'],
        TokenType::Bang => t.text == seq!['!'],
        TokenType::BangEqual => t.text == seq!['!', '='],
        TokenType::Equal => t.text == seq!['='],
        TokenType::EqualEqual => t.text == seq!['=', '='],
        TokenType::FatArrow => t.text == seq!['=', '>'],
        TokenType::PlusEqual => t.text == seq!['+', '='],
        TokenType::Greater => t.text == seq!['>'],
        TokenType::GreaterEqual => t.text == seq!['>', '='],
        TokenType::Less => t.text == seq!['<'],
        TokenType::LessEqual => t.text == seq!['<', '='],
        TokenType::Number => t.text.len() >= 1 && is_digit_char(t.text[0]),
        TokenType::String => t.text.len() >= 2 && t.text[0] == '"' && t.text[t.text.len() - 1]
            == '"',
        TokenType::Char => t.text.len() == 3 && t.text[0] == '\'' && t.text[2] == '\'',
        TokenType::Error => true,
        TokenType::EOF => t.text.len() == 0,
        _ => t.text.len() >= 1 && is_alpha_char(t.text[0]) && (forall|i: int|
            0 <= i < t.text.len() ==> is_alnum_char(t.text[i])) && keyword_kind(t.text) == t.kind,
    }
}

/// `count_nl` counts at most one newline per character.
pub proof fn lemma_count_nl_le(s: Seq<char>)
    ensures
        count_nl(s) <= s.len(),
    decreases s.len(),
{
    if s.len() > 0 {
        lemma_count_nl_le(s.drop_last());
    }
}

/// A sequence without newlines counts none.
pub proof fn lemma_count_nl_zero(s: Seq<char>)
    requires
        forall|i: int| 0 <= i < s.len() ==> s[i] != '\n',
    ensures
        count_nl(s) == 0,
    decreases s.len(),
{
    if s.len() > 0 {
        lemma_count_nl_zero(s.drop_last());
    }
}

/// Newline counts add over concatenation.
pub proof fn lemma_count_nl_concat(a: Seq<char>, b: Seq<char>)
    ensures
        count_nl(a + b) == count_nl(a) + count_nl(b),
    decreases b.len(),
{
    if b.len() == 0 {
        assert(a + b =~= a);
    } else {
        lemma_count_nl_concat(a, b.drop_last());
        assert((a + b).drop_last() =~= a + b.drop_last());
        assert((a + b).last() == b.last());
    }
}

/// What `eol_from` returns: the first newline at or after `pos`, or the
/// end of the text when there is none.
pub proof fn lemma_eol_from(text: Seq<char>, pos: nat)
    requires
        pos <= text.len(),
    ensures
        pos <= eol_from(text, pos) <= text.len(),
        eol_from(text, pos) == text.len() || text[eol_from(text, pos) as int] == '\n',
        forall|i: int| pos <= i < eol_from(text, pos) ==> text[i] != '\n',
    decreases text.len() - pos,
{
    if pos < text.len() && text[pos as int] != '\n' {
        lemma_eol_from(text, (pos + 1) as nat);
    }
}

/// What `quote_from` returns: the first double quote at or after `pos`,
/// or the end of the text when there is none.
pub proof fn lemma_quote_from(text: Seq<char>, pos: nat)
    requires
        pos <= text.len(),
    ensures
        pos <= quote_from(text, pos) <= text.len(),
        quote_from(text, pos) == text.len() || text[quote_from(text, pos) as int] == '"',
        forall|i: int| pos <= i < quote_from(text, pos) ==> text[i] != '"',
    decreases text.len() - pos,
{
    if pos < text.len() && text[pos as int] != '"' {
        lemma_quote_from(text, (pos + 1) as nat);
    }
}

/// What `run_end` returns: the end of the maximal identifier run.
pub proof fn lemma_run_end(text: Seq<char>, pos: nat)
    requires
        pos <= text.len(),
    ensures
        pos <= run_end(text, pos) <= text.len(),
        run_end(text, pos) == text.len() || !is_alnum_char(text[run_end(text, pos) as int]),
        forall|i: int| pos <= i < run_end(text, pos) ==> is_alnum_char(text[i]),
    decreases text.len() - pos,
{
    if pos < text.len() && is_alnum_char(text[pos as int]) {
        lemma_run_end(text, (pos + 1) as nat);
    }
}

/// What `digits_end` returns: the end of the maximal digit run.
pub proof fn lemma_digits_end(text: Seq<char>, pos: nat)
    requires
        pos <= text.len(),
    ensures
        pos <= digits_end(text, pos) <= text.len(),
        digits_end(text, pos) == text.len() || !is_digit_char(text[digits_end(text, pos) as int]),
        forall|i: int| pos <= i < digits_end(text, pos) ==> is_digit_char(text[i]),
    decreases text.len() - pos,
{
    if pos < text.len() && is_digit_char(text[pos as int]) {
        lemma_digits_end(text, (pos + 1) as nat);
    }
}

/// A single character counts as one newline or none.
pub proof fn lemma_count_nl_single(c: char)
    ensures
        count_nl(seq![c]) == (if c == '\n' { 1nat } else { 0nat }),
{
    let s = seq![c];
    assert(s.drop_last() =~= Seq::<char>::empty());
    assert(count_nl(Seq::<char>::empty()) == 0);
    assert(count_nl(s) == count_nl(s.drop_last()) + (if s.last() == '\n' { 1nat } else { 0nat }));
}

/// The whitespace skipper only moves forward, raises the line counter by
/// exactly the newlines it crosses, and stops at a position where it
/// would skip nothing more.
pub proof fn lemma_skip_ws(text: Seq<char>, pos: nat, line: nat)
    requires
        pos <= text.len(),
    ensures
        ({
            let (p1, l1) = spec_skip_ws(text, pos, line);
            &&& pos <= p1 <= text.len()
            &&& line <= l1
            &&& l1 == line + count_nl(span(text, pos, p1))
            &&& spec_skip_ws(text, p1, l1) == (p1, l1)
        }),
    decreases text.len() - pos,
{
    let (p1, l1) = spec_skip_ws(text, pos, line);
    if pos >= text.len() {
        assert(span(text, pos, p1) =~= Seq::<char>::empty());
    } else {
        let c = text[pos as int];
        if is_skippable(c) {
            lemma_skip_ws(text, (pos + 1) as nat, line);
            let (p2, l2) = spec_skip_ws(text, (pos + 1) as nat, line);
            assert(span(text, pos, p1) =~= seq![c] + span(text, (pos + 1) as nat, p1));
            lemma_count_nl_concat(seq![c], span(text, (pos + 1) as nat, p1));
            lemma_count_nl_single(c);
        } else if c == '\n' {
            lemma_skip_ws(text, (pos + 1) as nat, (line + 1) as nat);
            assert(span(text, pos, p1) =~= seq![c] + span(text, (pos + 1) as nat, p1));
            lemma_count_nl_concat(seq![c], span(text, (pos + 1) as nat, p1));
            lemma_count_nl_single(c);
        } else if c == '/' && pos + 1 < text.len() && text[pos as int + 1] == '/' {
            let e = eol_from(text, (pos + 2) as nat);
            lemma_eol_from(text, (pos + 2) as nat);
            lemma_skip_ws(text, e, line);
            assert(span(text, pos, p1) =~= span(text, pos, e) + span(text, e, p1));
            lemma_count_nl_concat(span(text, pos, e), span(text, e, p1));
            lemma_count_nl_zero(span(text, pos, e));
        } else {
            assert(span(text, pos, p1) =~= Seq::<char>::empty());
        }
    }
}

/// Extending a prefix by one character adds that character's newline
/// count.
pub proof fn lemma_count_nl_take_succ(s: Seq<char>, i: int)
    requires
        0 <= i < s.len(),
    ensures
        count_nl(s.take(i + 1)) == count_nl(s.take(i)) + (if s[i] == '\n' { 1nat } else { 0nat }),
{
    assert(s.take(i + 1).drop_last() =~= s.take(i));
    assert(s.take(i + 1).last() == s[i]);
}

/// The span of a single-character token is that character, and holds no
/// newline when the character is none.
proof fn lemma_one_char_span(text: Seq<char>, pos: nat)
    requires
        pos < text.len(),
    ensures
        span(text, pos, (pos + 1) as nat) =~= seq![text[pos as int]],
        text[pos as int] != '\n' ==> count_nl(span(text, pos, (pos + 1) as nat)) == 0,
{
    assert(span(text, pos, (pos + 1) as nat) =~= seq![text[pos as int]]);
    lemma_count_nl_single(text[pos as int]);
}

/// The span of a two-character token is those characters, and holds no
/// newline when neither is one.
proof fn lemma_two_char_span(text: Seq<char>, pos: nat)
    requires
        pos + 1 < text.len(),
    ensures
        span(text, pos, (pos + 2) as nat) =~= seq![text[pos as int], text[pos as int + 1]],
        (text[pos as int] != '\n' && text[pos as int + 1] != '\n') ==> count_nl(
            span(text, pos, (pos + 2) as nat),
        ) == 0,
{
    assert(span(text, pos, (pos + 2) as nat) =~= seq![text[pos as int], text[pos as int + 1]]);
    if text[pos as int] != '\n' && text[pos as int + 1] != '\n' {
        lemma_count_nl_zero(span(text, pos, (pos + 2) as nat));
    }
}

/// What one step of the scanner does at a position strictly before the
/// end of the text: the cursor moves strictly forward and stays in
/// bounds, the line counter never falls and rises by at most the
/// newlines crossed -- by exactly them unless the step begins at a
/// newline, which the whitespace skipper never lets it do -- the
/// emitted token is well formed, carries a line between the old and the
/// new counter, and is never the end-of-input token.
pub proof fn lemma_next(text: Seq<char>, pos: nat, line: nat)
    requires
        pos < text.len(),
    ensures
        ({
            let (tok, p2, l2) = spec_next(text, pos, line);
            &&& pos < p2 <= text.len()
            &&& line <= tok.line <= l2
            &&& l2 <= line + count_nl(span(text, pos, p2))
            &&& (text[pos as int] != '\n' ==> l2 == line + count_nl(span(text, pos, p2)))
            &&& token_wf(tok)
            &&& tok.kind != TokenType::EOF
        }),
{
    let (tok, p2, l2) = spec_next(text, pos, line);
    let c = text[pos as int];
    if is_alpha_char(c) {
        let end = run_end(text, pos);
        lemma_run_end(text, pos);
        assert(run_end(text, pos) == run_end(text, (pos + 1) as nat));
        lemma_run_end(text, (pos + 1) as nat);
        lemma_count_nl_zero(span(text, pos, end));
        assert(tok.text[0] == c);
    } else if is_digit_char(c) {
        let whole = digits_end(text, pos);
        lemma_digits_end(text, pos);
        assert(digits_end(text, pos) == digits_end(text, (pos + 1) as nat));
        lemma_digits_end(text, (pos + 1) as nat);
        if whole < text.len() && text[whole as int] == '.' {
            lemma_digits_end(text, (whole + 1) as nat);
        }
        lemma_count_nl_zero(span(text, pos, p2));
        assert(tok.text[0] == c);
    } else if c == '(' || c == ')' || c == '{' || c == '}' || c == ';' || c == ':' || c == ','
        || c == '-' || c == '/' || c == '*' || c == '&' {
        lemma_one_char_span(text, pos);
    } else if c == '+' || c == '.' || c == '!' || c == '=' || c == '<' || c == '>' {
        let follower_matches = pos + 1 < text.len() && ((c == '.' && text[pos as int + 1] == '.')
            || (c == '=' && text[pos as int + 1] == '>') || ((c == '+' || c == '!' || c == '='
            || c == '<' || c == '>') && text[pos as int + 1] == '='));
        if follower_matches {
            lemma_two_char_span(text, pos);
        } else {
            lemma_one_char_span(text, pos);
        }
    } else if c == '"' {
        let q = quote_from(text, (pos + 1) as nat);
        lemma_quote_from(text, (pos + 1) as nat);
        if q >= text.len() {
            assert(span(text, pos, text.len()) =~= seq![c] + span(
                text,
                (pos + 1) as nat,
                text.len(),
            ));
            lemma_count_nl_concat(seq![c], span(text, (pos + 1) as nat, text.len()));
            lemma_count_nl_single(c);
        } else {
            assert(span(text, pos, (q + 1) as nat) =~= (seq![c] + span(text, (pos + 1) as nat, q))
                + seq![text[q as int]]);
            lemma_count_nl_concat(seq![c] + span(text, (pos + 1) as nat, q), seq![text[q as int]]);
            lemma_count_nl_concat(seq![c], span(text, (pos + 1) as nat, q));
            lemma_count_nl_single(c);
            lemma_count_nl_single(text[q as int]);
            assert(tok.text[0] == c);
            assert(tok.text[tok.text.len() - 1] == text[q as int]);
        }
    } else if c == '\'' {
        if pos + 1 >= text.len() {
            lemma_one_char_span(text, pos);
        } else if pos + 2 < text.len() && text[pos as int + 2] == '\'' {
            let x = text[pos as int + 1];
            assert(span(text, pos, (pos + 3) as nat) =~= (seq![c] + seq![x]) + seq![
                text[pos as int + 2],
            ]);
            lemma_count_nl_concat(seq![c] + seq![x], seq![text[pos as int + 2]]);
            lemma_count_nl_concat(seq![c], seq![x]);
            lemma_count_nl_single(c);
            lemma_count_nl_single(x);
            lemma_count_nl_single(text[pos as int + 2]);
            assert(tok.text[0] == c);
            assert(tok.text[2] == text[pos as int + 2]);
        } else {
            let x = text[pos as int + 1];
            let e = eol_from(text, (pos + 2) as nat);
            lemma_eol_from(text, (pos + 2) as nat);
            assert(span(text, pos, e) =~= (seq![c] + seq![x]) + span(text, (pos + 2) as nat, e));
            lemma_count_nl_concat(seq![c] + seq![x], span(text, (pos + 2) as nat, e));
            lemma_count_nl_concat(seq![c], seq![x]);
            lemma_count_nl_single(c);
            lemma_count_nl_single(x);
            lemma_count_nl_zero(span(text, (pos + 2) as nat, e));
        }
    } else {
        let e = eol_from(text, (pos + 1) as nat);
        lemma_eol_from(text, (pos + 1) as nat);
        assert(span(text, pos, e) =~= seq![c] + span(text, (pos + 1) as nat, e));
        lemma_count_nl_concat(seq![c], span(text, (pos + 1) as nat, e));
        lemma_count_nl_single(c);
        lemma_count_nl_zero(span(text, (pos + 1) as nat, e));
    }
}

} // verus!
