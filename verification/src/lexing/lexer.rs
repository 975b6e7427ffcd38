//! The executable scanner. `Lexer::scan` walks the source text once and
//! returns its tokens; the result is proved equal, token by token, to
//! the model's `spec_scan_from`.

use vstd::prelude::*;
use vstd::string::StrSliceExecFns;
use crate::lexing::model::{
    char_eq_ci, count_nl, digits_end, eol_from, is_alnum_char, is_alpha_char, is_digit_char,
    keyword_kind, lemma_count_nl_concat, lemma_count_nl_le, lemma_count_nl_single,
    lemma_count_nl_take_succ, lemma_eol_from, lemma_next, lemma_skip_ws, matches_keyword, mk_token,
    quote_from, run_end, span, spec_next, spec_scan_from, spec_skip_ws,
};
use crate::token::{SpecToken, Token, TokenType};

verus! {

/// The images of a sequence of tokens, in order.
pub open spec fn views_of<'a>(tokens: Seq<Token<'a>>) -> Seq<SpecToken> {
    tokens.map_values(|t: Token<'a>| t@)
}

/// The scanner: a cursor over a borrowed source text, the start of the
/// token being scanned, and the 1-based line counter.
pub struct Lexer<'a> {
    pub text: &'a str,
    pub length: usize,
    pub start_position: usize,
    pub current_position: usize,
    pub line: usize,
}

impl<'a> Lexer<'a> {
    /// The scanner's invariant: the cached length is the text's, the
    /// token start never passes the cursor, the cursor stays in bounds,
    /// and the line counter is 1-based and never exceeds one more than
    /// the newlines already crossed.
    pub open spec fn wf(self) -> bool {
        &&& self.length == self.text@.len()
        &&& self.start_position <= self.current_position <= self.length
        &&& 1 <= self.line
        &&& self.line <= 1 + count_nl(self.text@.take(self.current_position as int))
        &&& self.length < usize::MAX
    }

    /// A scanner at the start of `text`, on line 1.
    pub fn new(text: &'a str) -> (l: Lexer<'a>)
        requires
            text@.len() < usize::MAX,
        ensures
            l.wf(),
            l.text == text,
            l.start_position == 0,
            l.current_position == 0,
            l.line == 1,
    {
        let length = text.unicode_len();
        proof {
            assert(text@.take(0) =~= Seq::<char>::empty());
        }
        Lexer { text, length, start_position: 0, current_position: 0, line: 1 }
    }

    /// Moves the cursor one character forward. The scanner never
    /// advances past the end of the text.
    fn advance(&mut self)
        requires
            old(self).wf(),
            old(self).current_position < old(self).length,
        ensures
            final(self).wf(),
            final(self).text == old(self).text,
            final(self).length == old(self).length,
            final(self).start_position == old(self).start_position,
            final(self).line == old(self).line,
            final(self).current_position == old(self).current_position + 1,
    {
        proof {
            lemma_count_nl_take_succ(self.text@, self.current_position as int);
        }
        self.current_position = self.current_position + 1;
    }

    /// The character under the cursor equals `expected` and the cursor
    /// is not at the end.
    fn peek_eq(&self, expected: char) -> (r: bool)
        requires
            self.wf(),
        ensures
            r == (self.current_position < self.text@.len() && self.text@[self.current_position as int]
                == expected),
    {
        if self.current_position < self.length {
            self.text.get_char(self.current_position) == expected
        } else {
            false
        }
    }

    /// The cursor stands on an ASCII letter or underscore.
    fn is_alpha(&self) -> (r: bool)
        requires
            self.wf(),
        ensures
            r == (self.current_position < self.text@.len() && is_alpha_char(
                self.text@[self.current_position as int],
            )),
    {
        if self.current_position < self.length {
            let c = self.text.get_char(self.current_position);
            ('a' as u32 <= c as u32 && c as u32 <= 'z' as u32) || ('A' as u32 <= c as u32 && c
                as u32 <= 'Z' as u32) || c == '_'
        } else {
            false
        }
    }

    /// The cursor stands on an ASCII decimal digit.
    fn is_digit(&self) -> (r: bool)
        requires
            self.wf(),
        ensures
            r == (self.current_position < self.text@.len() && is_digit_char(
                self.text@[self.current_position as int],
            )),
    {
        if self.current_position < self.length {
            let c = self.text.get_char(self.current_position);
            '0' as u32 <= c as u32 && c as u32 <= '9' as u32
        } else {
            false
        }
    }

    /// A token of the given kind spanning the text from the token start
    /// to the cursor, on the current line.
    fn make_token(&self, token_type: TokenType) -> (t: Token<'a>)
        requires
            self.wf(),
        ensures
            t@ == mk_token(
                token_type,
                span(self.text@, self.start_position as nat, self.current_position as nat),
                self.line as nat,
            ),
    {
        let text: &'a str = self.text;
        Token::new(
            token_type,
            text.substring_char(self.start_position, self.current_position),
            self.line,
        )
    }

    /// An error token carrying `message`, then recovery: the cursor
    /// skips to the end of the current line.
    #[verifier::loop_isolation(false)]
    fn error_token(&mut self, message: &'a str) -> (t: Token<'a>)
        requires
            old(self).wf(),
        ensures
            final(self).wf(),
            final(self).text == old(self).text,
            final(self).length == old(self).length,
            final(self).start_position == old(self).start_position,
            final(self).line == old(self).line,
            final(self).current_position as nat == eol_from(
                old(self).text@,
                old(self).current_position as nat,
            ),
            t@ == mk_token(TokenType::Error, message@, old(self).line as nat),
    {
        let token = Token::new(TokenType::Error, message, self.line);
        let ghost text = self.text@;
        let ghost p0 = self.current_position as nat;
        while self.current_position < self.length && self.text.get_char(self.current_position)
            != '\n'
            invariant
                self.wf(),
                self.text == old(self).text,
                self.text@ == text,
                self.length == old(self).length,
                self.start_position == old(self).start_position,
                self.line == old(self).line,
                eol_from(text, p0) == eol_from(text, self.current_position as nat),
            decreases self.length - self.current_position,
        {
            proof {
                assert(eol_from(text, self.current_position as nat) == eol_from(
                    text,
                    (self.current_position + 1) as nat,
                ));
            }
            self.advance();
        }
        proof {
            assert(eol_from(text, self.current_position as nat) == self.current_position as nat);
        }
        token
    }

    /// Skips spaces, carriage returns, tabs, newlines (raising the line
    /// counter) and line comments, exactly as the model's whitespace
    /// skipper does.
    #[verifier::loop_isolation(false)]
    fn skip_whitespace(&mut self)
        requires
            old(self).wf(),
        ensures
            final(self).wf(),
            final(self).text == old(self).text,
            final(self).length == old(self).length,
            final(self).start_position == old(self).start_position,
            final(self).current_position as nat == spec_skip_ws(
                old(self).text@,
                old(self).current_position as nat,
                old(self).line as nat,
            ).0,
            final(self).line as nat == spec_skip_ws(
                old(self).text@,
                old(self).current_position as nat,
                old(self).line as nat,
            ).1,
    {
        let ghost text = self.text@;
        let ghost pos0 = self.current_position as nat;
        let ghost line0 = self.line as nat;
        loop
            invariant
                self.wf(),
                self.text == old(self).text,
                self.text@ == text,
                self.length == old(self).length,
                self.start_position == old(self).start_position,
                spec_skip_ws(text, pos0, line0) == spec_skip_ws(
                    text,
                    self.current_position as nat,
                    self.line as nat,
                ),
            decreases self.length - self.current_position,
        {
            if self.current_position >= self.length {
                proof {
                    assert(spec_skip_ws(text, self.current_position as nat, self.line as nat) == (
                        self.current_position as nat,
                        self.line as nat,
                    ));
                }
                return ;
            }
            let c = self.text.get_char(self.current_position);
            if c == ' ' || c == '\r' || c == '\t' {
                proof {
                    assert(spec_skip_ws(text, self.current_position as nat, self.line as nat)
                        == spec_skip_ws(text, (self.current_position + 1) as nat, self.line as nat));
                }
                self.advance();
            } else if c == '\n' {
                proof {
                    assert(spec_skip_ws(text, self.current_position as nat, self.line as nat)
                        == spec_skip_ws(
                        text,
                        (self.current_position + 1) as nat,
                        (self.line + 1) as nat,
                    ));
                    lemma_count_nl_le(text.take(self.current_position as int));
                    lemma_count_nl_take_succ(text, self.current_position as int);
                }
                self.advance();
                self.line = self.line + 1;
            } else if c == '/' && self.current_position + 1 < self.length && self.text.get_char(
                self.current_position + 1,
            ) == '/' {
                proof {
                    lemma_eol_from(text, (self.current_position + 2) as nat);
                    assert(spec_skip_ws(text, self.current_position as nat, self.line as nat)
                        == spec_skip_ws(
                        text,
                        eol_from(text, (self.current_position + 2) as nat),
                        self.line as nat,
                    ));
                }
                self.advance();
                self.advance();
                let ghost centry = self.current_position as nat;
                while self.current_position < self.length && self.text.get_char(
                    self.current_position,
                ) != '\n'
                    invariant
                        self.wf(),
                        self.text == old(self).text,
                        self.text@ == text,
                        self.length == old(self).length,
                        self.start_position == old(self).start_position,
                        centry <= self.current_position as nat,
                        spec_skip_ws(text, pos0, line0) == spec_skip_ws(
                            text,
                            eol_from(text, self.current_position as nat),
                            self.line as nat,
                        ),
                    decreases self.length - self.current_position,
                {
                    proof {
                        lemma_eol_from(text, (self.current_position + 1) as nat);
                        assert(eol_from(text, self.current_position as nat) == eol_from(
                            text,
                            (self.current_position + 1) as nat,
                        ));
                    }
                    self.advance();
                }
                proof {
                    assert(eol_from(text, self.current_position as nat)
                        == self.current_position as nat);
                }
            } else {
                proof {
                    assert(spec_skip_ws(text, self.current_position as nat, self.line as nat) == (
                        self.current_position as nat,
                        self.line as nat,
                    ));
                }
                return ;
            }
        }
    }

    /// The scanned lexeme matches the lower-case keyword `kw` ignoring
    /// ASCII case.
    #[verifier::loop_isolation(false)]
    fn keyword_eq(&self, kw: &str) -> (r: bool)
        requires
            self.wf(),
        ensures
            r == matches_keyword(
                span(self.text@, self.start_position as nat, self.current_position as nat),
                kw@,
            ),
    {
        let ghost lexeme = span(self.text@, self.start_position as nat, self.current_position as nat);
        let n = self.current_position - self.start_position;
        let klen = kw.unicode_len();
        if n != klen {
            return false;
        }
        let mut i: usize = 0;
        while i < n
            invariant
                self.wf(),
                i <= n,
                n == klen,
                klen == kw@.len(),
                n == self.current_position - self.start_position,
                lexeme == span(self.text@, self.start_position as nat, self.current_position as nat),
                forall|j: int|
                    0 <= j < i ==> #[trigger] char_eq_ci(lexeme[j], kw@[j]),
            decreases n - i,
        {
            let c = self.text.get_char(self.start_position + i);
            let k = kw.get_char(i);
            let ok = c == k || ('A' as u32 <= c as u32 && c as u32 <= 'Z' as u32 && c as u32 + 32
                == k as u32);
            if !ok {
                return false;
            }
            i = i + 1;
        }
        true
    }

    /// Classifies the scanned lexeme: the keyword it matches
    /// case-insensitively, or `Identifier`.
    fn identifier_type(&self) -> (kind: TokenType)
        requires
            self.wf(),
        ensures
            kind == keyword_kind(
                span(self.text@, self.start_position as nat, self.current_position as nat),
            ),
    {
        if self.keyword_eq("and") {
            TokenType::And
        } else if self.keyword_eq("continue") {
            TokenType::Continue
        } else if self.keyword_eq("else") {
            TokenType::Else
        } else if self.keyword_eq("false") {
            TokenType::False
        } else if self.keyword_eq("for") {
            TokenType::For
        } else if self.keyword_eq("fn") {
            TokenType::Fn
        } else if self.keyword_eq("if") {
            TokenType::If
        } else if self.keyword_eq("let") {
            TokenType::Let
        } else if self.keyword_eq("match") {
            TokenType::Match
        } else if self.keyword_eq("or") {
            TokenType::Or
        } else if self.keyword_eq("print") {
            TokenType::Print
        } else if self.keyword_eq("return") {
            TokenType::Return
        } else if self.keyword_eq("true") {
            TokenType::True
        } else if self.keyword_eq("while") {
            TokenType::While
        } else {
            TokenType::Identifier
        }
    }

    /// Scans the maximal identifier run under the cursor and classifies
    /// it against the keyword table.
    #[verifier::loop_isolation(false)]
    fn identifier(&mut self) -> (t: Token<'a>)
        requires
            old(self).wf(),
            old(self).start_position == old(self).current_position,
            old(self).current_position < old(self).length,
            is_alnum_char(old(self).text@[old(self).current_position as int]),
        ensures
            final(self).wf(),
            final(self).text == old(self).text,
            final(self).length == old(self).length,
            final(self).start_position == old(self).start_position,
            final(self).line == old(self).line,
            final(self).current_position as nat == run_end(
                old(self).text@,
                old(self).current_position as nat,
            ),
            t@ == mk_token(
                keyword_kind(
                    span(
                        old(self).text@,
                        old(self).current_position as nat,
                        run_end(old(self).text@, old(self).current_position as nat),
                    ),
                ),
                span(
                    old(self).text@,
                    old(self).current_position as nat,
                    run_end(old(self).text@, old(self).current_position as nat),
                ),
                old(self).line as nat,
            ),
    {
        let ghost text = self.text@;
        let ghost p0 = self.current_position as nat;
        while self.is_alpha() || self.is_digit()
            invariant
                self.wf(),
                self.text == old(self).text,
                self.text@ == text,
                self.length == old(self).length,
                self.start_position == old(self).start_position,
                self.line == old(self).line,
                run_end(text, p0) == run_end(text, self.current_position as nat),
            decreases self.length - self.current_position,
        {
            proof {
                assert(run_end(text, self.current_position as nat) == run_end(
                    text,
                    (self.current_position + 1) as nat,
                ));
            }
            self.advance();
        }
        proof {
            assert(run_end(text, self.current_position as nat) == self.current_position as nat);
        }
        let kind = self.identifier_type();
        self.make_token(kind)
    }

    /// Scans the maximal digit run, an optional dot, and another maximal
    /// digit run: a number literal.
    #[verifier::loop_isolation(false)]
    fn number(&mut self) -> (t: Token<'a>)
        requires
            old(self).wf(),
            old(self).start_position == old(self).current_position,
            old(self).current_position < old(self).length,
            is_digit_char(old(self).text@[old(self).current_position as int]),
        ensures
            final(self).wf(),
            final(self).text == old(self).text,
            final(self).length == old(self).length,
            final(self).start_position == old(self).start_position,
            final(self).line == old(self).line,
            ({
                let whole = digits_end(old(self).text@, old(self).current_position as nat);
                let end = if whole < old(self).text@.len() && old(self).text@[whole as int] == '.' {
                    digits_end(old(self).text@, (whole + 1) as nat)
                } else {
                    whole
                };
                &&& final(self).current_position as nat == end
                &&& t@ == mk_token(
                    TokenType::Number,
                    span(old(self).text@, old(self).current_position as nat, end),
                    old(self).line as nat,
                )
            }),
    {
        let ghost text = self.text@;
        let ghost p0 = self.current_position as nat;
        while self.is_digit()
            invariant
                self.wf(),
                self.text == old(self).text,
                self.text@ == text,
                self.length == old(self).length,
                self.start_position == old(self).start_position,
                self.line == old(self).line,
                digits_end(text, p0) == digits_end(text, self.current_position as nat),
            decreases self.length - self.current_position,
        {
            proof {
                assert(digits_end(text, self.current_position as nat) == digits_end(
                    text,
                    (self.current_position + 1) as nat,
                ));
            }
            self.advance();
        }
        proof {
            assert(digits_end(text, self.current_position as nat) == self.current_position as nat);
        }
        if self.peek_eq('.') {
            self.advance();
        }
        let ghost mid = self.current_position as nat;
        while self.is_digit()
            invariant
                self.wf(),
                self.text == old(self).text,
                self.text@ == text,
                self.length == old(self).length,
                self.start_position == old(self).start_position,
                self.line == old(self).line,
                digits_end(text, mid) == digits_end(text, self.current_position as nat),
            decreases self.length - self.current_position,
        {
            proof {
                assert(digits_end(text, self.current_position as nat) == digits_end(
                    text,
                    (self.current_position + 1) as nat,
                ));
            }
            self.advance();
        }
        proof {
            assert(digits_end(text, self.current_position as nat) == self.current_position as nat);
        }
        self.make_token(TokenType::Number)
    }

    /// Scans a string literal: everything up to the closing quote, with
    /// the line counter raised on embedded newlines; reaching the end of
    /// the text instead yields an error token.
    #[verifier::loop_isolation(false)]
    fn string(&mut self) -> (t: Token<'a>)
        requires
            old(self).wf(),
            old(self).start_position + 1 == old(self).current_position,
            old(self).start_position < old(self).length,
            old(self).text@[old(self).start_position as int] == '"',
        ensures
            final(self).wf(),
            final(self).text == old(self).text,
            final(self).length == old(self).length,
            final(self).start_position == old(self).start_position,
            ({
                let text = old(self).text@;
                let p1 = old(self).current_position as nat;
                let q = quote_from(text, p1);
                if q >= text.len() {
                    &&& final(self).current_position == old(self).length
                    &&& final(self).line as nat == old(self).line + count_nl(
                        span(text, p1, text.len()),
                    )
                    &&& t@ == mk_token(
                        TokenType::Error,
                        "Unterminated string."@,
                        (old(self).line + count_nl(span(text, p1, text.len()))) as nat,
                    )
                } else {
                    &&& final(self).current_position as nat == q + 1
                    &&& final(self).line as nat == old(self).line + count_nl(span(text, p1, q))
                    &&& t@ == mk_token(
                        TokenType::String,
                        span(text, old(self).start_position as nat, (q + 1) as nat),
                        old(self).line as nat,
                    )
                }
            }),
    {
        let ghost text = self.text@;
        let ghost p1 = self.current_position as nat;
        let ghost l0 = self.line as nat;
        let start_line = self.line;
        while self.current_position < self.length && self.text.get_char(self.current_position)
            != '"'
            invariant
                self.wf(),
                self.text == old(self).text,
                self.text@ == text,
                self.length == old(self).length,
                self.start_position == old(self).start_position,
                p1 <= self.current_position as nat,
                quote_from(text, p1) == quote_from(text, self.current_position as nat),
                self.line as nat == l0 + count_nl(span(text, p1, self.current_position as nat)),
            decreases self.length - self.current_position,
        {
            let c = self.text.get_char(self.current_position);
            proof {
                assert(quote_from(text, self.current_position as nat) == quote_from(
                    text,
                    (self.current_position + 1) as nat,
                ));
                assert(span(text, p1, (self.current_position + 1) as nat) =~= span(
                    text,
                    p1,
                    self.current_position as nat,
                ) + seq![c]);
                lemma_count_nl_concat(span(text, p1, self.current_position as nat), seq![c]);
                lemma_count_nl_single(c);
                lemma_count_nl_le(text.take(self.current_position as int));
                lemma_count_nl_take_succ(text, self.current_position as int);
            }
            if c == '\n' {
                self.advance();
                self.line = self.line + 1;
            } else {
                self.advance();
            }
        }
        proof {
            assert(span(text, p1, p1) =~= Seq::<char>::empty());
            assert(quote_from(text, self.current_position as nat) == self.current_position as nat);
        }
        if self.current_position >= self.length {
            return self.error_token("Unterminated string.");
        }
        self.advance();
        // the token carries the line it started on; the line counter
        // itself has moved past any newlines the literal encloses
        let text_ref: &'a str = self.text;
        Token::new(
            TokenType::String,
            text_ref.substring_char(self.start_position, self.current_position),
            start_line,
        )
    }

    /// Scans one token beginning at the cursor, which must stand
    /// strictly before the end of the text; the cursor and line move as
    /// the model's `spec_next` says.
    fn next(&mut self) -> (t: Token<'a>)
        requires
            old(self).wf(),
            old(self).current_position < old(self).length,
        ensures
            final(self).wf(),
            final(self).text == old(self).text,
            final(self).length == old(self).length,
            t@ == spec_next(old(self).text@, old(self).current_position as nat, old(self).line as nat).0,
            final(self).current_position as nat == spec_next(
                old(self).text@,
                old(self).current_position as nat,
                old(self).line as nat,
            ).1,
            final(self).line as nat == spec_next(
                old(self).text@,
                old(self).current_position as nat,
                old(self).line as nat,
            ).2,
    {
        self.start_position = self.current_position;
        if self.is_alpha() {
            return self.identifier();
        }
        if self.is_digit() {
            return self.number();
        }
        let previous = self.text.get_char(self.current_position);
        self.advance();
        match previous {
            '(' => self.make_token(TokenType::LeftParen),
            ')' => self.make_token(TokenType::RightParen),
            '{' => self.make_token(TokenType::LeftBrace),
            '}' => self.make_token(TokenType::RightBrace),
            ';' => self.make_token(TokenType::Semicolon),
            ':' => self.make_token(TokenType::Colon),
            ',' => self.make_token(TokenType::Comma),
            '-' => self.make_token(TokenType::Minus),
            '/' => self.make_token(TokenType::Slash),
            '*' => self.make_token(TokenType::Star),
            '&' => self.make_token(TokenType::At),
            '+' => {
                if self.peek_eq('=') {
                    self.advance();
                    self.make_token(TokenType::PlusEqual)
                } else {
                    self.make_token(TokenType::Plus)
                }
            },
            '.' => {
                if self.peek_eq('.') {
                    self.advance();
                    self.make_token(TokenType::DoubleDot)
                } else {
                    self.make_token(TokenType::Dot)
                }
            },
            '!' => {
                if self.peek_eq('=') {
                    self.advance();
                    self.make_token(TokenType::BangEqual)
                } else {
                    self.make_token(TokenType::Bang)
                }
            },
            '=' => {
                if self.peek_eq('=') {
                    self.advance();
                    self.make_token(TokenType::EqualEqual)
                } else if self.peek_eq('>') {
                    self.advance();
                    self.make_token(TokenType::FatArrow)
                } else {
                    self.make_token(TokenType::Equal)
                }
            },
            '<' => {
                if self.peek_eq('=') {
                    self.advance();
                    self.make_token(TokenType::LessEqual)
                } else {
                    self.make_token(TokenType::Less)
                }
            },
            '>' => {
                if self.peek_eq('=') {
                    self.advance();
                    self.make_token(TokenType::GreaterEqual)
                } else {
                    self.make_token(TokenType::Greater)
                }
            },
            '"' => self.string(),
            '\'' => {
                if self.current_position >= self.length {
                    return self.error_token("Unterminated character.");
                }
                let start_line = self.line;
                let enclosed = self.text.get_char(self.current_position);
                proof {
                    lemma_count_nl_le(self.text@.take(self.current_position as int));
                    lemma_count_nl_take_succ(self.text@, self.current_position as int);
                }
                self.advance();
                if enclosed == '\n' {
                    self.line = self.line + 1;
                }
                if !self.peek_eq('\'') {
                    return self.error_token("Unterminated character.");
                }
                self.advance();
                // the token carries the line the literal starts on; the
                // counter has already counted an enclosed newline
                let text_ref: &'a str = self.text;
                Token::new(
                    TokenType::Char,
                    text_ref.substring_char(self.start_position, self.current_position),
                    start_line,
                )
            },
            _ => self.error_token("Unexpected character."),
        }
    }

    /// Scans the whole remaining text: every token in order, closed by
    /// exactly one end-of-input token, as the model's `spec_scan_from`
    /// says.
    #[verifier::loop_isolation(false)]
    pub fn scan(&mut self) -> (tokens: Vec<Token<'a>>)
        requires
            old(self).wf(),
        ensures
            final(self).wf(),
            views_of(tokens@) == spec_scan_from(
                old(self).text@,
                old(self).current_position as nat,
                old(self).line as nat,
            ),
    {
        let ghost text = self.text@;
        let ghost pos0 = self.current_position as nat;
        let ghost line0 = self.line as nat;
        let mut tokens: Vec<Token<'a>> = Vec::new();
        self.skip_whitespace();
        proof {
            lemma_skip_ws(text, pos0, line0);
            assert(views_of(tokens@) =~= Seq::<SpecToken>::empty());
        }
        while self.current_position < self.length
            invariant
                self.wf(),
                self.text == old(self).text,
                self.text@ == text,
                self.length == old(self).length,
                spec_skip_ws(text, self.current_position as nat, self.line as nat) == (
                    self.current_position as nat,
                    self.line as nat,
                ),
                spec_scan_from(text, pos0, line0) == views_of(tokens@) + spec_scan_from(
                    text,
                    self.current_position as nat,
                    self.line as nat,
                ),
            decreases self.length - self.current_position,
        {
            let ghost p = self.current_position as nat;
            let ghost l = self.line as nat;
            let ghost toks_before = tokens@;
            let tok = self.next();
            tokens.push(tok);
            let ghost pmid = self.current_position as nat;
            let ghost lmid = self.line as nat;
            self.skip_whitespace();
            proof {
                lemma_next(text, p, l);
                lemma_skip_ws(text, pmid, lmid);
                assert(views_of(tokens@) =~= views_of(toks_before).push(tok@));
                assert(spec_scan_from(text, p, l) == seq![spec_next(text, p, l).0]
                    + spec_scan_from(text, pmid, lmid));
                assert(spec_scan_from(text, pmid, lmid) == spec_scan_from(
                    text,
                    self.current_position as nat,
                    self.line as nat,
                ));
                assert(spec_scan_from(text, pos0, line0) =~= views_of(tokens@) + spec_scan_from(
                    text,
                    self.current_position as nat,
                    self.line as nat,
                ));
            }
        }
        self.start_position = self.current_position;
        let eof = self.make_token(TokenType::EOF);
        let ghost toks_before = tokens@;
        tokens.push(eof);
        proof {
            assert(span(text, self.current_position as nat, self.current_position as nat)
                =~= Seq::<char>::empty());
            assert(spec_scan_from(text, self.current_position as nat, self.line as nat)
                == seq![mk_token(TokenType::EOF, Seq::<char>::empty(), self.line as nat)]);
            assert(views_of(tokens@) =~= views_of(toks_before).push(eof@));
            assert(views_of(tokens@) =~= spec_scan_from(text, pos0, line0));
        }
        tokens
    }
}

} // verus!
