//! Laws of the token stream, proved of the model: every scan ends in
//! exactly one end-of-input token, line numbers never decrease, the
//! end-of-input token's line counts the newlines, and re-scanning a
//! token's own text reproduces its kind.

use vstd::prelude::*;
use crate::lexing::model::{
    count_nl, lemma_count_nl_concat, lemma_next, lemma_quote_from, lemma_run_end, lemma_skip_ws,
    quote_from, run_end, span, spec_next, spec_scan, spec_scan_from, spec_skip_ws, token_wf,
};
use crate::token::{SpecToken, TokenType};

verus! {

/// A scan started anywhere ends in an end-of-input token with empty
/// text.
proof fn lemma_scan_from_last(text: Seq<char>, pos: nat, line: nat)
    requires
        pos <= text.len(),
    ensures
        spec_scan_from(text, pos, line).len() >= 1,
        spec_scan_from(text, pos, line).last().kind == TokenType::EOF,
        spec_scan_from(text, pos, line).last().text == Seq::<char>::empty(),
        forall|i: int|
            0 <= i < spec_scan_from(text, pos, line).len() - 1 ==> (#[trigger] spec_scan_from(
                text,
                pos,
                line,
            )[i]).kind != TokenType::EOF,
    decreases text.len() - pos,
{
    let sk = spec_skip_ws(text, pos, line);
    lemma_skip_ws(text, pos, line);
    if sk.0 < text.len() {
        lemma_next(text, sk.0, sk.1);
        let n = spec_next(text, sk.0, sk.1);
        lemma_scan_from_last(text, n.1, n.2);
        let s = spec_scan_from(text, pos, line);
        let tail = spec_scan_from(text, n.1, n.2);
        assert(s.last() == tail.last());
        assert(forall|i: int| 1 <= i < s.len() ==> s[i] == tail[i - 1]);
    }
}

/// Every scan terminates -- the model is total and the scanner is
/// proved equal to it -- and its result ends in an end-of-input token
/// with empty text, the only one in the sequence.
pub proof fn lemma_scan_last_is_eof(text: Seq<char>)
    ensures
        spec_scan(text).len() >= 1,
        spec_scan(text).last().kind == TokenType::EOF,
        spec_scan(text).last().text == Seq::<char>::empty(),
        forall|i: int|
            0 <= i < spec_scan(text).len() - 1 ==> (#[trigger] spec_scan(text)[i]).kind
                != TokenType::EOF,
{
    lemma_scan_from_last(text, 0, 1);
}

/// Along a scan started on line `line`, every token's line is at least
/// `line` and the lines never decrease.
proof fn lemma_scan_from_lines(text: Seq<char>, pos: nat, line: nat)
    requires
        pos <= text.len(),
    ensures
        ({
            let s = spec_scan_from(text, pos, line);
            &&& forall|i: int| 0 <= i < s.len() ==> line <= #[trigger] s[i].line
            &&& forall|i: int, j: int|
                0 <= i <= j < s.len() ==> #[trigger] s[i].line <= #[trigger] s[j].line
        }),
    decreases text.len() - pos,
{
    let s = spec_scan_from(text, pos, line);
    let sk = spec_skip_ws(text, pos, line);
    lemma_skip_ws(text, pos, line);
    if sk.0 < text.len() {
        lemma_next(text, sk.0, sk.1);
        let n = spec_next(text, sk.0, sk.1);
        lemma_scan_from_lines(text, n.1, n.2);
        let tail = spec_scan_from(text, n.1, n.2);
        assert(forall|i: int| 0 <= i < s.len() ==> line <= #[trigger] s[i].line) by {
            assert(forall|i: int| 1 <= i < s.len() ==> s[i] == tail[i - 1]);
        }
        assert(forall|i: int, j: int|
            0 <= i <= j < s.len() ==> #[trigger] s[i].line <= #[trigger] s[j].line) by {
            assert(forall|i: int| 1 <= i < s.len() ==> s[i] == tail[i - 1]);
            assert(forall|j: int| 1 <= j < s.len() ==> s[0].line <= #[trigger] s[j].line);
        }
    }
}

/// Line numbers are monotonically non-decreasing across the token
/// sequence of any scan.
pub proof fn lemma_lines_non_decreasing(text: Seq<char>, i: int, j: int)
    requires
        0 <= i <= j < spec_scan(text).len(),
    ensures
        spec_scan(text)[i].line <= spec_scan(text)[j].line,
{
    lemma_scan_from_lines(text, 0, 1);
}

/// A position the whitespace skipper stops at, short of the end, never
/// holds a newline.
proof fn lemma_landed_not_newline(text: Seq<char>, pos: nat, line: nat)
    requires
        pos <= text.len(),
        spec_skip_ws(text, pos, line).0 < text.len(),
    ensures
        text[spec_skip_ws(text, pos, line).0 as int] != '\n',
{
    let sk = spec_skip_ws(text, pos, line);
    lemma_skip_ws(text, pos, line);
    if text[sk.0 as int] == '\n' {
        lemma_skip_ws(text, (sk.0 + 1) as nat, (sk.1 + 1) as nat);
        assert(spec_skip_ws(text, sk.0, sk.1) == spec_skip_ws(
            text,
            (sk.0 + 1) as nat,
            (sk.1 + 1) as nat,
        ));
    }
}

/// The end-of-input token's line is the starting line plus the newlines
/// of the remaining text: every consumed newline raises the counter.
proof fn lemma_scan_from_eof_line(text: Seq<char>, pos: nat, line: nat)
    requires
        pos <= text.len(),
    ensures
        spec_scan_from(text, pos, line).last().line == line + count_nl(
            span(text, pos, text.len()),
        ),
    decreases text.len() - pos,
{
    let sk = spec_skip_ws(text, pos, line);
    lemma_skip_ws(text, pos, line);
    if sk.0 >= text.len() {
        assert(sk.0 == text.len());
    } else {
        lemma_landed_not_newline(text, pos, line);
        lemma_next(text, sk.0, sk.1);
        let n = spec_next(text, sk.0, sk.1);
        lemma_scan_from_eof_line(text, n.1, n.2);
        assert(spec_scan_from(text, pos, line).last() == spec_scan_from(text, n.1, n.2).last());
        assert(span(text, pos, n.1) =~= span(text, pos, sk.0) + span(text, sk.0, n.1));
        lemma_count_nl_concat(span(text, pos, sk.0), span(text, sk.0, n.1));
        assert(span(text, pos, text.len()) =~= span(text, pos, n.1) + span(
            text,
            n.1,
            text.len(),
        ));
        lemma_count_nl_concat(span(text, pos, n.1), span(text, n.1, text.len()));
    }
}

/// For every text, the end-of-input token's line is one more than the
/// number of newline characters in the text.
pub proof fn lemma_eof_line(text: Seq<char>)
    ensures
        spec_scan(text).last().line == 1 + count_nl(text),
{
    lemma_scan_from_eof_line(text, 0, 1);
    assert(span(text, 0, text.len()) =~= text);
}

/// Every token a scan emits is well formed in the sense of `token_wf`.
proof fn lemma_scan_from_wf(text: Seq<char>, pos: nat, line: nat)
    requires
        pos <= text.len(),
    ensures
        forall|i: int|
            0 <= i < spec_scan_from(text, pos, line).len() ==> token_wf(
                #[trigger] spec_scan_from(text, pos, line)[i],
            ),
    decreases text.len() - pos,
{
    let sk = spec_skip_ws(text, pos, line);
    lemma_skip_ws(text, pos, line);
    if sk.0 < text.len() {
        lemma_next(text, sk.0, sk.1);
        let n = spec_next(text, sk.0, sk.1);
        lemma_scan_from_wf(text, n.1, n.2);
        let s = spec_scan_from(text, pos, line);
        let tail = spec_scan_from(text, n.1, n.2);
        assert(forall|i: int| 1 <= i < s.len() ==> s[i] == tail[i - 1]);
    }
}

/// Scanning the text of a well-formed token that is not an error token
/// yields that token's kind first.
proof fn lemma_wf_token_rescan(t: SpecToken)
    requires
        token_wf(t),
        t.kind != TokenType::Error,
    ensures
        spec_scan(t.text).len() >= 1,
        spec_scan(t.text)[0].kind == t.kind,
{
    let text = t.text;
    lemma_scan_from_last(text, 0, 1);
    if text.len() == 0 {
        assert(spec_skip_ws(text, 0, 1) == (0nat, 1nat));
    } else {
        let c0 = text[0];
        assert(spec_skip_ws(text, 0, 1) == (0nat, 1nat)) by {
            match t.kind {
                TokenType::Slash => {
                    assert(text == seq!['/']);
                    assert(text.len() == 1);
                },
                _ => {},
            }
        }
        let n = spec_next(text, 0, 1);
        assert(spec_scan(text)[0] == n.0);
        match t.kind {
            TokenType::Number => {},
            TokenType::String => {
                lemma_quote_from(text, 1);
                assert(quote_from(text, 1) < text.len()) by {
                    assert(text[text.len() - 1] == '"');
                }
            },
            TokenType::Char => {},
            TokenType::EOF => {},
            TokenType::LeftParen | TokenType::RightParen | TokenType::LeftBrace
                | TokenType::RightBrace | TokenType::At | TokenType::Comma | TokenType::Dot
                | TokenType::DoubleDot | TokenType::Minus | TokenType::Plus | TokenType::Colon
                | TokenType::Semicolon | TokenType::Slash | TokenType::Star | TokenType::Bang
                | TokenType::BangEqual | TokenType::Equal | TokenType::EqualEqual
                | TokenType::FatArrow | TokenType::PlusEqual | TokenType::Greater
                | TokenType::GreaterEqual | TokenType::Less | TokenType::LessEqual => {},
            _ => {
                // identifier-shaped: the whole text is one maximal run and
                // classifies back to the same kind
                lemma_run_end(text, 0);
                assert(run_end(text, 0) == text.len());
                assert(span(text, 0, text.len()) =~= text);
            },
        }
    }
}

/// Re-scanning the exact text recorded in any emitted token other than
/// an error token (whose text is its message, not a lexeme) yields a
/// first token of the same kind.
pub proof fn lemma_rescan_token(text: Seq<char>, i: int)
    requires
        0 <= i < spec_scan(text).len(),
        spec_scan(text)[i].kind != TokenType::Error,
    ensures
        spec_scan(spec_scan(text)[i].text).len() >= 1,
        spec_scan(spec_scan(text)[i].text)[0].kind == spec_scan(text)[i].kind,
{
    lemma_scan_from_wf(text, 0, 1);
    lemma_wf_token_rescan(spec_scan(text)[i]);
}

} // verus!
