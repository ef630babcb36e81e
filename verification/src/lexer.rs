//! The lexer: turns a byte sequence into tokens that cover every byte of the
//! input exactly once.
//!
//! A fixed classification assigns each byte to one of: digit, letter, one of
//! the seven single-character punctuation tokens, whitespace, or invalid.
//! Punctuation bytes become one-byte tokens; the other classes greedily
//! consume the maximal run of bytes of the same class (identifiers continue
//! over letters, digits and underscores). A line counter starts at 1 and
//! increments on every line-feed or carriage-return byte, so a two-byte CRLF
//! sequence increments it twice; this mirrors the counting rule the rest of
//! the pipeline expects and is deliberate. Lexing ends with exactly one
//! zero-width `EndOfFile` token at the byte length of the input.
//!
//! The lexer itself never fails: unrecognized bytes are forwarded as
//! `Unknown` tokens, and turning those into diagnostics is the caller's
//! responsibility (see [`crate::util`] and the parser's driver).

use vstd::prelude::*;
use vstd::string::StringSliceAdditionalSpecFns;
use crate::error::{DiagnosticError, SDiag};
use crate::messages::{msg_invalid_token, fmt_invalid_token};
use crate::token::{Token, TokenKind, STok};
use crate::util::{token_info, lit_of, col_end};

verus! {

/// Whether `b` is an ASCII digit.
pub open spec fn is_digit(b: u8) -> bool {
    48 <= b && b <= 57
}

/// Whether `b` is an ASCII letter.
pub open spec fn is_letter(b: u8) -> bool {
    (65 <= b && b <= 90) || (97 <= b && b <= 122)
}

/// Whether `b` may continue an identifier: a letter, a digit or `_`.
pub open spec fn is_ident_cont(b: u8) -> bool {
    is_letter(b) || is_digit(b) || b == 95
}

/// Whether `b` is a whitespace byte: tab, line feed, form feed, carriage
/// return or space.
pub open spec fn is_space(b: u8) -> bool {
    b == 9 || b == 10 || b == 12 || b == 13 || b == 32
}

/// Whether `b` increments the line counter.
pub open spec fn is_linebreak(b: u8) -> bool {
    b == 10 || b == 13
}

/// The token kind of a single-character punctuation byte, if `b` is one.
pub open spec fn punct_kind(b: u8) -> Option<TokenKind> {
    if b == 61 {
        Some(TokenKind::Equal)
    } else if b == 40 {
        Some(TokenKind::LeftParen)
    } else if b == 41 {
        Some(TokenKind::RightParen)
    } else if b == 42 {
        Some(TokenKind::Star)
    } else if b == 43 {
        Some(TokenKind::Plus)
    } else if b == 45 {
        Some(TokenKind::Minus)
    } else if b == 59 {
        Some(TokenKind::Semicolon)
    } else {
        None
    }
}

/// Whether `b` belongs to no recognized class.
pub open spec fn is_invalid(b: u8) -> bool {
    !is_digit(b) && !is_letter(b) && !is_space(b) && punct_kind(b) is None
}

/// Whether `b` continues the run begun by start byte `b0`.
pub open spec fn run_pred(b0: u8, b: u8) -> bool {
    if is_digit(b0) {
        is_digit(b)
    } else if is_letter(b0) {
        is_ident_cont(b)
    } else if is_space(b0) {
        is_space(b)
    } else {
        is_invalid(b)
    }
}

/// The end of the maximal run from `i` of bytes continuing the class of `b0`.
pub open spec fn ext_run(src: Seq<u8>, i: int, b0: u8) -> int
    decreases src.len() - i,
{
    if i < 0 || i >= src.len() {
        i
    } else if run_pred(b0, src[i]) {
        ext_run(src, i + 1, b0)
    } else {
        i
    }
}

/// The maximal run from `i` stays within the input and satisfies the run
/// predicate throughout; the byte after it (if any) breaks the run.
pub proof fn lemma_ext_run(src: Seq<u8>, i: int, b0: u8)
    requires
        0 <= i <= src.len(),
    ensures
        i <= ext_run(src, i, b0) <= src.len(),
        forall|k: int| i <= k < ext_run(src, i, b0) ==> run_pred(b0, src[k]),
        ext_run(src, i, b0) < src.len() ==> !run_pred(b0, src[ext_run(src, i, b0)]),
    decreases src.len() - i,
{
    if i < src.len() && run_pred(b0, src[i]) {
        lemma_ext_run(src, i + 1, b0);
    }
}

/// The end of the token that starts at `pos`.
pub open spec fn token_end(src: Seq<u8>, pos: int) -> int {
    if punct_kind(src[pos]) is Some {
        pos + 1
    } else {
        ext_run(src, pos, src[pos])
    }
}

/// The kind of the token that starts at `pos`.
pub open spec fn token_kind_at(src: Seq<u8>, pos: int) -> TokenKind {
    let b = src[pos];
    if is_digit(b) {
        TokenKind::Literal
    } else if is_letter(b) {
        TokenKind::Identifier
    } else if is_space(b) {
        TokenKind::Whitespace
    } else {
        match punct_kind(b) {
            Some(k) => k,
            None => TokenKind::Unknown,
        }
    }
}

/// The number of line-break bytes in `src[i..j)`.
pub open spec fn count_linebreaks(src: Seq<u8>, i: int, j: int) -> int
    decreases j - i,
{
    if i >= j {
        0
    } else {
        (if is_linebreak(src[i]) { 1int } else { 0int }) + count_linebreaks(src, i + 1, j)
    }
}

/// An interval of length n holds between 0 and n line breaks.
pub proof fn lemma_count_linebreaks_bound(src: Seq<u8>, i: int, j: int)
    ensures
        0 <= count_linebreaks(src, i, j),
        count_linebreaks(src, i, j) <= if j >= i { j - i } else { 0 },
    decreases j - i,
{
    if i < j {
        lemma_count_linebreaks_bound(src, i + 1, j);
    }
}

/// Counting line breaks splits over adjacent intervals.
pub proof fn lemma_count_linebreaks_split(src: Seq<u8>, i: int, j: int, k: int)
    requires
        i <= j <= k,
    ensures
        count_linebreaks(src, i, k) == count_linebreaks(src, i, j) + count_linebreaks(src, j, k),
    decreases j - i,
{
    if i < j {
        lemma_count_linebreaks_split(src, i + 1, j, k);
    }
}

#[via_fn]
proof fn spec_lex_from_decreases(src: Seq<u8>, pos: int, line: int) {
    if 0 <= pos < src.len() {
        let b = src[pos];
        lemma_ext_run(src, pos + 1, b);
        if punct_kind(b) is None {
            assert(run_pred(b, b));
            assert(ext_run(src, pos, b) == ext_run(src, pos + 1, b));
        }
    }
}

/// The sequence of tokens that lexing produces from byte offset `pos` with
/// the line counter at `line`: one token per maximal run, ending with a
/// single zero-width `EndOfFile` token at the input's byte length.
pub open spec fn spec_lex_from(src: Seq<u8>, pos: int, line: int) -> Seq<STok>
    decreases src.len() - pos + 1,
        via spec_lex_from_decreases
{
    if pos < 0 || pos >= src.len() {
        seq![STok { kind: TokenKind::EndOfFile, start: src.len() as int, end: src.len() as int, line }]
    } else {
        let e = token_end(src, pos);
        seq![STok { kind: token_kind_at(src, pos), start: pos, end: e, line }]
            + spec_lex_from(src, e, line + count_linebreaks(src, pos, e))
    }
}

/// The tokens with `Whitespace` tokens removed.
pub open spec fn drop_ws(s: Seq<STok>) -> Seq<STok>
    decreases s.len(),
{
    if s.len() == 0 {
        s
    } else if s[0].kind == TokenKind::Whitespace {
        drop_ws(s.drop_first())
    } else {
        seq![s[0]] + drop_ws(s.drop_first())
    }
}

/// What lexing guarantees of each token's bytes: the span lies within the
/// input, only the `EndOfFile` token is empty, a `Literal` covers digits
/// only, and an `Identifier` starts with a letter and continues over
/// letters, digits and underscores.
pub open spec fn token_byte_facts(src: Seq<u8>, t: STok) -> bool {
    &&& 0 <= t.start <= t.end <= src.len()
    &&& (t.kind == TokenKind::EndOfFile <==> t.start == t.end)
    &&& (t.kind == TokenKind::Literal ==> forall|k: int|
        t.start <= k < t.end ==> is_digit(src[k]))
    &&& (t.kind == TokenKind::Identifier ==> is_letter(src[t.start]) && forall|k: int|
        t.start <= k < t.end ==> is_ident_cont(src[k]))
}

/// Lexing from any offset yields a well-formed token sequence: it starts at
/// that offset, the spans are contiguous, exactly the final token is
/// `EndOfFile` and it is empty at the input's byte length, and every token
/// satisfies [`token_byte_facts`].
pub proof fn lemma_spec_lex_wf(src: Seq<u8>, pos: int, line: int)
    requires
        0 <= pos <= src.len(),
    ensures
        ({
            let toks = spec_lex_from(src, pos, line);
            &&& toks.len() >= 1
            &&& toks[toks.len() - 1].kind == TokenKind::EndOfFile
            &&& toks[toks.len() - 1].start == src.len()
            &&& toks[toks.len() - 1].end == src.len()
            &&& (forall|i: int| 0 <= i < toks.len() - 1 ==> toks[i].kind != TokenKind::EndOfFile)
            &&& toks[0].start == pos
            &&& (forall|i: int| 0 <= i < toks.len() - 1 ==> toks[i + 1].start == toks[i].end)
            &&& (forall|i: int| 0 <= i < toks.len() ==> token_byte_facts(src, toks[i]))
        }),
    decreases src.len() - pos,
{
    if pos < src.len() {
        let b = src[pos];
        let e = token_end(src, pos);
        lemma_ext_run(src, pos, b);
        if punct_kind(b) is None {
            assert(run_pred(b, b));
        }
        assert(pos < e <= src.len());
        lemma_spec_lex_wf(src, e, line + count_linebreaks(src, pos, e));
        let toks = spec_lex_from(src, pos, line);
        let rest = spec_lex_from(src, e, line + count_linebreaks(src, pos, e));
        assert(forall|i: int| 1 <= i < toks.len() ==> toks[i] == rest[i - 1]);
        assert(token_kind_at(src, pos) != TokenKind::EndOfFile);
        assert(token_byte_facts(src, toks[0]));
    }
}

/// The bytes that a token sequence covers, in order.
pub open spec fn cat_tokens(src: Seq<u8>, toks: Seq<STok>) -> Seq<u8>
    decreases toks.len(),
{
    if toks.len() == 0 {
        Seq::empty()
    } else {
        src.subrange(toks[0].start, toks[0].end) + cat_tokens(src, toks.drop_first())
    }
}

proof fn lemma_cat_tokens_from(src: Seq<u8>, pos: int, line: int)
    requires
        0 <= pos <= src.len(),
    ensures
        cat_tokens(src, spec_lex_from(src, pos, line)) == src.subrange(pos, src.len() as int),
    decreases src.len() - pos,
{
    let toks = spec_lex_from(src, pos, line);
    if pos >= src.len() {
        assert(toks.drop_first() =~= Seq::<STok>::empty());
        assert(cat_tokens(src, toks.drop_first()) == Seq::<u8>::empty());
        assert(cat_tokens(src, toks)
            == src.subrange(src.len() as int, src.len() as int) + Seq::<u8>::empty());
        assert(cat_tokens(src, toks) =~= src.subrange(pos, src.len() as int));
    } else {
        let b = src[pos];
        let e = token_end(src, pos);
        lemma_ext_run(src, pos, b);
        if punct_kind(b) is None {
            assert(run_pred(b, b));
        }
        let line2 = line + count_linebreaks(src, pos, e);
        lemma_cat_tokens_from(src, e, line2);
        assert(toks.drop_first() =~= spec_lex_from(src, e, line2));
        assert(src.subrange(pos, e) + src.subrange(e, src.len() as int)
            =~= src.subrange(pos, src.len() as int));
    }
}

/// Concatenating the source ranges of the lexed tokens, in order,
/// reconstructs the input byte sequence exactly: lexing covers every byte
/// once, with no gaps and no overlaps.
pub proof fn lemma_tokens_reconstruct_source(src: Seq<u8>)
    ensures
        cat_tokens(src, spec_lex_from(src, 0, 1)) == src,
{
    lemma_cat_tokens_from(src, 0, 1);
    assert(src.subrange(0, src.len() as int) =~= src);
}

/// Dropping whitespace keeps a well-formed token sequence well formed: the
/// final `EndOfFile` token stays, nothing else is an `EndOfFile` token,
/// every kept token occurs in the input sequence, and the kept spans
/// stay in order.
pub proof fn lemma_drop_ws_wf(s: Seq<STok>)
    requires
        s.len() >= 1,
        s[s.len() - 1].kind == TokenKind::EndOfFile,
        forall|i: int| 0 <= i < s.len() - 1 ==> s[i].kind != TokenKind::EndOfFile,
        forall|i: int| 0 <= i < s.len() - 1 ==> #[trigger] s[i].end == s[i + 1].start,
        forall|i: int| 0 <= i < s.len() ==> #[trigger] s[i].start <= s[i].end,
    ensures
        ({
            let d = drop_ws(s);
            &&& d.len() >= 1
            &&& d[d.len() - 1] == s[s.len() - 1]
            &&& (forall|i: int| 0 <= i < d.len() - 1 ==> d[i].kind != TokenKind::EndOfFile)
            &&& (forall|i: int| 0 <= i < d.len() ==> s.contains(#[trigger] d[i]))
            &&& d[0].start >= s[0].start
            &&& (forall|i: int| 0 <= i < d.len() - 1 ==> #[trigger] d[i].end <= d[i + 1].start)
        }),
    decreases s.len(),
{
    let d = drop_ws(s);
    if s.len() == 1 {
        assert(s[0].kind != TokenKind::Whitespace);
        assert(d =~= seq![s[0]] + drop_ws(s.drop_first()));
        assert(drop_ws(s.drop_first()) =~= Seq::<STok>::empty());
        assert(s.contains(d[0]));
    } else {
        let t = s.drop_first();
        lemma_drop_ws_wf(t);
        let dt = drop_ws(t);
        assert(forall|i: int| 0 <= i < t.len() ==> #[trigger] t[i] == s[i + 1]);
        assert forall|x: STok| t.contains(x) implies s.contains(x) by {
            let j0 = choose|j0: int| 0 <= j0 < t.len() && t[j0] == x;
            assert(s[j0 + 1] == x);
        }
        assert(t[0].start == s[0].end);
        if s[0].kind == TokenKind::Whitespace {
            assert(d == dt);
            assert forall|i: int| 0 <= i < d.len() implies s.contains(#[trigger] d[i]) by {
                assert(t.contains(dt[i]));
            }
            assert(d[0].start >= t[0].start);
        } else {
            assert(d == seq![s[0]] + dt);
            assert(s.contains(s[0]));
            assert forall|i: int| 0 <= i < d.len() implies s.contains(#[trigger] d[i]) by {
                if i == 0 {
                    assert(d[i] == s[0]);
                } else {
                    assert(d[i] == dt[i - 1]);
                    assert(t.contains(dt[i - 1]));
                }
            }
            assert forall|i: int| 0 <= i < d.len() - 1 implies #[trigger] d[i].end
                <= d[i + 1].start by {
                if i == 0 {
                    assert(d[0] == s[0] && d[1] == dt[0]);
                    assert(dt[0].start >= t[0].start);
                } else {
                    assert(d[i] == dt[i - 1] && d[i + 1] == dt[i]);
                    assert(dt[i - 1].end <= dt[i].start);
                }
            }
        }
    }
}


/// The diagnostics that a token sequence's `Unknown` tokens deserve, in
/// order: one per token, naming its text and position.
pub open spec fn sp_lexer_errors(src: Seq<u8>, toks: Seq<STok>) -> Seq<SDiag>
    decreases toks.len(),
{
    if toks.len() == 0 {
        Seq::empty()
    } else {
        let head: Seq<SDiag> = if toks[0].kind == TokenKind::Unknown {
            seq![SDiag {
                msg: msg_invalid_token(lit_of(src, toks[0])),
                line: toks[0].line,
                col: col_end(src, toks[0]),
            }]
        } else {
            Seq::empty()
        };
        head + sp_lexer_errors(src, toks.drop_first())
    }
}

/// Turns every `Unknown` token into its diagnostic: the lexer itself never
/// fails, and this is the classification step its caller owes.
pub fn get_lexer_errors(src: &str, tokens: &[Token]) -> (r: Vec<DiagnosticError>)
    requires
        forall|i: int| 0 <= i < tokens@.len() ==> token_byte_facts(
            src.spec_bytes(),
            (#[trigger] tokens@[i])@,
        ),
    ensures
        r@.map_values(|d: DiagnosticError| d@) == sp_lexer_errors(
            src.spec_bytes(),
            tokens@.map_values(|t: Token| t@),
        ),
{
    let bytes = src.as_bytes();
    let ghost toks = tokens@.map_values(|t: Token| t@);
    let mut errors: Vec<DiagnosticError> = Vec::new();
    let mut i: usize = 0;
    proof {
        assert(toks.skip(0) =~= toks);
        assert(errors@.map_values(|d: DiagnosticError| d@) + sp_lexer_errors(bytes@, toks)
            =~= sp_lexer_errors(bytes@, toks));
    }
    while i < tokens.len()
        invariant
            0 <= i <= tokens@.len(),
            toks == tokens@.map_values(|t: Token| t@),
            bytes@ == src.spec_bytes(),
            forall|k: int| 0 <= k < tokens@.len() ==> token_byte_facts(
                bytes@,
                (#[trigger] tokens@[k])@,
            ),
            errors@.map_values(|d: DiagnosticError| d@) + sp_lexer_errors(
                bytes@,
                toks.skip(i as int),
            ) =~= sp_lexer_errors(bytes@, toks),
        decreases tokens@.len() - i,
    {
        let ghost em = errors@.map_values(|d: DiagnosticError| d@);
        proof {
            assert(toks.skip(i as int)[0] == toks[i as int]);
            assert(toks.skip(i as int).drop_first() =~= toks.skip(i as int + 1));
        }
        let tok = tokens[i];
        if matches!(tok.kind(), TokenKind::Unknown) {
            let info = token_info(bytes, &tok);
            errors.push(DiagnosticError::new(
                fmt_invalid_token(info.literal.as_slice()),
                info.line,
                info.column,
            ));
            proof {
                assert(errors@.map_values(|d: DiagnosticError| d@)
                    =~= em + seq![SDiag {
                        msg: msg_invalid_token(lit_of(bytes@, toks[i as int])),
                        line: toks[i as int].line,
                        col: col_end(bytes@, toks[i as int]),
                    }]);
                assert((em + seq![SDiag {
                    msg: msg_invalid_token(lit_of(bytes@, toks[i as int])),
                    line: toks[i as int].line,
                    col: col_end(bytes@, toks[i as int]),
                }]) + sp_lexer_errors(bytes@, toks.skip(i as int + 1))
                    =~= em + sp_lexer_errors(bytes@, toks.skip(i as int)));
            }
        }
        i = i + 1;
    }
    proof {
        assert(sp_lexer_errors(bytes@, toks.skip(toks.len() as int)) =~= Seq::<SDiag>::empty());
        assert(errors@.map_values(|d: DiagnosticError| d@) + Seq::<SDiag>::empty()
            =~= errors@.map_values(|d: DiagnosticError| d@));
    }
    errors
}


fn is_digit_ex(b: u8) -> (r: bool)
    ensures
        r == is_digit(b),
{
    48 <= b && b <= 57
}

fn is_letter_ex(b: u8) -> (r: bool)
    ensures
        r == is_letter(b),
{
    (65 <= b && b <= 90) || (97 <= b && b <= 122)
}

fn is_space_ex(b: u8) -> (r: bool)
    ensures
        r == is_space(b),
{
    b == 9 || b == 10 || b == 12 || b == 13 || b == 32
}

fn is_linebreak_ex(b: u8) -> (r: bool)
    ensures
        r == is_linebreak(b),
{
    b == 10 || b == 13
}

fn punct_kind_ex(b: u8) -> (r: Option<TokenKind>)
    ensures
        r == punct_kind(b),
{
    if b == 61 {
        Some(TokenKind::Equal)
    } else if b == 40 {
        Some(TokenKind::LeftParen)
    } else if b == 41 {
        Some(TokenKind::RightParen)
    } else if b == 42 {
        Some(TokenKind::Star)
    } else if b == 43 {
        Some(TokenKind::Plus)
    } else if b == 45 {
        Some(TokenKind::Minus)
    } else if b == 59 {
        Some(TokenKind::Semicolon)
    } else {
        None
    }
}

fn run_pred_ex(b0: u8, b: u8) -> (r: bool)
    ensures
        r == run_pred(b0, b),
{
    if is_digit_ex(b0) {
        is_digit_ex(b)
    } else if is_letter_ex(b0) {
        is_letter_ex(b) || is_digit_ex(b) || b == 95
    } else if is_space_ex(b0) {
        is_space_ex(b)
    } else {
        !is_digit_ex(b) && !is_letter_ex(b) && !is_space_ex(b) && punct_kind_ex(b).is_none()
    }
}

/// The lexer: a cursor over the input bytes, a line counter, and a flag that
/// records whether the final `EndOfFile` token has been handed out.
pub struct Lexer<'a> {
    src: &'a [u8],
    curr: usize,
    is_eof: bool,
    line_number: usize,
}

impl<'a> Lexer<'a> {
    /// The input bytes.
    pub closed spec fn src_bytes(&self) -> Seq<u8> {
        self.src@
    }

    /// Well-formedness: the cursor stays within the input and the line
    /// counter equals one plus the line breaks passed so far.
    pub closed spec fn wf(&self) -> bool {
        &&& self.curr <= self.src@.len() < usize::MAX
        &&& self.line_number as int == 1 + count_linebreaks(self.src@, 0, self.curr as int)
    }

    /// The tokens this lexer has yet to produce.
    pub closed spec fn remaining(&self) -> Seq<STok> {
        if self.is_eof {
            Seq::empty()
        } else {
            spec_lex_from(self.src@, self.curr as int, self.line_number as int)
        }
    }

    /// Creates a lexer over the bytes of a string slice.
    pub fn new(src: &'a str) -> (l: Lexer<'a>)
        requires
            src.spec_bytes().len() < usize::MAX,
        ensures
            l.wf(),
            l.src_bytes() == src.spec_bytes(),
            l.remaining() == spec_lex_from(src.spec_bytes(), 0, 1),
    {
        Self::from_bytes(src.as_bytes())
    }

    /// Creates a lexer over a byte slice.
    pub fn from_bytes(src: &'a [u8]) -> (l: Lexer<'a>)
        requires
            src@.len() < usize::MAX,
        ensures
            l.wf(),
            l.src_bytes() == src@,
            l.remaining() == spec_lex_from(src@, 0, 1),
    {
        Lexer { src, curr: 0, is_eof: false, line_number: 1 }
    }

    // Consumes the maximal run continuing the class of `b0`, counting the
    // line breaks it passes.
    fn scan_run(&mut self, b0: u8)
        requires
            old(self).wf(),
        ensures
            final(self).wf(),
            final(self).src == old(self).src,
            final(self).is_eof == old(self).is_eof,
            final(self).curr as int == ext_run(old(self).src@, old(self).curr as int, b0),
            final(self).line_number as int == old(self).line_number
                + count_linebreaks(old(self).src@, old(self).curr as int, final(self).curr as int),
            old(self).curr <= final(self).curr <= old(self).src@.len(),
    {
        let ghost src = self.src@;
        let ghost c0 = self.curr as int;
        proof {
            lemma_ext_run(src, c0, b0);
        }
        while self.curr < self.src.len() && run_pred_ex(b0, self.src[self.curr])
            invariant
                self.src@ == src,
                self.is_eof == old(self).is_eof,
                c0 <= self.curr as int <= src.len() < usize::MAX,
                ext_run(src, self.curr as int, b0) == ext_run(src, c0, b0),
                self.line_number as int == old(self).line_number
                    + count_linebreaks(src, c0, self.curr as int),
                self.line_number as int == 1 + count_linebreaks(src, 0, self.curr as int),
            decreases src.len() - self.curr,
        {
            let ghost c = self.curr as int;
            proof {
                assert(count_linebreaks(src, c + 1, c + 1) == 0);
                lemma_count_linebreaks_split(src, c0, c, c + 1);
                lemma_count_linebreaks_split(src, 0, c, c + 1);
                lemma_count_linebreaks_bound(src, 0, c);
            }
            if is_linebreak_ex(self.src[self.curr]) {
                self.line_number = self.line_number + 1;
            }
            self.curr = self.curr + 1;
        }
        proof {
            lemma_count_linebreaks_split(src, c0, self.curr as int, self.curr as int);
        }
    }

    /// Produces the next token: the head of [`Lexer::remaining`], or `None`
    /// once the `EndOfFile` token has been handed out.
    pub fn lex_token(&mut self) -> (r: Option<Token>)
        requires
            old(self).wf(),
        ensures
            final(self).wf(),
            final(self).src_bytes() == old(self).src_bytes(),
            old(self).remaining().len() == 0 ==> r is None
                && final(self).remaining().len() == 0,
            old(self).remaining().len() > 0 ==> (r matches Some(t)
                && t@ == old(self).remaining()[0]
                && final(self).remaining() == old(self).remaining().drop_first()),
    {
        let ghost src = self.src@;
        if self.is_eof {
            return None;
        }
        if self.curr >= self.src.len() {
            self.is_eof = true;
            let t = Token::new(TokenKind::EndOfFile, self.curr..self.curr, self.line_number);
            proof {
                assert(old(self).remaining() == seq![t@]);
                assert(old(self).remaining().drop_first() =~= Seq::<STok>::empty());
            }
            return Some(t);
        }
        let start = self.curr;
        let line0 = self.line_number;
        let b = self.src[self.curr];
        let ghost pos = start as int;
        let kind: TokenKind;
        match punct_kind_ex(b) {
            Some(k) => {
                kind = k;
                proof {
                    assert(count_linebreaks(src, pos + 1, pos + 1) == 0);
                    lemma_count_linebreaks_split(src, 0, pos, pos + 1);
                    assert(count_linebreaks(src, pos, pos + 1) == 0);
                }
                self.curr = self.curr + 1;
            },
            None => {
                kind = if is_digit_ex(b) {
                    TokenKind::Literal
                } else if is_letter_ex(b) {
                    TokenKind::Identifier
                } else if is_space_ex(b) {
                    TokenKind::Whitespace
                } else {
                    TokenKind::Unknown
                };
                proof {
                    assert(run_pred(b, b));
                    assert(token_end(src, pos) == ext_run(src, pos, b));
                }
                self.scan_run(b);
            },
        }
        let t = Token::new(kind, start..self.curr, line0);
        proof {
            assert(kind == token_kind_at(src, pos));
            assert(self.curr as int == token_end(src, pos));
            assert(old(self).remaining()
                == seq![t@] + spec_lex_from(src, self.curr as int, self.line_number as int));
            assert(old(self).remaining().drop_first() =~= self.remaining());
        }
        Some(t)
    }

    /// Lexes everything that remains into a vector of tokens, whitespace
    /// tokens included, ending with the `EndOfFile` token.
    pub fn lex_with_whitespace(&mut self) -> (tokens: Vec<Token>)
        requires
            old(self).wf(),
        ensures
            final(self).wf(),
            final(self).src_bytes() == old(self).src_bytes(),
            tokens@.map_values(|t: Token| t@) == old(self).remaining(),
            final(self).remaining().len() == 0,
    {
        let mut tokens: Vec<Token> = Vec::new();
        loop
            invariant
                self.wf(),
                self.src_bytes() == old(self).src_bytes(),
                old(self).remaining() =~= tokens@.map_values(|t: Token| t@) + self.remaining(),
            ensures
                self.remaining().len() == 0,
            decreases self.remaining().len(),
        {
            let ghost before = self.remaining();
            let ghost toks_before = tokens@;
            match self.lex_token() {
                Some(t) => {
                    tokens.push(t);
                    proof {
                        assert(tokens@.map_values(|x: Token| x@)
                            =~= toks_before.map_values(|x: Token| x@).push(t@));
                        assert(toks_before.map_values(|x: Token| x@).push(t@) + self.remaining()
                            =~= toks_before.map_values(|x: Token| x@) + before);
                    }
                },
                None => {
                    break;
                },
            }
        }
        proof {
            assert(tokens@.map_values(|t: Token| t@) + self.remaining()
                =~= tokens@.map_values(|t: Token| t@));
        }
        tokens
    }

    /// Lexes everything that remains into a vector of tokens, dropping
    /// `Whitespace` tokens; the final `EndOfFile` token is kept.
    pub fn lex(&mut self) -> (tokens: Vec<Token>)
        requires
            old(self).wf(),
        ensures
            final(self).wf(),
            final(self).src_bytes() == old(self).src_bytes(),
            tokens@.map_values(|t: Token| t@) == drop_ws(old(self).remaining()),
            final(self).remaining().len() == 0,
    {
        let mut tokens: Vec<Token> = Vec::new();
        loop
            invariant
                self.wf(),
                self.src_bytes() == old(self).src_bytes(),
                drop_ws(old(self).remaining())
                    =~= tokens@.map_values(|t: Token| t@) + drop_ws(self.remaining()),
            ensures
                self.remaining().len() == 0,
            decreases self.remaining().len(),
        {
            let ghost before = self.remaining();
            let ghost toks_before = tokens@;
            match self.lex_token() {
                Some(t) => {
                    proof {
                        assert(before[0] == t@ && self.remaining() == before.drop_first());
                    }
                    if !matches!(t.kind(), TokenKind::Whitespace) {
                        tokens.push(t);
                        proof {
                            assert(drop_ws(before) == seq![t@] + drop_ws(before.drop_first()));
                            assert(tokens@.map_values(|x: Token| x@)
                                =~= toks_before.map_values(|x: Token| x@).push(t@));
                            assert(toks_before.map_values(|x: Token| x@).push(t@)
                                + drop_ws(self.remaining())
                                =~= toks_before.map_values(|x: Token| x@) + drop_ws(before));
                        }
                    } else {
                        proof {
                            assert(drop_ws(before) == drop_ws(before.drop_first()));
                        }
                    }
                },
                None => {
                    break;
                },
            }
        }
        proof {
            assert(drop_ws(Seq::<STok>::empty()) =~= Seq::<STok>::empty());
            assert(tokens@.map_values(|t: Token| t@) + drop_ws(self.remaining())
                =~= tokens@.map_values(|t: Token| t@));
        }
        tokens
    }
}

} // verus!
