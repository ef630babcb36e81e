//! The parser: recursive descent over the token sequence with local error
//! recovery, so that one pass surfaces every defect.
//!
//! Grammar:
//! ```text
//! Program    := Assignment*
//! Assignment := Identifier '=' Expression ';'
//! Expression := Term (('+' | '-') Term)*
//! Term       := Fact ('*' Fact)*
//! Fact       := Literal | Identifier | '(' Expression ')' | ('+' | '-') Fact
//! ```
//! Left-associativity of `+`, `-` and `*` comes from left-folding repeated
//! matches into nested `Term` nodes; precedence is structural.
//!
//! Recovery rules: a missing identifier or missing `=` is reported without
//! consuming the offending token; an invalid integer literal — a leading
//! zero or a value beyond the integer range — is reported, consumed, and
//! continues as a dummy literal of zero so the surrounding construction
//! goes on; a failed expression is reported and the cursor steps back one
//! token — unless that would return it to the start of the current
//! assignment, which guarantees forward progress — so that a later rule
//! can reuse the token; a missing `;` is reported pointing just past the
//! expression; inside a fact an unexpected token is consumed. An
//! assignment joins the program only when both its identifier and its
//! expression parsed; its diagnostics are kept either way.
//!
//! The whole behavior of the parser, including every diagnostic's message,
//! line and column, is specified by the `sp_*` functions below, and each
//! executable method is proved to follow them exactly.

use vstd::prelude::*;
use vstd::string::StringSliceAdditionalSpecFns;
use crate::error::{DiagnosticError, SDiag};
use crate::lexer::{Lexer, is_digit, token_byte_facts, spec_lex_from, drop_ws,
    lemma_spec_lex_wf, lemma_drop_ws_wf};
use crate::messages::{msg_expected_identifier, msg_expected_equal_found, msg_expected_equal,
    msg_expected_semicolon, msg_leading_zero, msg_out_of_range, msg_expected_fact,
    msg_expected_rparen, fmt_expected_identifier, fmt_expected_equal_found, fmt_expected_equal,
    fmt_expected_semicolon, fmt_leading_zero, fmt_out_of_range, fmt_expected_fact,
    fmt_expected_rparen};
use crate::node::{Node, SNode, IdentifierNode, LiteralNode, Operator, nodes_view, node_view,
    wf_expr, wf_stmt, wf_program, lemma_nodes_view_push};
use crate::token::{Token, TokenKind, STok};
use crate::util::{token_info, linebreak_index, spec_linebreak_index,
    lemma_linebreak_index_le, lit_of, col_end, col_after, col_start};

verus! {

/// A well-formed token sequence over source `src`: at least one token,
/// exactly the last one `EndOfFile` and empty at the input's byte length,
/// every span within the input and non-overlapping in source order, and
/// every `Literal` token nonempty and made of digits (see
/// [`token_byte_facts`]). Lexing always produces such a sequence
/// ([`lemma_lex_tokens_wf`]).
pub open spec fn wf_tokens(src: Seq<u8>, toks: Seq<STok>) -> bool {
    &&& src.len() < usize::MAX
    &&& toks.len() >= 1
    &&& toks[toks.len() - 1].kind == TokenKind::EndOfFile
    &&& toks[toks.len() - 1].start == src.len()
    &&& toks[toks.len() - 1].end == src.len()
    &&& (forall|i: int| 0 <= i < toks.len() - 1 ==> (#[trigger] toks[i]).kind
        != TokenKind::EndOfFile)
    &&& (forall|i: int| 0 <= i < toks.len() ==> token_byte_facts(src, #[trigger] toks[i]))
    &&& (forall|i: int| 0 <= i < toks.len() - 1 ==> #[trigger] adjacent_spans_ordered(toks, i))
}

/// Whether the token at `i` ends no later than the next one starts.
pub open spec fn adjacent_spans_ordered(toks: Seq<STok>, i: int) -> bool {
    toks[i].end <= toks[i + 1].start
}

/// The value of a digit string, most significant digit first.
pub open spec fn digits_val(b: Seq<u8>) -> int
    decreases b.len(),
{
    if b.len() == 0 {
        0
    } else {
        digits_val(b.drop_last()) * 10 + (b.last() - 48)
    }
}

/// The outcome of parsing one grammar production: the cursor afterwards,
/// the diagnostics recovered from along the way (invalid literals, which
/// continue as a dummy zero), and either the node built or the diagnostic
/// that ended the production.
pub ghost struct PRes {
    pub pos: int,
    pub diags: Seq<SDiag>,
    pub res: Result<SNode, SDiag>,
}

/// The outcome of one assignment attempt: the cursor afterwards, the
/// assignment if both its parts parsed, and the diagnostics raised.
pub ghost struct StepRes {
    pub pos: int,
    pub asg: Option<SNode>,
    pub diags: Seq<SDiag>,
}

/// The outcome of parsing a whole program: the cursor afterwards, the
/// assignments built, and all diagnostics in source order.
pub ghost struct ProgRes {
    pub pos: int,
    pub stmts: Seq<SNode>,
    pub diags: Seq<SDiag>,
}

/// A placeholder diagnostic for cursor positions that no well-formed token
/// sequence can reach; it keeps the spec functions total.
pub open spec fn dummy_diag() -> SDiag {
    SDiag { msg: Seq::empty(), line: 0, col: 0 }
}

/// Clamps a successor cursor into `(pos, len]`, keeping the spec functions'
/// recursion well founded; on every reachable path it is the identity.
pub open spec fn next_pos(pos: int, q: int, len: int) -> int {
    let capped = if q > len { len } else { q };
    if capped <= pos {
        pos + 1
    } else {
        capped
    }
}

/// The identifier node a token denotes.
pub open spec fn ident_node_of(src: Seq<u8>, t: STok) -> SNode {
    SNode::Identifier { name: lit_of(src, t), start: t.start, end: t.end, line: t.line }
}

/// Parsing a `Fact` at `pos`. An invalid integer literal — a multi-digit
/// one with a leading zero, or one beyond `i64::MAX` — is consumed, its
/// diagnostic is recorded, and parsing continues with a dummy literal of
/// zero; every other defect ends the production.
pub open spec fn sp_fact(src: Seq<u8>, toks: Seq<STok>, pos: int) -> PRes
    decreases toks.len() - pos, 0int,
{
    if !(0 <= pos < toks.len()) {
        PRes { pos, diags: Seq::empty(), res: Err(dummy_diag()) }
    } else {
        let t = toks[pos];
        if t.kind == TokenKind::Literal {
            let lit = lit_of(src, t);
            if lit[0] == 48 && lit.len() > 1 {
                PRes {
                    pos: pos + 1,
                    diags: seq![SDiag {
                        msg: msg_leading_zero(lit),
                        line: t.line,
                        col: col_start(src, t),
                    }],
                    res: Ok(SNode::Literal(0)),
                }
            } else if digits_val(lit) > i64::MAX {
                PRes {
                    pos: pos + 1,
                    diags: seq![SDiag {
                        msg: msg_out_of_range(lit),
                        line: t.line,
                        col: col_start(src, t),
                    }],
                    res: Ok(SNode::Literal(0)),
                }
            } else {
                PRes {
                    pos: pos + 1,
                    diags: Seq::empty(),
                    res: Ok(SNode::Literal(digits_val(lit) as i64)),
                }
            }
        } else if t.kind == TokenKind::Identifier {
            PRes { pos: pos + 1, diags: Seq::empty(), res: Ok(ident_node_of(src, t)) }
        } else if t.kind == TokenKind::LeftParen {
            let e = sp_expr(src, toks, pos + 1);
            match e.res {
                Err(d) => PRes { pos: e.pos, diags: e.diags, res: Err(d) },
                Ok(n) => {
                    if 0 <= e.pos < toks.len() {
                        let t2 = toks[e.pos];
                        if t2.kind == TokenKind::RightParen {
                            PRes { pos: e.pos + 1, diags: e.diags, res: Ok(SNode::Fact(Box::new(n))) }
                        } else {
                            PRes {
                                pos: e.pos + 1,
                                diags: e.diags,
                                res: Err(SDiag {
                                    msg: msg_expected_rparen(lit_of(src, t2), lit_of(src, t2)),
                                    line: t2.line,
                                    col: col_end(src, t2),
                                }),
                            }
                        }
                    } else {
                        PRes { pos: e.pos, diags: e.diags, res: Err(dummy_diag()) }
                    }
                },
            }
        } else if t.kind == TokenKind::Minus {
            let f = sp_fact(src, toks, pos + 1);
            match f.res {
                Err(d) => PRes { pos: f.pos, diags: f.diags, res: Err(d) },
                Ok(n) => PRes {
                    pos: f.pos,
                    diags: f.diags,
                    res: Ok(SNode::Fact(Box::new(SNode::UnaryOperator(
                        Operator::Minus,
                        Box::new(n),
                    )))),
                },
            }
        } else if t.kind == TokenKind::Plus {
            let f = sp_fact(src, toks, pos + 1);
            match f.res {
                Err(d) => PRes { pos: f.pos, diags: f.diags, res: Err(d) },
                Ok(n) => PRes {
                    pos: f.pos,
                    diags: f.diags,
                    res: Ok(SNode::Fact(Box::new(SNode::UnaryOperator(
                        Operator::Plus,
                        Box::new(n),
                    )))),
                },
            }
        } else {
            let eof = t.kind == TokenKind::EndOfFile;
            PRes {
                pos: if eof { pos } else { pos + 1 },
                diags: Seq::empty(),
                res: Err(SDiag {
                    msg: msg_expected_fact(lit_of(src, t), t.kind),
                    line: t.line,
                    col: if eof { col_end(src, t) + 1 } else { col_end(src, t) },
                }),
            }
        }
    }
}

/// Left-folding `'*' Fact` repetitions onto `acc`.
pub open spec fn sp_term_chain(src: Seq<u8>, toks: Seq<STok>, pos: int, acc: SNode) -> PRes
    decreases toks.len() - pos, 2int,
{
    if !(0 <= pos < toks.len()) {
        PRes { pos, diags: Seq::empty(), res: Ok(acc) }
    } else if toks[pos].kind == TokenKind::Star {
        let f = sp_fact(src, toks, pos + 1);
        match f.res {
            Err(d) => PRes { pos: f.pos, diags: f.diags, res: Err(d) },
            Ok(rhs) => {
                let rest = sp_term_chain(
                    src,
                    toks,
                    next_pos(pos, f.pos, toks.len() as int),
                    SNode::Term(Box::new(acc), Operator::Multiply, Box::new(rhs)),
                );
                PRes { pos: rest.pos, diags: f.diags + rest.diags, res: rest.res }
            },
        }
    } else {
        PRes { pos, diags: Seq::empty(), res: Ok(acc) }
    }
}

/// Parsing a `Term` at `pos`: a `Fact` followed by `'*' Fact` repetitions.
pub open spec fn sp_term(src: Seq<u8>, toks: Seq<STok>, pos: int) -> PRes
    decreases toks.len() - pos, 1int,
{
    if !(0 <= pos < toks.len()) {
        PRes { pos, diags: Seq::empty(), res: Err(dummy_diag()) }
    } else {
        let f = sp_fact(src, toks, pos);
        match f.res {
            Err(d) => PRes { pos: f.pos, diags: f.diags, res: Err(d) },
            Ok(n) => {
                let c = sp_term_chain(src, toks, next_pos(pos, f.pos, toks.len() as int), n);
                PRes { pos: c.pos, diags: f.diags + c.diags, res: c.res }
            },
        }
    }
}

/// Left-folding `('+'|'-') Term` repetitions onto `acc`.
pub open spec fn sp_expr_chain(src: Seq<u8>, toks: Seq<STok>, pos: int, acc: SNode) -> PRes
    decreases toks.len() - pos, 4int,
{
    if !(0 <= pos < toks.len()) {
        PRes { pos, diags: Seq::empty(), res: Ok(acc) }
    } else if toks[pos].kind == TokenKind::Plus || toks[pos].kind == TokenKind::Minus {
        let op = if toks[pos].kind == TokenKind::Plus { Operator::Plus } else { Operator::Minus };
        let t = sp_term(src, toks, pos + 1);
        match t.res {
            Err(d) => PRes { pos: t.pos, diags: t.diags, res: Err(d) },
            Ok(rhs) => {
                let rest = sp_expr_chain(
                    src,
                    toks,
                    next_pos(pos, t.pos, toks.len() as int),
                    SNode::Term(Box::new(acc), op, Box::new(rhs)),
                );
                PRes { pos: rest.pos, diags: t.diags + rest.diags, res: rest.res }
            },
        }
    } else {
        PRes { pos, diags: Seq::empty(), res: Ok(acc) }
    }
}

/// Parsing an `Expression` at `pos`: a `Term` followed by `('+'|'-') Term`
/// repetitions, wrapped once in an `Expression` node.
pub open spec fn sp_expr(src: Seq<u8>, toks: Seq<STok>, pos: int) -> PRes
    decreases toks.len() - pos, 3int,
{
    if !(0 <= pos < toks.len()) {
        PRes { pos, diags: Seq::empty(), res: Err(dummy_diag()) }
    } else {
        let t = sp_term(src, toks, pos);
        match t.res {
            Err(d) => PRes { pos: t.pos, diags: t.diags, res: Err(d) },
            Ok(n) => {
                let c = sp_expr_chain(src, toks, next_pos(pos, t.pos, toks.len() as int), n);
                match c.res {
                    Err(d) => PRes { pos: c.pos, diags: t.diags + c.diags, res: Err(d) },
                    Ok(m) => PRes {
                        pos: c.pos,
                        diags: t.diags + c.diags,
                        res: Ok(SNode::Expression(Box::new(m))),
                    },
                }
            },
        }
    }
}


/// Whether a `Literal` token denotes a valid integer: no leading zero on a
/// multi-digit literal, and a value within `i64`.
pub open spec fn valid_literal(src: Seq<u8>, t: STok) -> bool {
    let lit = lit_of(src, t);
    !(lit[0] == 48 && lit.len() > 1) && digits_val(lit) <= i64::MAX
}

/// A derivation tree of the grammar, the witness that a token range
/// conforms to a production (see [`derives_program`]).
pub ghost enum GDeriv {
    /// `Fact := Literal`
    FactLit,
    /// `Fact := Identifier`
    FactIdent,
    /// `Fact := '(' Expression ')'`
    FactParen(Box<GDeriv>),
    /// `Fact := ('+'|'-') Fact`
    FactUnary(Box<GDeriv>),
    /// `Term := Fact`
    TermLast(Box<GDeriv>),
    /// `Term := Fact '*' Term`, the `*` standing at the split index
    TermMore(Box<GDeriv>, int, Box<GDeriv>),
    /// `Expression := Term`
    ExprLast(Box<GDeriv>),
    /// `Expression := Term ('+'|'-') Expression`, the operator at the split
    ExprMore(Box<GDeriv>, int, Box<GDeriv>),
    /// `Assignment := Identifier '=' Expression ';'`
    Stmt(Box<GDeriv>),
    /// `Program := ` (empty)
    ProgEmpty,
    /// `Program := Assignment Program`, the assignment ending at the split
    ProgMore(int, Box<GDeriv>, Box<GDeriv>),
}

/// `d` derives `toks[i..j)` as a `Fact`.
pub open spec fn derives_fact(src: Seq<u8>, toks: Seq<STok>, i: int, j: int, d: GDeriv) -> bool
    decreases d,
{
    match d {
        GDeriv::FactLit => i < j && j == i + 1 && toks[i].kind == TokenKind::Literal
            && valid_literal(src, toks[i]),
        GDeriv::FactIdent => i < j && j == i + 1 && toks[i].kind == TokenKind::Identifier,
        GDeriv::FactParen(e) => i < j && toks[i].kind == TokenKind::LeftParen && toks[j - 1].kind
            == TokenKind::RightParen && derives_expr(src, toks, i + 1, j - 1, *e),
        GDeriv::FactUnary(f) => i < j && (toks[i].kind == TokenKind::Minus || toks[i].kind
            == TokenKind::Plus) && derives_fact(src, toks, i + 1, j, *f),
        _ => false,
    }
}

/// `d` derives `toks[i..j)` as a `Term`.
pub open spec fn derives_term(src: Seq<u8>, toks: Seq<STok>, i: int, j: int, d: GDeriv) -> bool
    decreases d,
{
    match d {
        GDeriv::TermLast(f) => derives_fact(src, toks, i, j, *f),
        GDeriv::TermMore(f, m, rest) => i < m < j && derives_fact(src, toks, i, m, *f)
            && toks[m].kind == TokenKind::Star && derives_term(src, toks, m + 1, j, *rest),
        _ => false,
    }
}

/// `d` derives `toks[i..j)` as an `Expression`.
pub open spec fn derives_expr(src: Seq<u8>, toks: Seq<STok>, i: int, j: int, d: GDeriv) -> bool
    decreases d,
{
    match d {
        GDeriv::ExprLast(t) => derives_term(src, toks, i, j, *t),
        GDeriv::ExprMore(t, m, rest) => i < m < j && derives_term(src, toks, i, m, *t)
            && (toks[m].kind == TokenKind::Plus || toks[m].kind == TokenKind::Minus)
            && derives_expr(src, toks, m + 1, j, *rest),
        _ => false,
    }
}

/// `d` derives `toks[i..j)` as an `Assignment`.
pub open spec fn derives_stmt(src: Seq<u8>, toks: Seq<STok>, i: int, j: int, d: GDeriv) -> bool
    decreases d,
{
    match d {
        GDeriv::Stmt(e) => {
            &&& i + 2 < j
            &&& toks[i].kind == TokenKind::Identifier
            &&& toks[i + 1].kind == TokenKind::Equal
            &&& toks[j - 1].kind == TokenKind::Semicolon
            &&& derives_expr(src, toks, i + 2, j - 1, *e)
        },
        _ => false,
    }
}

/// `d` derives `toks[i..j)` as a `Program`: zero or more assignments, one
/// per `;`-terminated statement. A token sequence some derivation derives
/// is syntactically clean.
pub open spec fn derives_program(src: Seq<u8>, toks: Seq<STok>, i: int, j: int, d: GDeriv) -> bool
    decreases d,
{
    match d {
        GDeriv::ProgEmpty => i == j,
        GDeriv::ProgMore(m, st, rest) => i < m <= j && derives_stmt(src, toks, i, m, *st)
            && derives_program(src, toks, m, j, *rest),
        _ => false,
    }
}

/// The identifier-stage diagnostics of one assignment attempt at `pos`.
pub open spec fn step_d_id(src: Seq<u8>, toks: Seq<STok>, pos: int) -> Seq<SDiag> {
    let t0 = toks[pos];
    if t0.kind == TokenKind::Identifier {
        Seq::empty()
    } else {
        seq![SDiag {
            msg: msg_expected_identifier(lit_of(src, t0), t0.kind),
            line: t0.line,
            col: col_end(src, t0),
        }]
    }
}

/// The cursor after the identifier stage.
pub open spec fn step_p1(toks: Seq<STok>, pos: int) -> int {
    if toks[pos].kind == TokenKind::Identifier { pos + 1 } else { pos }
}

/// The equal-sign-stage diagnostics.
pub open spec fn step_d_eq(src: Seq<u8>, toks: Seq<STok>, pos: int) -> Seq<SDiag> {
    let t0 = toks[pos];
    let t1 = toks[step_p1(toks, pos)];
    if t1.kind == TokenKind::Equal {
        Seq::empty()
    } else if t1.kind != TokenKind::EndOfFile {
        seq![SDiag {
            msg: msg_expected_equal_found(lit_of(src, t1), t1.kind),
            line: t0.line,
            col: if t1.line == t0.line {
                t1.start + 1 - spec_linebreak_index(src, t0.start)
            } else {
                t0.end + 1 - spec_linebreak_index(src, t0.start)
            },
        }]
    } else {
        seq![SDiag {
            msg: msg_expected_equal(),
            line: t0.line,
            col: t0.end + 1 - spec_linebreak_index(src, t0.start),
        }]
    }
}

/// The cursor after the equal-sign stage: where the expression starts.
pub open spec fn step_p2(toks: Seq<STok>, pos: int) -> int {
    let p1 = step_p1(toks, pos);
    if toks[p1].kind == TokenKind::Equal { p1 + 1 } else { p1 }
}

/// The expression-stage outcome.
pub open spec fn step_er(src: Seq<u8>, toks: Seq<STok>, pos: int) -> PRes {
    sp_expr(src, toks, step_p2(toks, pos))
}

/// Whether recovery steps the cursor back one token after a failed
/// expression: not when it rests on `EndOfFile` or `;`, and never back to
/// the assignment's own start.
pub open spec fn step_rewind(src: Seq<u8>, toks: Seq<STok>, pos: int) -> bool {
    let er = step_er(src, toks, pos);
    (er.pos >= toks.len() || (toks[er.pos].kind != TokenKind::EndOfFile
        && toks[er.pos].kind != TokenKind::Semicolon)) && er.pos - 1 > pos
}

/// The cursor after the expression stage, recovery included.
pub open spec fn step_p3(src: Seq<u8>, toks: Seq<STok>, pos: int) -> int {
    let er = step_er(src, toks, pos);
    match er.res {
        Ok(_) => er.pos,
        Err(_) => if step_rewind(src, toks, pos) { er.pos - 1 } else { er.pos },
    }
}

/// The expression-stage diagnostics: those recovered inside the
/// expression, then the one that ended it, if any did.
pub open spec fn step_d_ex(src: Seq<u8>, toks: Seq<STok>, pos: int) -> Seq<SDiag> {
    let er = step_er(src, toks, pos);
    er.diags + (match er.res {
        Ok(_) => Seq::empty(),
        Err(d) => seq![d],
    })
}

/// The cursor after the semicolon stage: the end of the attempt.
pub open spec fn step_p4(src: Seq<u8>, toks: Seq<STok>, pos: int) -> int {
    let p3 = step_p3(src, toks, pos);
    if toks[p3].kind == TokenKind::Semicolon { p3 + 1 } else { p3 }
}

/// The semicolon-stage diagnostics, pointing just past the last token the
/// expression consumed.
pub open spec fn step_d_semi(src: Seq<u8>, toks: Seq<STok>, pos: int) -> Seq<SDiag> {
    let p3 = step_p3(src, toks, pos);
    let prev = toks[p3 - 1];
    let t3 = toks[p3];
    if t3.kind == TokenKind::Semicolon {
        Seq::empty()
    } else {
        seq![SDiag {
            msg: msg_expected_semicolon(lit_of(src, prev), lit_of(src, t3), t3.kind),
            line: prev.line,
            col: col_after(src, prev),
        }]
    }
}

/// The assignment built, if both the identifier and the expression parsed.
pub open spec fn step_asg(src: Seq<u8>, toks: Seq<STok>, pos: int) -> Option<SNode> {
    let t0 = toks[pos];
    match step_er(src, toks, pos).res {
        Ok(e) => if t0.kind == TokenKind::Identifier {
            Some(SNode::Assignment(Box::new(ident_node_of(src, t0)), Box::new(e)))
        } else {
            None
        },
        Err(_) => None,
    }
}

/// One assignment attempt at `pos` (where the current token is not
/// `EndOfFile`): identifier, `=`, expression, `;`, with the recovery rules
/// described at the top of this module, composed from the `step_*` stages.
pub open spec fn sp_step(src: Seq<u8>, toks: Seq<STok>, pos: int) -> StepRes {
    StepRes {
        pos: step_p4(src, toks, pos),
        asg: step_asg(src, toks, pos),
        diags: step_d_id(src, toks, pos) + step_d_eq(src, toks, pos) + step_d_ex(src, toks, pos)
            + step_d_semi(src, toks, pos),
    }
}

/// The number of tokens of kind `k` in `toks[i..j)`.
pub open spec fn count_kind(toks: Seq<STok>, k: TokenKind, i: int, j: int) -> int
    decreases j - i,
{
    if i >= j {
        0
    } else {
        (if 0 <= i < toks.len() && toks[i].kind == k { 1int } else { 0int })
            + count_kind(toks, k, i + 1, j)
    }
}

/// Counting tokens of a kind splits over adjacent intervals.
pub proof fn lemma_count_kind_split(toks: Seq<STok>, k: TokenKind, i: int, j: int, l: int)
    requires
        i <= j <= l,
    ensures
        count_kind(toks, k, i, l) == count_kind(toks, k, i, j) + count_kind(toks, k, j, l),
    decreases j - i,
{
    if i < j {
        lemma_count_kind_split(toks, k, i + 1, j, l);
    }
}

/// What parsing a `Fact` guarantees: the cursor never moves backwards nor
/// past the end; on success it moves strictly forward, stays on a token,
/// builds a well-formed expression and consumes no semicolon; a failure
/// that leaves the cursor in place happens only at `EndOfFile`.
pub proof fn lemma_fact_props(src: Seq<u8>, toks: Seq<STok>, pos: int)
    requires
        wf_tokens(src, toks),
        0 <= pos < toks.len(),
    ensures
        ({
            let r = sp_fact(src, toks, pos);
            &&& pos <= r.pos <= toks.len()
            &&& (r.res matches Ok(n) ==> pos < r.pos <= toks.len() - 1 && wf_expr(src, n)
                && count_kind(toks, TokenKind::Semicolon, pos, r.pos) == 0)
            &&& (r.res is Err && r.pos == pos ==> toks[pos].kind == TokenKind::EndOfFile)
        }),
    decreases toks.len() - pos, 0int,
{
    let len = toks.len() as int;
    let t = toks[pos];
    assert(token_byte_facts(src, toks[pos]));
    if t.kind != TokenKind::EndOfFile {
        assert(pos != len - 1);
    }
    assert(count_kind(toks, TokenKind::Semicolon, pos + 1, pos + 1) == 0);
    if t.kind == TokenKind::Literal || t.kind == TokenKind::Identifier {
        // single-token cases
    } else if t.kind == TokenKind::LeftParen {
        lemma_expr_props(src, toks, pos + 1);
        let e = sp_expr(src, toks, pos + 1);
        match e.res {
            Err(_) => {},
            Ok(_) => {
                let t2 = toks[e.pos];
                assert(token_byte_facts(src, toks[e.pos]));
                if t2.kind == TokenKind::RightParen {
                    assert(e.pos != len - 1);
                    lemma_count_kind_split(toks, TokenKind::Semicolon, pos, pos + 1, e.pos);
                    lemma_count_kind_split(toks, TokenKind::Semicolon, pos, e.pos, e.pos + 1);
                    assert(count_kind(toks, TokenKind::Semicolon, e.pos, e.pos + 1)
                        == 0 + count_kind(toks, TokenKind::Semicolon, e.pos + 1, e.pos + 1));
                }
            },
        }
    } else if t.kind == TokenKind::Minus || t.kind == TokenKind::Plus {
        lemma_fact_props(src, toks, pos + 1);
        let f = sp_fact(src, toks, pos + 1);
        match f.res {
            Err(_) => {},
            Ok(n) => {
                let op = if t.kind == TokenKind::Minus { Operator::Minus } else { Operator::Plus };
                let u = SNode::UnaryOperator(op, Box::new(n));
                assert(wf_expr(src, u));
                assert(wf_expr(src, SNode::Fact(Box::new(u))));
                lemma_count_kind_split(toks, TokenKind::Semicolon, pos, pos + 1, f.pos);
            },
        }
    } else {
        // unexpected token: consumed unless at EndOfFile
    }
}

/// What folding `'*' Fact` repetitions guarantees, given a well-formed
/// accumulator.
pub proof fn lemma_term_chain_props(src: Seq<u8>, toks: Seq<STok>, pos: int, acc: SNode)
    requires
        wf_tokens(src, toks),
        0 <= pos <= toks.len() - 1,
        wf_expr(src, acc),
    ensures
        ({
            let r = sp_term_chain(src, toks, pos, acc);
            &&& pos <= r.pos <= toks.len()
            &&& (r.res matches Ok(n) ==> pos <= r.pos <= toks.len() - 1 && wf_expr(src, n)
                && count_kind(toks, TokenKind::Semicolon, pos, r.pos) == 0)
            &&& (r.res is Err ==> pos < r.pos)
        }),
    decreases toks.len() - pos, 2int,
{
    let len = toks.len() as int;
    assert(count_kind(toks, TokenKind::Semicolon, pos, pos) == 0);
    if toks[pos].kind == TokenKind::Star {
        assert(pos != len - 1);
        lemma_fact_props(src, toks, pos + 1);
        let f = sp_fact(src, toks, pos + 1);
        match f.res {
            Err(_) => {},
            Ok(rhs) => {
                let acc2 = SNode::Term(Box::new(acc), Operator::Multiply, Box::new(rhs));
                lemma_term_chain_props(src, toks, f.pos, acc2);
                let r = sp_term_chain(src, toks, f.pos, acc2);
                if r.res is Ok {
                    lemma_count_kind_split(toks, TokenKind::Semicolon, pos, pos + 1, f.pos);
                    lemma_count_kind_split(toks, TokenKind::Semicolon, pos, f.pos, r.pos);
                }
            },
        }
    }
}

/// What parsing a `Term` guarantees; as [`lemma_fact_props`].
pub proof fn lemma_term_props(src: Seq<u8>, toks: Seq<STok>, pos: int)
    requires
        wf_tokens(src, toks),
        0 <= pos < toks.len(),
    ensures
        ({
            let r = sp_term(src, toks, pos);
            &&& pos <= r.pos <= toks.len()
            &&& (r.res matches Ok(n) ==> pos < r.pos <= toks.len() - 1 && wf_expr(src, n)
                && count_kind(toks, TokenKind::Semicolon, pos, r.pos) == 0)
            &&& (r.res is Err && r.pos == pos ==> toks[pos].kind == TokenKind::EndOfFile)
        }),
    decreases toks.len() - pos, 1int,
{
    lemma_fact_props(src, toks, pos);
    let f = sp_fact(src, toks, pos);
    match f.res {
        Err(_) => {},
        Ok(n) => {
            lemma_term_chain_props(src, toks, f.pos, n);
            let r = sp_term_chain(src, toks, f.pos, n);
            if r.res is Ok {
                lemma_count_kind_split(toks, TokenKind::Semicolon, pos, f.pos, r.pos);
            }
        },
    }
}

/// What folding `('+'|'-') Term` repetitions guarantees, given a
/// well-formed accumulator.
pub proof fn lemma_expr_chain_props(src: Seq<u8>, toks: Seq<STok>, pos: int, acc: SNode)
    requires
        wf_tokens(src, toks),
        0 <= pos <= toks.len() - 1,
        wf_expr(src, acc),
    ensures
        ({
            let r = sp_expr_chain(src, toks, pos, acc);
            &&& pos <= r.pos <= toks.len()
            &&& (r.res matches Ok(n) ==> pos <= r.pos <= toks.len() - 1 && wf_expr(src, n)
                && count_kind(toks, TokenKind::Semicolon, pos, r.pos) == 0)
            &&& (r.res is Err ==> pos < r.pos)
        }),
    decreases toks.len() - pos, 4int,
{
    let len = toks.len() as int;
    assert(count_kind(toks, TokenKind::Semicolon, pos, pos) == 0);
    if toks[pos].kind == TokenKind::Plus || toks[pos].kind == TokenKind::Minus {
        let op = if toks[pos].kind == TokenKind::Plus { Operator::Plus } else { Operator::Minus };
        assert(pos != len - 1);
        lemma_term_props(src, toks, pos + 1);
        let t = sp_term(src, toks, pos + 1);
        match t.res {
            Err(_) => {},
            Ok(rhs) => {
                let acc2 = SNode::Term(Box::new(acc), op, Box::new(rhs));
                lemma_expr_chain_props(src, toks, t.pos, acc2);
                let r = sp_expr_chain(src, toks, t.pos, acc2);
                if r.res is Ok {
                    lemma_count_kind_split(toks, TokenKind::Semicolon, pos, pos + 1, t.pos);
                    lemma_count_kind_split(toks, TokenKind::Semicolon, pos, t.pos, r.pos);
                }
            },
        }
    }
}

/// What parsing an `Expression` guarantees; as [`lemma_fact_props`].
pub proof fn lemma_expr_props(src: Seq<u8>, toks: Seq<STok>, pos: int)
    requires
        wf_tokens(src, toks),
        0 <= pos < toks.len(),
    ensures
        ({
            let r = sp_expr(src, toks, pos);
            &&& pos <= r.pos <= toks.len()
            &&& (r.res matches Ok(n) ==> pos < r.pos <= toks.len() - 1 && wf_expr(src, n)
                && count_kind(toks, TokenKind::Semicolon, pos, r.pos) == 0)
            &&& (r.res is Err && r.pos == pos ==> toks[pos].kind == TokenKind::EndOfFile)
        }),
    decreases toks.len() - pos, 3int,
{
    lemma_term_props(src, toks, pos);
    let t = sp_term(src, toks, pos);
    match t.res {
        Err(_) => {},
        Ok(n) => {
            lemma_expr_chain_props(src, toks, t.pos, n);
            let r = sp_expr_chain(src, toks, t.pos, n);
            if r.res is Ok {
                lemma_count_kind_split(toks, TokenKind::Semicolon, pos, t.pos, r.pos);
            }
        },
    }
}

/// What one assignment attempt guarantees: the cursor moves strictly
/// forward and stays on a token (the expression stage included); a
/// produced assignment is well formed; and an attempt without diagnostics
/// produces an assignment and consumes exactly one semicolon.
pub proof fn lemma_step_props(src: Seq<u8>, toks: Seq<STok>, pos: int)
    requires
        wf_tokens(src, toks),
        0 <= pos < toks.len(),
        toks[pos].kind != TokenKind::EndOfFile,
    ensures
        pos + 1 <= step_p3(src, toks, pos) <= toks.len() - 1,
        ({
            let st = sp_step(src, toks, pos);
            &&& pos < st.pos <= toks.len() - 1
            &&& (st.asg matches Some(a) ==> wf_stmt(src, a))
            &&& (st.diags.len() == 0 ==> st.asg is Some
                && count_kind(toks, TokenKind::Semicolon, pos, st.pos) == 1)
        }),
{
    let len = toks.len() as int;
    let t0 = toks[pos];
    assert(token_byte_facts(src, toks[pos]));
    assert(pos != len - 1);
    let p1 = step_p1(toks, pos);
    let t1 = toks[p1];
    if t1.kind == TokenKind::Equal {
        assert(p1 != len - 1);
    }
    let p2 = step_p2(toks, pos);
    lemma_expr_props(src, toks, p2);
    let er = step_er(src, toks, pos);
    if er.res is Err && er.pos == p2 {
        assert(toks[p2].kind == TokenKind::EndOfFile);
        assert(p2 != pos);
    }
    let p3 = step_p3(src, toks, pos);
    assert(pos + 1 <= p3 <= len - 1);
    let t3 = toks[p3];
    if t3.kind == TokenKind::Semicolon {
        assert(p3 != len - 1);
    }
    let p4 = step_p4(src, toks, pos);
    let st = sp_step(src, toks, pos);
    assert(st.pos == p4);
    match st.asg {
        Some(a) => {
            assert(t0.kind == TokenKind::Identifier && er.res is Ok);
            let id = ident_node_of(src, t0);
            assert(wf_expr(src, id));
            assert(wf_stmt(src, a));
        },
        None => {},
    }
    if st.diags.len() == 0 {
        assert(step_d_id(src, toks, pos).len() == 0);
        assert(step_d_eq(src, toks, pos).len() == 0);
        assert(step_d_ex(src, toks, pos).len() == 0);
        assert(step_d_semi(src, toks, pos).len() == 0);
        assert(t0.kind == TokenKind::Identifier);
        assert(t1.kind == TokenKind::Equal);
        assert(er.res is Ok);
        assert(t3.kind == TokenKind::Semicolon);
        lemma_count_kind_split(toks, TokenKind::Semicolon, pos, p1, p2);
        lemma_count_kind_split(toks, TokenKind::Semicolon, pos, p2, p3);
        lemma_count_kind_split(toks, TokenKind::Semicolon, pos, p3, p4);
        assert(count_kind(toks, TokenKind::Semicolon, p1, p1) == 0);
        assert(count_kind(toks, TokenKind::Semicolon, p2, p2) == 0);
        assert(count_kind(toks, TokenKind::Semicolon, p4, p4) == 0);
        assert(count_kind(toks, TokenKind::Semicolon, pos, p1) == 0);
        assert(count_kind(toks, TokenKind::Semicolon, p1, p2) == 0);
        assert(count_kind(toks, TokenKind::Semicolon, p3, p4)
            == 1 + count_kind(toks, TokenKind::Semicolon, p3 + 1, p4));
    }
}

/// A one-element sequence for `Some`, an empty one for `None`.
pub open spec fn opt_to_seq(o: Option<SNode>) -> Seq<SNode> {
    match o {
        Some(n) => seq![n],
        None => Seq::empty(),
    }
}

/// A digit string's value is never negative.
pub proof fn lemma_digits_nonneg(s: Seq<u8>)
    requires
        forall|k: int| 0 <= k < s.len() ==> is_digit(#[trigger] s[k]),
    ensures
        digits_val(s) >= 0,
    decreases s.len(),
{
    if s.len() > 0 {
        lemma_digits_nonneg(s.drop_last());
    }
}

/// A prefix of a digit string never exceeds the whole string's value.
pub proof fn lemma_digits_prefix(s: Seq<u8>, i: int)
    requires
        forall|k: int| 0 <= k < s.len() ==> is_digit(#[trigger] s[k]),
        0 <= i <= s.len(),
    ensures
        0 <= digits_val(s.take(i)) <= digits_val(s),
    decreases s.len() - i,
{
    assert(forall|k: int| 0 <= k < i ==> is_digit(#[trigger] s.take(i)[k]));
    lemma_digits_nonneg(s.take(i));
    if i < s.len() {
        lemma_digits_prefix(s, i + 1);
        assert(s.take(i + 1).drop_last() =~= s.take(i));
        assert(s.take(i + 1).last() == s[i]);
        assert(digits_val(s.take(i + 1)) == digits_val(s.take(i)) * 10 + (s[i] - 48));
    } else {
        assert(s.take(i) =~= s);
    }
}

/// Parses a nonempty digit string into its value, or reports that the value
/// exceeds `i64::MAX`.
fn parse_literal_value(lit: &[u8]) -> (r: Option<i64>)
    requires
        lit@.len() >= 1,
        forall|k: int| 0 <= k < lit@.len() ==> is_digit(#[trigger] lit@[k]),
    ensures
        match r {
            Some(v) => 0 <= digits_val(lit@) <= i64::MAX && v as int == digits_val(lit@),
            None => digits_val(lit@) > i64::MAX,
        },
{
    let mut acc: u64 = 0;
    let mut i: usize = 0;
    while i < lit.len()
        invariant
            0 <= i <= lit@.len(),
            lit@.len() >= 1,
            forall|k: int| 0 <= k < lit@.len() ==> is_digit(#[trigger] lit@[k]),
            acc as int == digits_val(lit@.take(i as int)),
        decreases lit@.len() - i,
    {
        let ghost pre = lit@.take(i as int);
        let ghost post = lit@.take(i as int + 1);
        proof {
            assert(post.drop_last() =~= pre);
            assert(post.last() == lit@[i as int]);
            assert(digits_val(post) == digits_val(pre) * 10 + (lit@[i as int] - 48));
            lemma_digits_prefix(lit@, i as int + 1);
        }
        let d = (lit[i] - 48) as u64;
        let acc10 = match acc.checked_mul(10) {
            Some(v) => v,
            None => {
                proof {
                    assert(digits_val(post) > u64::MAX);
                }
                return None;
            },
        };
        let acc2 = match acc10.checked_add(d) {
            Some(v) => v,
            None => {
                proof {
                    assert(digits_val(post) > u64::MAX);
                }
                return None;
            },
        };
        acc = acc2;
        i = i + 1;
    }
    proof {
        assert(lit@.take(lit@.len() as int) =~= lit@);
    }
    if acc <= 9223372036854775807u64 {
        Some(acc as i64)
    } else {
        None
    }
}

/// Lexing and dropping whitespace always yields a well-formed token
/// sequence over the same source.
pub proof fn lemma_lex_tokens_wf(src: Seq<u8>)
    requires
        src.len() < usize::MAX,
    ensures
        wf_tokens(src, drop_ws(spec_lex_from(src, 0, 1))),
{
    lemma_spec_lex_wf(src, 0, 1);
    let s = spec_lex_from(src, 0, 1);
    assert(forall|i: int| 0 <= i < s.len() ==> (#[trigger] s[i]).start <= s[i].end);
    lemma_drop_ws_wf(s);
    let d = drop_ws(s);
    assert forall|i: int| 0 <= i < d.len() implies token_byte_facts(src, #[trigger] d[i]) by {
        assert(s.contains(d[i]));
        let j = choose|j: int| 0 <= j < s.len() && s[j] == d[i];
        assert(token_byte_facts(src, s[j]));
    }
    assert forall|i: int| 0 <= i < d.len() - 1 implies #[trigger] adjacent_spans_ordered(d, i) by {
        assert(d[i].end <= d[i + 1].start);
    }
}

/// What parsing a whole program guarantees: the cursor ends on the
/// `EndOfFile` token, every assignment built is well formed, and an
/// error-free run builds exactly one assignment per semicolon.
pub proof fn lemma_stmts_props(src: Seq<u8>, toks: Seq<STok>, pos: int)
    requires
        wf_tokens(src, toks),
        0 <= pos <= toks.len() - 1,
    ensures
        ({
            let r = sp_stmts(src, toks, pos);
            &&& r.pos == toks.len() - 1
            &&& (forall|i: int| 0 <= i < r.stmts.len() ==> wf_stmt(src, #[trigger] r.stmts[i]))
            &&& (r.diags.len() == 0 ==> r.stmts.len()
                == count_kind(toks, TokenKind::Semicolon, pos, r.pos))
        }),
    decreases toks.len() - pos,
{
    let len = toks.len() as int;
    if toks[pos].kind == TokenKind::EndOfFile {
        assert(pos == len - 1);
        assert(count_kind(toks, TokenKind::Semicolon, pos, pos) == 0);
    } else {
        lemma_step_props(src, toks, pos);
        let st = sp_step(src, toks, pos);
        lemma_stmts_props(src, toks, st.pos);
        let rest = sp_stmts(src, toks, st.pos);
        let r = sp_stmts(src, toks, pos);
        assert(next_pos(pos, st.pos, len) == st.pos);
        assert(r.stmts == opt_to_seq(st.asg) + rest.stmts);
        assert forall|i: int| 0 <= i < r.stmts.len() implies wf_stmt(src, #[trigger] r.stmts[i]) by {
            match st.asg {
                Some(a) => {
                    if i == 0 {
                        assert(r.stmts[i] == a);
                    } else {
                        assert(r.stmts[i] == rest.stmts[i - 1]);
                    }
                },
                None => {
                    assert(r.stmts[i] == rest.stmts[i]);
                },
            }
        }
        if r.diags.len() == 0 {
            assert(st.diags.len() == 0 && rest.diags.len() == 0);
            lemma_count_kind_split(toks, TokenKind::Semicolon, pos, st.pos, r.pos);
        }
    }
}

/// Parsing assignments from `pos` until the `EndOfFile` token.
pub open spec fn sp_stmts(src: Seq<u8>, toks: Seq<STok>, pos: int) -> ProgRes
    decreases toks.len() - pos,
{
    if !(0 <= pos < toks.len()) || toks[pos].kind == TokenKind::EndOfFile {
        ProgRes { pos, stmts: Seq::empty(), diags: Seq::empty() }
    } else {
        let s = sp_step(src, toks, pos);
        let rest = sp_stmts(src, toks, next_pos(pos, s.pos, toks.len() as int));
        ProgRes {
            pos: rest.pos,
            stmts: opt_to_seq(s.asg) + rest.stmts,
            diags: s.diags + rest.diags,
        }
    }
}


/// Parsing a syntactically clean program — one on which parsing raises no
/// diagnostic — produces an abstract syntax tree with exactly one
/// assignment per `;`-terminated statement of the token sequence.
pub proof fn lemma_clean_parse_counts(src: Seq<u8>, toks: Seq<STok>)
    requires
        wf_tokens(src, toks),
        sp_stmts(src, toks, 0).diags.len() == 0,
    ensures
        sp_stmts(src, toks, 0).stmts.len() == count_kind(
            toks,
            TokenKind::Semicolon,
            0,
            toks.len() as int,
        ),
{
    let len = toks.len() as int;
    lemma_stmts_props(src, toks, 0);
    let r = sp_stmts(src, toks, 0);
    lemma_count_kind_split(toks, TokenKind::Semicolon, 0, r.pos, len);
    assert(count_kind(toks, TokenKind::Semicolon, len, len) == 0);
    assert(count_kind(toks, TokenKind::Semicolon, r.pos, len) == 0);
}


/// A `Fact` derivation is parsed exactly: the parser ends at its right
/// edge, raises nothing, and builds a node.
proof fn lemma_derives_fact_parses(src: Seq<u8>, toks: Seq<STok>, i: int, j: int, d: GDeriv)
    requires
        wf_tokens(src, toks),
        derives_fact(src, toks, i, j, d),
        0 <= i,
        j <= toks.len() - 1,
    ensures
        i < j,
        ({
            let f = sp_fact(src, toks, i);
            &&& f.pos == j
            &&& f.diags.len() == 0
            &&& f.res is Ok
        }),
    decreases d,
{
    assert(token_byte_facts(src, toks[i]));
    match d {
        GDeriv::FactLit => {
            assert(valid_literal(src, toks[i]));
        },
        GDeriv::FactIdent => {},
        GDeriv::FactParen(e) => {
            assert(toks[j - 1].kind == TokenKind::RightParen);
            lemma_derives_expr_parses(src, toks, i + 1, j - 1, *e);
        },
        GDeriv::FactUnary(f) => {
            lemma_derives_fact_parses(src, toks, i + 1, j, *f);
        },
        _ => {},
    }
}

/// A chain of `'*' Fact` repetitions whose first `*` stands at `p` is
/// folded exactly onto any accumulator.
proof fn lemma_derives_term_chain_parses(
    src: Seq<u8>,
    toks: Seq<STok>,
    p: int,
    j: int,
    d: GDeriv,
    acc: SNode,
)
    requires
        wf_tokens(src, toks),
        0 <= p,
        toks[p].kind == TokenKind::Star,
        derives_term(src, toks, p + 1, j, d),
        j <= toks.len() - 1,
        toks[j].kind != TokenKind::Star,
    ensures
        ({
            let c = sp_term_chain(src, toks, p, acc);
            &&& c.pos == j
            &&& c.diags.len() == 0
            &&& c.res is Ok
        }),
    decreases d,
{
    match d {
        GDeriv::TermLast(f) => {
            lemma_derives_fact_parses(src, toks, p + 1, j, *f);
            let fr = sp_fact(src, toks, p + 1);
            assert(next_pos(p, j, toks.len() as int) == j);
            let acc2 = SNode::Term(Box::new(acc), Operator::Multiply, Box::new(fr.res->Ok_0));
            assert(sp_term_chain(src, toks, j, acc2) == (PRes {
                pos: j,
                diags: Seq::<SDiag>::empty(),
                res: Ok(acc2),
            }));
        },
        GDeriv::TermMore(f, m, rest) => {
            lemma_derives_fact_parses(src, toks, p + 1, m, *f);
            let fr = sp_fact(src, toks, p + 1);
            assert(next_pos(p, fr.pos, toks.len() as int) == m);
            lemma_derives_term_chain_parses(
                src,
                toks,
                m,
                j,
                *rest,
                SNode::Term(Box::new(acc), Operator::Multiply, Box::new(fr.res->Ok_0)),
            );
        },
        _ => {},
    }
}

/// A `Term` derivation followed by anything but `*` is parsed exactly.
proof fn lemma_derives_term_parses(src: Seq<u8>, toks: Seq<STok>, i: int, j: int, d: GDeriv)
    requires
        wf_tokens(src, toks),
        derives_term(src, toks, i, j, d),
        0 <= i,
        j <= toks.len() - 1,
        toks[j].kind != TokenKind::Star,
    ensures
        i < j,
        ({
            let f = sp_term(src, toks, i);
            &&& f.pos == j
            &&& f.diags.len() == 0
            &&& f.res is Ok
        }),
    decreases d,
{
    match d {
        GDeriv::TermLast(f) => {
            lemma_derives_fact_parses(src, toks, i, j, *f);
            assert(next_pos(i, j, toks.len() as int) == j);
        },
        GDeriv::TermMore(f, m, rest) => {
            lemma_derives_fact_parses(src, toks, i, m, *f);
            let fr = sp_fact(src, toks, i);
            assert(next_pos(i, fr.pos, toks.len() as int) == m);
            lemma_derives_term_chain_parses(src, toks, m, j, *rest, fr.res->Ok_0);
        },
        _ => {},
    }
}

/// A chain of `('+'|'-') Term` repetitions whose first operator stands at
/// `p` is folded exactly onto any accumulator.
proof fn lemma_derives_expr_chain_parses(
    src: Seq<u8>,
    toks: Seq<STok>,
    p: int,
    j: int,
    d: GDeriv,
    acc: SNode,
)
    requires
        wf_tokens(src, toks),
        0 <= p,
        toks[p].kind == TokenKind::Plus || toks[p].kind == TokenKind::Minus,
        derives_expr(src, toks, p + 1, j, d),
        j <= toks.len() - 1,
        toks[j].kind != TokenKind::Plus,
        toks[j].kind != TokenKind::Minus,
        toks[j].kind != TokenKind::Star,
    ensures
        ({
            let c = sp_expr_chain(src, toks, p, acc);
            &&& c.pos == j
            &&& c.diags.len() == 0
            &&& c.res is Ok
        }),
    decreases d,
{
    let op = if toks[p].kind == TokenKind::Plus { Operator::Plus } else { Operator::Minus };
    match d {
        GDeriv::ExprLast(t) => {
            lemma_derives_term_parses(src, toks, p + 1, j, *t);
            let tr = sp_term(src, toks, p + 1);
            assert(next_pos(p, j, toks.len() as int) == j);
            let acc2 = SNode::Term(Box::new(acc), op, Box::new(tr.res->Ok_0));
            assert(sp_expr_chain(src, toks, j, acc2) == (PRes {
                pos: j,
                diags: Seq::<SDiag>::empty(),
                res: Ok(acc2),
            }));
        },
        GDeriv::ExprMore(t, m, rest) => {
            lemma_derives_term_parses(src, toks, p + 1, m, *t);
            let tr = sp_term(src, toks, p + 1);
            assert(next_pos(p, tr.pos, toks.len() as int) == m);
            lemma_derives_expr_chain_parses(
                src,
                toks,
                m,
                j,
                *rest,
                SNode::Term(Box::new(acc), op, Box::new(tr.res->Ok_0)),
            );
        },
        _ => {},
    }
}

/// An `Expression` derivation followed by none of `+`, `-`, `*` is parsed
/// exactly.
proof fn lemma_derives_expr_parses(src: Seq<u8>, toks: Seq<STok>, i: int, j: int, d: GDeriv)
    requires
        wf_tokens(src, toks),
        derives_expr(src, toks, i, j, d),
        0 <= i,
        j <= toks.len() - 1,
        toks[j].kind != TokenKind::Plus,
        toks[j].kind != TokenKind::Minus,
        toks[j].kind != TokenKind::Star,
    ensures
        i < j,
        ({
            let f = sp_expr(src, toks, i);
            &&& f.pos == j
            &&& f.diags.len() == 0
            &&& f.res is Ok
        }),
    decreases d,
{
    match d {
        GDeriv::ExprLast(t) => {
            lemma_derives_term_parses(src, toks, i, j, *t);
            assert(next_pos(i, j, toks.len() as int) == j);
        },
        GDeriv::ExprMore(t, m, rest) => {
            lemma_derives_term_parses(src, toks, i, m, *t);
            let tr = sp_term(src, toks, i);
            assert(next_pos(i, tr.pos, toks.len() as int) == m);
            lemma_derives_expr_chain_parses(src, toks, m, j, *rest, tr.res->Ok_0);
        },
        _ => {},
    }
}

/// An `Assignment` derivation is parsed as one assignment attempt that
/// raises nothing and ends at its right edge.
proof fn lemma_derives_stmt_parses(src: Seq<u8>, toks: Seq<STok>, i: int, j: int, d: GDeriv)
    requires
        wf_tokens(src, toks),
        derives_stmt(src, toks, i, j, d),
        0 <= i,
        j <= toks.len() - 1,
    ensures
        sp_step(src, toks, i).pos == j,
        sp_step(src, toks, i).diags.len() == 0,
    decreases d,
{
    match d {
        GDeriv::Stmt(e) => {
            assert(step_p1(toks, i) == i + 1);
            assert(step_p2(toks, i) == i + 2);
            lemma_derives_expr_parses(src, toks, i + 2, j - 1, *e);
            let er = step_er(src, toks, i);
            assert(er == sp_expr(src, toks, i + 2));
            assert(er.pos == j - 1 && er.res is Ok);
            assert(step_p3(src, toks, i) == j - 1);
            assert(step_p4(src, toks, i) == j);
            assert(step_d_id(src, toks, i).len() == 0);
            assert(step_d_eq(src, toks, i).len() == 0);
            assert(step_d_ex(src, toks, i).len() == 0);
            assert(step_d_semi(src, toks, i).len() == 0);
        },
        _ => {},
    }
}

/// Parsing a grammar-conforming tail of the program raises nothing.
proof fn lemma_derives_program_parses(src: Seq<u8>, toks: Seq<STok>, i: int, d: GDeriv)
    requires
        wf_tokens(src, toks),
        0 <= i <= toks.len() - 1,
        derives_program(src, toks, i, toks.len() - 1, d),
    ensures
        sp_stmts(src, toks, i).diags.len() == 0,
    decreases d,
{
    let len1 = toks.len() - 1;
    match d {
        GDeriv::ProgEmpty => {
            assert(toks[i].kind == TokenKind::EndOfFile);
        },
        GDeriv::ProgMore(m, st, rest) => {
            assert(toks[i].kind == TokenKind::Identifier);
            lemma_derives_stmt_parses(src, toks, i, m, *st);
            assert(next_pos(i, sp_step(src, toks, i).pos, toks.len() as int) == m);
            lemma_derives_program_parses(src, toks, m, *rest);
        },
        _ => {},
    }
}

/// A syntactically clean token sequence — one that some grammar
/// derivation derives as a `Program`, every statement being
/// `Identifier '=' Expression ';'` with valid integer literals — parses
/// with zero diagnostics, and the tree holds exactly one assignment per
/// `;`-terminated statement.
pub proof fn lemma_grammar_clean_zero_diagnostics(src: Seq<u8>, toks: Seq<STok>, d: GDeriv)
    requires
        wf_tokens(src, toks),
        derives_program(src, toks, 0, toks.len() - 1, d),
    ensures
        sp_stmts(src, toks, 0).diags.len() == 0,
        sp_stmts(src, toks, 0).stmts.len() == count_kind(
            toks,
            TokenKind::Semicolon,
            0,
            toks.len() as int,
        ),
{
    lemma_derives_program_parses(src, toks, 0, d);
    lemma_clean_parse_counts(src, toks);
}

/// Wraps a successful expression-chain outcome in the single `Expression`
/// node; failures pass through.
pub open spec fn wrap_expr(c: PRes) -> PRes {
    match c.res {
        Ok(m) => PRes { pos: c.pos, diags: c.diags, res: Ok(SNode::Expression(Box::new(m))) },
        Err(d) => PRes { pos: c.pos, diags: c.diags, res: Err(d) },
    }
}

/// The token cursor: the lexed tokens and a monotonically advancing
/// position into them.
pub struct LexerManager {
    tokens: Vec<Token>,
    token_pos: usize,
}

impl LexerManager {
    /// The views of the tokens.
    pub closed spec fn toks(&self) -> Seq<STok> {
        self.tokens@.map_values(|t: Token| t@)
    }

    /// The cursor position.
    pub closed spec fn pos(&self) -> int {
        self.token_pos as int
    }

    /// Returns the current token, or `None` once the cursor is past the end.
    pub fn current_token(&self) -> (r: Option<&Token>)
        ensures
            match r {
                Some(t) => self.pos() < self.toks().len() && t@ == self.toks()[self.pos()],
                None => self.pos() >= self.toks().len(),
            },
    {
        if self.token_pos < self.tokens.len() {
            Some(&self.tokens[self.token_pos])
        } else {
            None
        }
    }

    /// Returns the token before the cursor, or `None` at the start.
    pub fn previous_token(&self) -> (r: Option<&Token>)
        ensures
            match r {
                Some(t) => 1 <= self.pos() <= self.toks().len()
                    && t@ == self.toks()[self.pos() - 1],
                None => self.pos() == 0 || self.pos() > self.toks().len(),
            },
    {
        if 1 <= self.token_pos && self.token_pos <= self.tokens.len() {
            Some(&self.tokens[self.token_pos - 1])
        } else {
            None
        }
    }

    /// Advances the cursor by one token; past the end it stays put.
    pub fn advance(&mut self)
        ensures
            final(self).toks() == old(self).toks(),
            final(self).pos() == if old(self).pos() < old(self).toks().len() {
                old(self).pos() + 1
            } else {
                old(self).pos()
            },
    {
        if self.token_pos < self.tokens.len() {
            self.token_pos = self.token_pos + 1;
        }
    }
}

/// The parser: the source bytes (for diagnostics) and the token cursor.
pub struct Parser<'a> {
    src: &'a [u8],
    lexer: LexerManager,
}

impl<'a> Parser<'a> {
    /// The source bytes.
    pub closed spec fn src_bytes(&self) -> Seq<u8> {
        self.src@
    }

    /// The views of the tokens.
    pub closed spec fn toks(&self) -> Seq<STok> {
        self.lexer.toks()
    }

    /// The cursor position.
    pub closed spec fn pos(&self) -> int {
        self.lexer.pos()
    }

    /// Well-formedness: the tokens are well formed over the source and the
    /// cursor stays within them.
    pub closed spec fn wf(&self) -> bool {
        &&& wf_tokens(self.src@, self.toks())
        &&& 0 <= self.pos() <= self.toks().len()
    }

    /// Creates a parser by lexing the source.
    pub fn new(src: &'a str) -> (p: Parser<'a>)
        requires
            src.spec_bytes().len() < usize::MAX,
        ensures
            p.wf(),
            p.pos() == 0,
            p.src_bytes() == src.spec_bytes(),
            p.toks() == drop_ws(spec_lex_from(src.spec_bytes(), 0, 1)),
    {
        let bytes = src.as_bytes();
        let mut lexer = Lexer::from_bytes(bytes);
        let tokens = lexer.lex();
        proof {
            lemma_lex_tokens_wf(bytes@);
        }
        Parser { src: bytes, lexer: LexerManager { tokens, token_pos: 0 } }
    }

    /// Creates a parser from an already-lexed token sequence over `src`.
    pub fn from_tokens(src: &'a str, tokens: Vec<Token>) -> (p: Parser<'a>)
        requires
            wf_tokens(src.spec_bytes(), tokens@.map_values(|t: Token| t@)),
        ensures
            p.wf(),
            p.pos() == 0,
            p.src_bytes() == src.spec_bytes(),
            p.toks() == tokens@.map_values(|t: Token| t@),
    {
        Parser { src: src.as_bytes(), lexer: LexerManager { tokens, token_pos: 0 } }
    }

    // Parses one `Fact`, following `sp_fact` exactly: diagnostics of
    // invalid literals are appended to `errors` and parsing continues with
    // a dummy literal of zero.
    #[verifier::rlimit(100)]
    fn parse_fact(&mut self, errors: &mut Vec<DiagnosticError>) -> (r: Result<
        Node,
        DiagnosticError,
    >)
        requires
            old(self).wf(),
            old(self).pos() < old(self).toks().len(),
        ensures
            final(self).wf(),
            final(self).src_bytes() == old(self).src_bytes(),
            final(self).toks() == old(self).toks(),
            ({
                let fr = sp_fact(old(self).src_bytes(), old(self).toks(), old(self).pos());
                &&& final(self).pos() == fr.pos
                &&& final(errors)@.map_values(|d: DiagnosticError| d@)
                    == old(errors)@.map_values(|d: DiagnosticError| d@) + fr.diags
                &&& (match (r, fr.res) {
                    (Ok(n), Ok(sn)) => n@ == sn,
                    (Err(d), Err(sd)) => d@ == sd,
                    _ => false,
                })
            }),
        decreases old(self).toks().len() - old(self).pos(), 0int,
    {
        let ghost src = self.src@;
        let ghost toks = self.toks();
        let ghost pos0 = self.pos();
        let ghost em0 = old(errors)@.map_values(|d: DiagnosticError| d@);
        proof {
            lemma_fact_props(src, toks, pos0);
            assert(token_byte_facts(src, toks[pos0]));
            assert(em0 + Seq::<SDiag>::empty() =~= em0);
        }
        let t = self.lexer.tokens[self.lexer.token_pos];
        match t.kind() {
            TokenKind::Literal => {
                self.lexer.advance();
                let info = token_info(self.src, &t);
                let lit = info.literal;
                if lit[0] == 48 && lit.len() > 1 {
                    let range = t.range();
                    let lb = linebreak_index(self.src, range.start..range.end);
                    errors.push(DiagnosticError::new(
                        fmt_leading_zero(lit.as_slice()),
                        t.line(),
                        range.start + 1 - lb,
                    ));
                    proof {
                        assert(errors@.map_values(|d: DiagnosticError| d@)
                            =~= em0 + sp_fact(src, toks, pos0).diags);
                    }
                    return Ok(Node::Literal(LiteralNode { value: 0 }));
                }
                match parse_literal_value(lit.as_slice()) {
                    Some(v) => Ok(Node::Literal(LiteralNode { value: v })),
                    None => {
                        let range = t.range();
                        let lb = linebreak_index(self.src, range.start..range.end);
                        errors.push(DiagnosticError::new(
                            fmt_out_of_range(lit.as_slice()),
                            t.line(),
                            range.start + 1 - lb,
                        ));
                        proof {
                            assert(errors@.map_values(|d: DiagnosticError| d@)
                                =~= em0 + sp_fact(src, toks, pos0).diags);
                        }
                        Ok(Node::Literal(LiteralNode { value: 0 }))
                    },
                }
            },
            TokenKind::Identifier => {
                self.lexer.advance();
                let info = token_info(self.src, &t);
                Ok(Node::Identifier(IdentifierNode {
                    literal: info.literal,
                    range: t.range(),
                    line: t.line(),
                }))
            },
            TokenKind::LeftParen => {
                self.lexer.advance();
                proof {
                    lemma_expr_props(src, toks, pos0 + 1);
                }
                let e = match self.parse_expr(errors) {
                    Ok(n) => n,
                    Err(d) => {
                        return Err(d);
                    },
                };
                proof {
                    assert(token_byte_facts(src, toks[self.pos()]));
                }
                let t2 = self.lexer.tokens[self.lexer.token_pos];
                self.lexer.advance();
                if matches!(t2.kind(), TokenKind::RightParen) {
                    Ok(Node::Fact(Box::new(e)))
                } else {
                    let info2 = token_info(self.src, &t2);
                    Err(DiagnosticError::new(
                        fmt_expected_rparen(info2.literal.as_slice(), info2.literal.as_slice()),
                        t2.line(),
                        info2.column,
                    ))
                }
            },
            TokenKind::Minus => {
                self.lexer.advance();
                let f = match self.parse_fact(errors) {
                    Ok(n) => n,
                    Err(d) => {
                        return Err(d);
                    },
                };
                let ghost gf = f;
                let inner = Node::UnaryOperator(Operator::Minus, Box::new(f));
                let ghost ginner = inner;
                proof {
                    assert(node_view(ginner)
                        == SNode::UnaryOperator(Operator::Minus, Box::new(node_view(gf))));
                }
                Ok(Node::Fact(Box::new(inner)))
            },
            TokenKind::Plus => {
                self.lexer.advance();
                let f = match self.parse_fact(errors) {
                    Ok(n) => n,
                    Err(d) => {
                        return Err(d);
                    },
                };
                let ghost gf = f;
                let inner = Node::UnaryOperator(Operator::Plus, Box::new(f));
                let ghost ginner = inner;
                proof {
                    assert(node_view(ginner)
                        == SNode::UnaryOperator(Operator::Plus, Box::new(node_view(gf))));
                }
                Ok(Node::Fact(Box::new(inner)))
            },
            _ => {
                let eof = matches!(t.kind(), TokenKind::EndOfFile);
                if !eof {
                    self.lexer.advance();
                }
                let info = token_info(self.src, &t);
                proof {
                    lemma_linebreak_index_le(src, toks[pos0].start);
                    assert(toks[pos0].end <= src.len() < usize::MAX);
                    assert(info.column <= toks[pos0].end);
                }
                let col = if eof { info.column + 1 } else { info.column };
                Err(DiagnosticError::new(
                    fmt_expected_fact(info.literal.as_slice(), t.kind()),
                    info.line,
                    col,
                ))
            },
        }
    }

    // Parses one `Term`, following `sp_term` exactly; recovered
    // diagnostics go to `errors`.
    #[verifier::rlimit(100)]
    fn parse_term(&mut self, errors: &mut Vec<DiagnosticError>) -> (r: Result<
        Node,
        DiagnosticError,
    >)
        requires
            old(self).wf(),
            old(self).pos() < old(self).toks().len(),
        ensures
            final(self).wf(),
            final(self).src_bytes() == old(self).src_bytes(),
            final(self).toks() == old(self).toks(),
            ({
                let fr = sp_term(old(self).src_bytes(), old(self).toks(), old(self).pos());
                &&& final(self).pos() == fr.pos
                &&& final(errors)@.map_values(|d: DiagnosticError| d@)
                    == old(errors)@.map_values(|d: DiagnosticError| d@) + fr.diags
                &&& (match (r, fr.res) {
                    (Ok(n), Ok(sn)) => n@ == sn,
                    (Err(d), Err(sd)) => d@ == sd,
                    _ => false,
                })
            }),
        decreases old(self).toks().len() - old(self).pos(), 1int,
    {
        let ghost src = self.src@;
        let ghost toks = self.toks();
        let ghost pos0 = self.pos();
        let ghost em0 = old(errors)@.map_values(|d: DiagnosticError| d@);
        proof {
            lemma_fact_props(src, toks, pos0);
        }
        let mut acc = match self.parse_fact(errors) {
            Ok(n) => n,
            Err(d) => {
                return Err(d);
            },
        };
        let ghost mut dacc: Seq<SDiag> = sp_fact(src, toks, pos0).diags;
        loop
            invariant
                src == old(self).src_bytes(),
                toks == old(self).toks(),
                pos0 == old(self).pos(),
                em0 == old(errors)@.map_values(|d: DiagnosticError| d@),
                self.wf(),
                self.src_bytes() == src,
                self.toks() == toks,
                pos0 < self.pos() <= toks.len() - 1,
                errors@.map_values(|d: DiagnosticError| d@) == em0 + dacc,
                ({
                    let c = sp_term_chain(src, toks, self.pos(), acc@);
                    sp_term(src, toks, pos0) == (PRes {
                        pos: c.pos,
                        diags: dacc + c.diags,
                        res: c.res,
                    })
                }),
            ensures
                src == old(self).src_bytes(),
                toks == old(self).toks(),
                pos0 == old(self).pos(),
                em0 == old(errors)@.map_values(|d: DiagnosticError| d@),
                self.wf(),
                self.src_bytes() == src,
                self.toks() == toks,
                pos0 < self.pos() <= toks.len() - 1,
                errors@.map_values(|d: DiagnosticError| d@) == em0 + dacc,
                ({
                    let c = sp_term_chain(src, toks, self.pos(), acc@);
                    sp_term(src, toks, pos0) == (PRes {
                        pos: c.pos,
                        diags: dacc + c.diags,
                        res: c.res,
                    })
                }),
                toks[self.pos()].kind != TokenKind::Star,
            decreases toks.len() - self.pos(),
        {
            let t = self.lexer.tokens[self.lexer.token_pos];
            if matches!(t.kind(), TokenKind::Star) {
                proof {
                    assert(self.pos() + 1 < toks.len());
                    lemma_fact_props(src, toks, self.pos() + 1);
                }
                let ghost posb = self.pos();
                self.lexer.advance();
                let rhs = match self.parse_fact(errors) {
                    Ok(n) => n,
                    Err(d) => {
                        proof {
                            let f = sp_fact(src, toks, posb + 1);
                            assert((em0 + dacc) + f.diags =~= em0 + (dacc + f.diags));
                        }
                        return Err(d);
                    },
                };
                proof {
                    let f = sp_fact(src, toks, posb + 1);
                    assert((em0 + dacc) + f.diags =~= em0 + (dacc + f.diags));
                    let c2 = sp_term_chain(src, toks, self.pos(), SNode::Term(
                        Box::new(acc@),
                        Operator::Multiply,
                        Box::new(f.res->Ok_0),
                    ));
                    assert((dacc + f.diags) + c2.diags =~= dacc + (f.diags + c2.diags));
                    dacc = dacc + f.diags;
                }
                acc = Node::Term(Box::new(acc), Operator::Multiply, Box::new(rhs));
            } else {
                break;
            }
        }
        proof {
            assert(dacc + Seq::<SDiag>::empty() =~= dacc);
        }
        Ok(acc)
    }

    // Parses one `Expression`, following `sp_expr` exactly; recovered
    // diagnostics go to `errors`.
    #[verifier::rlimit(100)]
    fn parse_expr(&mut self, errors: &mut Vec<DiagnosticError>) -> (r: Result<
        Node,
        DiagnosticError,
    >)
        requires
            old(self).wf(),
            old(self).pos() < old(self).toks().len(),
        ensures
            final(self).wf(),
            final(self).src_bytes() == old(self).src_bytes(),
            final(self).toks() == old(self).toks(),
            ({
                let fr = sp_expr(old(self).src_bytes(), old(self).toks(), old(self).pos());
                &&& final(self).pos() == fr.pos
                &&& final(errors)@.map_values(|d: DiagnosticError| d@)
                    == old(errors)@.map_values(|d: DiagnosticError| d@) + fr.diags
                &&& (match (r, fr.res) {
                    (Ok(n), Ok(sn)) => n@ == sn,
                    (Err(d), Err(sd)) => d@ == sd,
                    _ => false,
                })
            }),
        decreases old(self).toks().len() - old(self).pos(), 3int,
    {
        let ghost src = self.src@;
        let ghost toks = self.toks();
        let ghost pos0 = self.pos();
        let ghost em0 = old(errors)@.map_values(|d: DiagnosticError| d@);
        proof {
            lemma_term_props(src, toks, pos0);
        }
        let mut acc = match self.parse_term(errors) {
            Ok(n) => n,
            Err(d) => {
                return Err(d);
            },
        };
        let ghost mut dacc: Seq<SDiag> = sp_term(src, toks, pos0).diags;
        loop
            invariant
                src == old(self).src_bytes(),
                toks == old(self).toks(),
                pos0 == old(self).pos(),
                em0 == old(errors)@.map_values(|d: DiagnosticError| d@),
                self.wf(),
                self.src_bytes() == src,
                self.toks() == toks,
                pos0 < self.pos() <= toks.len() - 1,
                errors@.map_values(|d: DiagnosticError| d@) == em0 + dacc,
                ({
                    let c = sp_expr_chain(src, toks, self.pos(), acc@);
                    sp_expr(src, toks, pos0) == wrap_expr(PRes {
                        pos: c.pos,
                        diags: dacc + c.diags,
                        res: c.res,
                    })
                }),
            ensures
                src == old(self).src_bytes(),
                toks == old(self).toks(),
                pos0 == old(self).pos(),
                em0 == old(errors)@.map_values(|d: DiagnosticError| d@),
                self.wf(),
                self.src_bytes() == src,
                self.toks() == toks,
                pos0 < self.pos() <= toks.len() - 1,
                errors@.map_values(|d: DiagnosticError| d@) == em0 + dacc,
                ({
                    let c = sp_expr_chain(src, toks, self.pos(), acc@);
                    sp_expr(src, toks, pos0) == wrap_expr(PRes {
                        pos: c.pos,
                        diags: dacc + c.diags,
                        res: c.res,
                    })
                }),
                toks[self.pos()].kind != TokenKind::Plus,
                toks[self.pos()].kind != TokenKind::Minus,
            decreases toks.len() - self.pos(),
        {
            let t = self.lexer.tokens[self.lexer.token_pos];
            if matches!(t.kind(), TokenKind::Plus | TokenKind::Minus) {
                let op = if matches!(t.kind(), TokenKind::Plus) {
                    Operator::Plus
                } else {
                    Operator::Minus
                };
                proof {
                    assert(self.pos() + 1 < toks.len());
                    lemma_term_props(src, toks, self.pos() + 1);
                }
                let ghost posb = self.pos();
                self.lexer.advance();
                let rhs = match self.parse_term(errors) {
                    Ok(n) => n,
                    Err(d) => {
                        proof {
                            let tr = sp_term(src, toks, posb + 1);
                            assert((em0 + dacc) + tr.diags =~= em0 + (dacc + tr.diags));
                        }
                        return Err(d);
                    },
                };
                proof {
                    let tr = sp_term(src, toks, posb + 1);
                    assert((em0 + dacc) + tr.diags =~= em0 + (dacc + tr.diags));
                    let c2 = sp_expr_chain(src, toks, self.pos(), SNode::Term(
                        Box::new(acc@),
                        op,
                        Box::new(tr.res->Ok_0),
                    ));
                    assert((dacc + tr.diags) + c2.diags =~= dacc + (tr.diags + c2.diags));
                    dacc = dacc + tr.diags;
                }
                acc = Node::Term(Box::new(acc), op, Box::new(rhs));
            } else {
                break;
            }
        }
        proof {
            assert(dacc + Seq::<SDiag>::empty() =~= dacc);
        }
        Ok(Node::Expression(Box::new(acc)))
    }

    // Builds the diagnostic for a token other than an identifier at the
    // start of an assignment.
    fn diag_missing_identifier(src: &[u8], t0: &Token) -> (d: DiagnosticError)
        requires
            t0@.start <= t0@.end <= src@.len() < usize::MAX,
        ensures
            d@ == (SDiag {
                msg: msg_expected_identifier(lit_of(src@, t0@), t0@.kind),
                line: t0@.line,
                col: col_end(src@, t0@),
            }),
    {
        let info = token_info(src, t0);
        DiagnosticError::new(
            fmt_expected_identifier(info.literal.as_slice(), t0.kind()),
            info.line,
            info.column,
        )
    }

    // Builds the diagnostic for a token other than `=` after the left-hand
    // identifier, pointing at the offending token when it shares the
    // identifier's line and just past the identifier otherwise.
    fn diag_missing_equal_found(src: &[u8], t0: &Token, t1: &Token) -> (d: DiagnosticError)
        requires
            t0@.start <= t0@.end <= src@.len() < usize::MAX,
            t1@.start <= t1@.end <= src@.len(),
            t0@.start <= t1@.start,
        ensures
            d@ == (SDiag {
                msg: msg_expected_equal_found(lit_of(src@, t1@), t1@.kind),
                line: t0@.line,
                col: if t1@.line == t0@.line {
                    t1@.start + 1 - spec_linebreak_index(src@, t0@.start)
                } else {
                    t0@.end + 1 - spec_linebreak_index(src@, t0@.start)
                },
            }),
    {
        let info1 = token_info(src, t1);
        let r0 = t0.range();
        let lb0 = linebreak_index(src, r0.start..r0.end);
        let col = if t1.line() == t0.line() {
            t1.range().start + 1 - lb0
        } else {
            r0.end + 1 - lb0
        };
        DiagnosticError::new(
            fmt_expected_equal_found(info1.literal.as_slice(), t1.kind()),
            t0.line(),
            col,
        )
    }

    // Builds the diagnostic for input that ends where `=` was expected.
    fn diag_missing_equal_eof(src: &[u8], t0: &Token) -> (d: DiagnosticError)
        requires
            t0@.start <= t0@.end <= src@.len() < usize::MAX,
        ensures
            d@ == (SDiag {
                msg: msg_expected_equal(),
                line: t0@.line,
                col: t0@.end + 1 - spec_linebreak_index(src@, t0@.start),
            }),
    {
        let r0 = t0.range();
        let lb0 = linebreak_index(src, r0.start..r0.end);
        DiagnosticError::new(fmt_expected_equal(), t0.line(), r0.end + 1 - lb0)
    }

    // Builds the diagnostic for a token other than `;` after an
    // assignment's expression, pointing just past the expression.
    fn diag_missing_semicolon(src: &[u8], prev: &Token, t3: &Token) -> (d: DiagnosticError)
        requires
            prev@.start <= prev@.end <= src@.len() < usize::MAX,
            t3@.start <= t3@.end <= src@.len(),
        ensures
            d@ == (SDiag {
                msg: msg_expected_semicolon(lit_of(src@, prev@), lit_of(src@, t3@), t3@.kind),
                line: prev@.line,
                col: col_after(src@, prev@),
            }),
    {
        let pinfo = token_info(src, prev);
        let tinfo = token_info(src, t3);
        let pr = prev.range();
        let plb = linebreak_index(src, pr.start..pr.end);
        DiagnosticError::new(
            fmt_expected_semicolon(pinfo.literal.as_slice(), tinfo.literal.as_slice(), t3.kind()),
            prev.line(),
            pr.end + 1 - plb,
        )
    }


    // Parses the identifier and the `=` of one assignment, reporting both
    // when missing; returns the identifier node when present. The cursor
    // ends where the assignment's expression starts.
    #[verifier::rlimit(100)]
    fn parse_ident_equal(&mut self, errors: &mut Vec<DiagnosticError>) -> (r: Option<Node>)
        requires
            old(self).wf(),
            old(self).pos() < old(self).toks().len() - 1,
            old(self).toks()[old(self).pos()].kind != TokenKind::EndOfFile,
        ensures
            final(self).wf(),
            final(self).src_bytes() == old(self).src_bytes(),
            final(self).toks() == old(self).toks(),
            ({
                let src = old(self).src_bytes();
                let toks = old(self).toks();
                let pos0 = old(self).pos();
                let t0s = toks[pos0];
                let d_id: Seq<SDiag> = if t0s.kind == TokenKind::Identifier {
                    Seq::empty()
                } else {
                    seq![SDiag {
                        msg: msg_expected_identifier(lit_of(src, t0s), t0s.kind),
                        line: t0s.line,
                        col: col_end(src, t0s),
                    }]
                };
                let p1 = if t0s.kind == TokenKind::Identifier { pos0 + 1 } else { pos0 };
                let t1s = toks[p1];
                let p2s = if t1s.kind == TokenKind::Equal { p1 + 1 } else { p1 };
                let d_eq: Seq<SDiag> = if t1s.kind == TokenKind::Equal {
                    Seq::empty()
                } else if t1s.kind != TokenKind::EndOfFile {
                    seq![SDiag {
                        msg: msg_expected_equal_found(lit_of(src, t1s), t1s.kind),
                        line: t0s.line,
                        col: if t1s.line == t0s.line {
                            t1s.start + 1 - spec_linebreak_index(src, t0s.start)
                        } else {
                            t0s.end + 1 - spec_linebreak_index(src, t0s.start)
                        },
                    }]
                } else {
                    seq![SDiag {
                        msg: msg_expected_equal(),
                        line: t0s.line,
                        col: t0s.end + 1 - spec_linebreak_index(src, t0s.start),
                    }]
                };
                &&& final(self).pos() == p2s
                &&& (match r {
                    Some(n) => t0s.kind == TokenKind::Identifier && n@ == ident_node_of(src, t0s),
                    None => t0s.kind != TokenKind::Identifier,
                })
                &&& final(errors)@.map_values(|d: DiagnosticError| d@)
                    == old(errors)@.map_values(|d: DiagnosticError| d@) + d_id + d_eq
            }),
    {
        let ghost src = self.src@;
        let ghost toks = self.toks();
        let ghost pos0 = self.pos();
        let ghost em0 = old(errors)@.map_values(|d: DiagnosticError| d@);
        let ghost t0s = toks[pos0];
        let ghost d_id: Seq<SDiag> = if t0s.kind == TokenKind::Identifier {
            Seq::empty()
        } else {
            seq![SDiag {
                msg: msg_expected_identifier(lit_of(src, t0s), t0s.kind),
                line: t0s.line,
                col: col_end(src, t0s),
            }]
        };
        proof {
            assert(token_byte_facts(src, toks[pos0]));
        }
        let t0 = self.lexer.tokens[self.lexer.token_pos];

        // identifier
        let ident_node: Option<Node> = if matches!(t0.kind(), TokenKind::Identifier) {
            self.lexer.advance();
            let info0 = token_info(self.src, &t0);
            Some(Node::Identifier(IdentifierNode {
                literal: info0.literal,
                range: t0.range(),
                line: t0.line(),
            }))
        } else {
            errors.push(Self::diag_missing_identifier(self.src, &t0));
            None
        };
        let ghost p1 = self.pos();
        let ghost t1s = toks[p1];
        let ghost d_eq: Seq<SDiag> = if t1s.kind == TokenKind::Equal {
            Seq::empty()
        } else if t1s.kind != TokenKind::EndOfFile {
            seq![SDiag {
                msg: msg_expected_equal_found(lit_of(src, t1s), t1s.kind),
                line: t0s.line,
                col: if t1s.line == t0s.line {
                    t1s.start + 1 - spec_linebreak_index(src, t0s.start)
                } else {
                    t0s.end + 1 - spec_linebreak_index(src, t0s.start)
                },
            }]
        } else {
            seq![SDiag {
                msg: msg_expected_equal(),
                line: t0s.line,
                col: t0s.end + 1 - spec_linebreak_index(src, t0s.start),
            }]
        };
        proof {
            assert(errors@.map_values(|d: DiagnosticError| d@) =~= em0 + d_id);
        }

        // equal sign
        proof {
            assert(token_byte_facts(src, toks[p1]));
            if t0s.kind == TokenKind::Identifier {
                assert(adjacent_spans_ordered(toks, pos0));
            }
        }
        let t1 = self.lexer.tokens[self.lexer.token_pos];
        if matches!(t1.kind(), TokenKind::Equal) {
            self.lexer.advance();
        } else if !matches!(t1.kind(), TokenKind::EndOfFile) {
            errors.push(Self::diag_missing_equal_found(self.src, &t0, &t1));
        } else {
            errors.push(Self::diag_missing_equal_eof(self.src, &t0));
        }
        proof {
            assert(errors@.map_values(|d: DiagnosticError| d@) =~= (em0 + d_id) + d_eq);
            assert((em0 + d_id) + d_eq =~= em0 + d_id + d_eq);
        }
        ident_node
    }


    // Parses one assignment's expression, recovering on failure: the
    // diagnostic is recorded and the cursor steps back one token so a later
    // recovery step can reuse it, unless it rests on `EndOfFile` or `;` or
    // stepping back would return it to the assignment's start `start_pos`.
    #[verifier::rlimit(100)]
    fn parse_expr_recover(
        &mut self,
        start_pos: usize,
        errors: &mut Vec<DiagnosticError>,
    ) -> (r: Option<Node>)
        requires
            old(self).wf(),
            start_pos as int <= old(self).pos() < old(self).toks().len(),
        ensures
            final(self).wf(),
            final(self).src_bytes() == old(self).src_bytes(),
            final(self).toks() == old(self).toks(),
            ({
                let src = old(self).src_bytes();
                let toks = old(self).toks();
                let len = toks.len() as int;
                let er = sp_expr(src, toks, old(self).pos());
                let rewind = (er.pos >= len
                    || (toks[er.pos].kind != TokenKind::EndOfFile
                        && toks[er.pos].kind != TokenKind::Semicolon))
                    && er.pos - 1 > start_pos as int;
                &&& (match r {
                    Some(n) => er.res matches Ok(sn) && n@ == sn && final(self).pos() == er.pos
                        && final(errors)@.map_values(|x: DiagnosticError| x@)
                            == old(errors)@.map_values(|x: DiagnosticError| x@) + er.diags,
                    None => er.res matches Err(d) && {
                        &&& final(self).pos() == (if rewind { er.pos - 1 } else { er.pos })
                        &&& final(errors)@.map_values(|x: DiagnosticError| x@)
                            == old(errors)@.map_values(|x: DiagnosticError| x@)
                                + (er.diags + seq![d])
                    },
                })
            }),
    {
        let ghost em0 = old(errors)@.map_values(|x: DiagnosticError| x@);
        let ghost er = sp_expr(self.src@, self.toks(), self.pos());
        proof {
            lemma_expr_props(self.src@, self.toks(), self.pos());
        }
        match self.parse_expr(errors) {
            Ok(n) => Some(n),
            Err(e) => {
                let ghost dv = e@;
                errors.push(e);
                let at_end = self.lexer.token_pos >= self.lexer.tokens.len();
                let reusable = at_end || {
                    let k = self.lexer.tokens[self.lexer.token_pos].kind();
                    !matches!(k, TokenKind::EndOfFile | TokenKind::Semicolon)
                };
                if reusable && self.lexer.token_pos > start_pos + 1 {
                    self.lexer.token_pos = self.lexer.token_pos - 1;
                }
                proof {
                    assert(errors@.map_values(|x: DiagnosticError| x@)
                        =~= (em0 + er.diags) + seq![dv]);
                    assert((em0 + er.diags) + seq![dv] =~= em0 + (er.diags + seq![dv]));
                }
                None
            },
        }
    }

    #[verifier::rlimit(100)]
    fn parse_assignment(
        &mut self,
        assignments: &mut Vec<Node>,
        errors: &mut Vec<DiagnosticError>,
    )
        requires
            old(self).wf(),
            old(self).pos() < old(self).toks().len(),
            old(self).toks()[old(self).pos()].kind != TokenKind::EndOfFile,
        ensures
            final(self).wf(),
            final(self).src_bytes() == old(self).src_bytes(),
            final(self).toks() == old(self).toks(),
            ({
                let st = sp_step(old(self).src_bytes(), old(self).toks(), old(self).pos());
                &&& final(self).pos() == st.pos
                &&& nodes_view(final(assignments)@, 0)
                    == nodes_view(old(assignments)@, 0) + opt_to_seq(st.asg)
                &&& final(errors)@.map_values(|d: DiagnosticError| d@)
                    == old(errors)@.map_values(|d: DiagnosticError| d@) + st.diags
            }),
    {
        let ghost src = self.src@;
        let ghost toks = self.toks();
        let ghost pos0 = self.pos();
        let ghost len = toks.len() as int;
        let ghost em0 = old(errors)@.map_values(|d: DiagnosticError| d@);
        let ghost d_id = step_d_id(src, toks, pos0);
        let ghost d_eq = step_d_eq(src, toks, pos0);
        let ghost d_ex = step_d_ex(src, toks, pos0);
        let ghost d_semi = step_d_semi(src, toks, pos0);
        proof {
            lemma_step_props(src, toks, pos0);
            assert(token_byte_facts(src, toks[pos0]));
            assert(pos0 < len - 1);
        }
        let start_pos = self.lexer.token_pos;

        // identifier and equal sign
        let ident_node: Option<Node> = self.parse_ident_equal(errors);
        proof {
            assert(self.pos() == step_p2(toks, pos0));
            assert(errors@.map_values(|d: DiagnosticError| d@) == (em0 + d_id) + d_eq);
        }

        // expression, with recovery
        let expr_node: Option<Node> = self.parse_expr_recover(start_pos, errors);
        let ghost p3 = step_p3(src, toks, pos0);
        proof {
            assert(step_er(src, toks, pos0) == sp_expr(src, toks, step_p2(toks, pos0)));
            let er = step_er(src, toks, pos0);
            match er.res {
                Ok(_) => {
                    assert(er.diags + Seq::<SDiag>::empty() =~= er.diags);
                    assert(((em0 + d_id) + d_eq) + er.diags
                        =~= ((em0 + d_id) + d_eq) + d_ex);
                },
                Err(_) => {},
            }
            assert(self.pos() == p3);
            assert(errors@.map_values(|d: DiagnosticError| d@) == ((em0 + d_id) + d_eq) + d_ex);
            assert(token_byte_facts(src, toks[p3]));
            assert(token_byte_facts(src, toks[p3 - 1]));
        }

        // semicolon
        let prev = self.lexer.tokens[self.lexer.token_pos - 1];
        let t3 = self.lexer.tokens[self.lexer.token_pos];
        if matches!(t3.kind(), TokenKind::Semicolon) {
            self.lexer.advance();
        } else {
            errors.push(Self::diag_missing_semicolon(self.src, &prev, &t3));
        }
        proof {
            assert(self.pos() == step_p4(src, toks, pos0));
            assert(errors@.map_values(|d: DiagnosticError| d@)
                =~= (((em0 + d_id) + d_eq) + d_ex) + d_semi);
            assert((((em0 + d_id) + d_eq) + d_ex) + d_semi
                =~= em0 + (((d_id + d_eq) + d_ex) + d_semi));
            assert(((d_id + d_eq) + d_ex) + d_semi =~= d_id + d_eq + d_ex + d_semi);
        }

        // the assignment joins the program only when both parts parsed
        let ghost asgs0 = assignments@;
        let ghost sasg = step_asg(src, toks, pos0);
        match (ident_node, expr_node) {
            (Some(i), Some(e)) => {
                let ghost gi = i;
                let ghost ge = e;
                let node = Node::Assignment(Box::new(i), Box::new(e));
                let ghost gnode = node;
                assignments.push(node);
                proof {
                    lemma_nodes_view_push(asgs0, gnode, 0);
                    assert(sasg is Some);
                    assert(node_view(gi) == ident_node_of(src, toks[pos0]));
                    assert(node_view(gnode)
                        == SNode::Assignment(Box::new(node_view(gi)), Box::new(node_view(ge))));
                    assert(node_view(gnode) == sasg.unwrap());
                    assert(opt_to_seq(sasg) =~= seq![node_view(gnode)]);
                }
            },
            _ => {
                proof {
                    assert(sasg is None);
                    assert(opt_to_seq(sasg) =~= Seq::<SNode>::empty());
                }
            },
        }
        proof {
            assert(nodes_view(assignments@, 0) =~= nodes_view(asgs0, 0) + opt_to_seq(sasg));
        }
    }

    /// Parses the whole program from the current cursor, appending every
    /// diagnostic to `errors` and returning the tree even when diagnostics
    /// arose: the error path omits unrecoverable assignments, and a caller
    /// should treat any non-empty diagnostic list as overall failure.
    /// The behavior is exactly [`sp_stmts`] from the current cursor.
    #[verifier::rlimit(100)]
    pub fn parse_program(&mut self, errors: &mut Vec<DiagnosticError>) -> (prog: Node)
        requires
            old(self).wf(),
            old(self).pos() < old(self).toks().len(),
        ensures
            final(self).wf(),
            final(self).src_bytes() == old(self).src_bytes(),
            final(self).toks() == old(self).toks(),
            ({
                let pr = sp_stmts(old(self).src_bytes(), old(self).toks(), old(self).pos());
                &&& final(self).pos() == pr.pos
                &&& prog@ == SNode::Program(pr.stmts)
                &&& final(errors)@.map_values(|d: DiagnosticError| d@)
                    == old(errors)@.map_values(|d: DiagnosticError| d@) + pr.diags
            }),
    {
        let ghost src = self.src@;
        let ghost toks = self.toks();
        let ghost pos0 = self.pos();
        let mut assignments: Vec<Node> = Vec::new();
        proof {
            assert(nodes_view(assignments@, 0) =~= Seq::<SNode>::empty());
        }
        loop
            invariant
                src == old(self).src_bytes(),
                toks == old(self).toks(),
                pos0 == old(self).pos(),
                self.wf(),
                self.src_bytes() == src,
                self.toks() == toks,
                0 <= self.pos() <= toks.len() - 1,
                sp_stmts(src, toks, pos0).pos == sp_stmts(src, toks, self.pos()).pos,
                sp_stmts(src, toks, pos0).stmts
                    =~= nodes_view(assignments@, 0) + sp_stmts(src, toks, self.pos()).stmts,
                errors@.map_values(|d: DiagnosticError| d@) + sp_stmts(src, toks, self.pos()).diags
                    =~= old(errors)@.map_values(|d: DiagnosticError| d@)
                        + sp_stmts(src, toks, pos0).diags,
            ensures
                src == old(self).src_bytes(),
                toks == old(self).toks(),
                pos0 == old(self).pos(),
                self.wf(),
                self.src_bytes() == src,
                self.toks() == toks,
                toks[self.pos()].kind == TokenKind::EndOfFile,
                sp_stmts(src, toks, pos0).pos == sp_stmts(src, toks, self.pos()).pos,
                sp_stmts(src, toks, pos0).stmts
                    =~= nodes_view(assignments@, 0) + sp_stmts(src, toks, self.pos()).stmts,
                errors@.map_values(|d: DiagnosticError| d@) + sp_stmts(src, toks, self.pos()).diags
                    =~= old(errors)@.map_values(|d: DiagnosticError| d@)
                        + sp_stmts(src, toks, pos0).diags,
            decreases toks.len() - self.pos(),
        {
            let t = self.lexer.tokens[self.lexer.token_pos];
            if matches!(t.kind(), TokenKind::EndOfFile) {
                break;
            }
            let ghost posb = self.pos();
            let ghost asgsb = nodes_view(assignments@, 0);
            let ghost errsb = errors@.map_values(|d: DiagnosticError| d@);
            proof {
                lemma_step_props(src, toks, posb);
                assert(next_pos(posb, sp_step(src, toks, posb).pos, toks.len() as int)
                    == sp_step(src, toks, posb).pos);
            }
            self.parse_assignment(&mut assignments, errors);
            proof {
                let stp = sp_step(src, toks, posb);
                assert(sp_stmts(src, toks, posb).stmts
                    == opt_to_seq(stp.asg) + sp_stmts(src, toks, stp.pos).stmts);
                assert(sp_stmts(src, toks, posb).diags
                    == stp.diags + sp_stmts(src, toks, stp.pos).diags);
                assert(nodes_view(assignments@, 0) =~= asgsb + opt_to_seq(stp.asg));
                assert((asgsb + opt_to_seq(stp.asg)) + sp_stmts(src, toks, self.pos()).stmts
                    =~= asgsb + (opt_to_seq(stp.asg) + sp_stmts(src, toks, self.pos()).stmts));
                assert(errors@.map_values(|d: DiagnosticError| d@) =~= errsb + stp.diags);
                assert((errsb + stp.diags) + sp_stmts(src, toks, self.pos()).diags
                    =~= errsb + (stp.diags + sp_stmts(src, toks, self.pos()).diags));
            }
        }
        proof {
            assert(sp_stmts(src, toks, self.pos()).stmts =~= Seq::<SNode>::empty());
            assert(sp_stmts(src, toks, self.pos()).diags =~= Seq::<SDiag>::empty());
            assert(sp_stmts(src, toks, pos0).stmts =~= nodes_view(assignments@, 0));
            assert(errors@.map_values(|d: DiagnosticError| d@)
                =~= old(errors)@.map_values(|d: DiagnosticError| d@)
                    + sp_stmts(src, toks, pos0).diags);
        }
        Node::Program(assignments)
    }

    /// Parses the token sequence into a program.
    ///
    /// Returns the `Program` node when no diagnostic arose; otherwise all
    /// diagnostics, in source order. The behavior, diagnostics included, is
    /// exactly [`sp_stmts`] from the current cursor; a returned program is
    /// well formed over the source.
    pub fn parse(&mut self) -> (r: Result<Node, Vec<DiagnosticError>>)
        requires
            old(self).wf(),
            old(self).pos() < old(self).toks().len(),
        ensures
            final(self).wf(),
            final(self).src_bytes() == old(self).src_bytes(),
            final(self).toks() == old(self).toks(),
            ({
                let pr = sp_stmts(old(self).src_bytes(), old(self).toks(), old(self).pos());
                &&& final(self).pos() == pr.pos
                &&& (match r {
                    Ok(prog) => pr.diags.len() == 0 && prog@ == SNode::Program(pr.stmts)
                        && wf_program(old(self).src_bytes(), prog@),
                    Err(errs) => pr.diags.len() > 0
                        && errs@.map_values(|d: DiagnosticError| d@) == pr.diags,
                })
            }),
    {
        let ghost src = self.src@;
        let ghost toks = self.toks();
        let ghost pos0 = self.pos();
        let mut errors: Vec<DiagnosticError> = Vec::new();
        proof {
            assert(errors@.map_values(|d: DiagnosticError| d@) =~= Seq::<SDiag>::empty());
            lemma_stmts_props(src, toks, pos0);
        }
        let program = self.parse_program(&mut errors);
        if errors.len() == 0 {
            proof {
                let pr = sp_stmts(src, toks, pos0);
                assert(program@ == SNode::Program(pr.stmts));
                assert(wf_program(src, program@));
            }
            Ok(program)
        } else {
            Err(errors)
        }
    }
}

} // verus!
