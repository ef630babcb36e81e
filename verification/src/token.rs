//! The token model: a token kind together with its byte span and source line.

use vstd::prelude::*;
use core::ops::Range;

verus! {

/// The kind of a lexical token.
///
/// `Whitespace` and `Unknown` stand for maximal runs of whitespace bytes and
/// of unrecognized bytes; every other kind covers a single construct.
#[derive(Copy, Clone, Debug, PartialEq, Eq, Structural)]
pub enum TokenKind {
    /// An integer literal: a maximal run of ASCII digits.
    Literal,
    /// An identifier: a letter followed by letters, digits or underscores.
    Identifier,
    /// The character `=`.
    Equal,
    /// The character `(`.
    LeftParen,
    /// The character `)`.
    RightParen,
    /// The character `*`.
    Star,
    /// The character `-`.
    Minus,
    /// The character `+`.
    Plus,
    /// The character `;`.
    Semicolon,
    /// A maximal run of whitespace bytes.
    Whitespace,
    /// A maximal run of bytes that belong to no recognized class.
    Unknown,
    /// The zero-width token that ends every lexed sequence.
    EndOfFile,
}

/// The name of a token kind as it appears in diagnostic messages.
pub open spec fn kind_name(k: TokenKind) -> Seq<char> {
    match k {
        TokenKind::Literal => "Literal"@,
        TokenKind::Identifier => "Identifier"@,
        TokenKind::Equal => "Equal"@,
        TokenKind::LeftParen => "LeftParen"@,
        TokenKind::RightParen => "RightParen"@,
        TokenKind::Star => "Star"@,
        TokenKind::Minus => "Minus"@,
        TokenKind::Plus => "Plus"@,
        TokenKind::Semicolon => "Semicolon"@,
        TokenKind::Whitespace => "Whitespace"@,
        TokenKind::Unknown => "Unknown"@,
        TokenKind::EndOfFile => "EndOfFile"@,
    }
}

impl TokenKind {
    /// Returns the name of this kind as it appears in diagnostic messages.
    pub fn name(&self) -> (r: &'static str)
        ensures
            r@ == kind_name(*self),
    {
        match self {
            TokenKind::Literal => "Literal",
            TokenKind::Identifier => "Identifier",
            TokenKind::Equal => "Equal",
            TokenKind::LeftParen => "LeftParen",
            TokenKind::RightParen => "RightParen",
            TokenKind::Star => "Star",
            TokenKind::Minus => "Minus",
            TokenKind::Plus => "Plus",
            TokenKind::Semicolon => "Semicolon",
            TokenKind::Whitespace => "Whitespace",
            TokenKind::Unknown => "Unknown",
            TokenKind::EndOfFile => "EndOfFile",
        }
    }
}

/// The mathematical view of a [`Token`]: its kind, half-open byte span
/// and 1-based source line, over unbounded integers.
pub ghost struct STok {
    pub kind: TokenKind,
    pub start: int,
    pub end: int,
    pub line: int,
}

/// A lexical token: a kind plus the half-open byte range it covers and the
/// 1-based line on which it starts.
#[derive(Copy, Clone, Debug, PartialEq, Eq, Structural)]
pub struct Token {
    pub kind: TokenKind,
    pub start: usize,
    pub end: usize,
    pub line_number: usize,
}

impl View for Token {
    type V = STok;

    open spec fn view(&self) -> STok {
        STok {
            kind: self.kind,
            start: self.start as int,
            end: self.end as int,
            line: self.line_number as int,
        }
    }
}

impl Token {
    /// Creates a new token from its kind, byte range and line.
    pub fn new(kind: TokenKind, range: Range<usize>, line: usize) -> (t: Token)
        ensures
            t@ == (STok { kind, start: range.start as int, end: range.end as int, line: line as int }),
    {
        Token { kind, start: range.start, end: range.end, line_number: line }
    }

    /// Returns the kind of this token.
    pub fn kind(&self) -> (k: TokenKind)
        ensures
            k == self@.kind,
    {
        self.kind
    }

    /// Returns the half-open byte range of this token.
    pub fn range(&self) -> (r: Range<usize>)
        ensures
            r.start == self@.start,
            r.end == self@.end,
    {
        self.start..self.end
    }

    /// Returns the 1-based line on which this token starts.
    pub fn line(&self) -> (l: usize)
        ensures
            l == self@.line,
    {
        self.line_number
    }
}

} // verus!
