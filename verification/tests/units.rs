//! Unit tests for the small building blocks: tokens, diagnostics and
//! position helpers.

use tinylang::error::DiagnosticError;
use tinylang::token::{Token, TokenKind};
use tinylang::util::{linebreak_index, token_info};

#[test]
fn token_accessors() {
    let token = Token::new(TokenKind::Plus, 3..4, 2);
    assert_eq!(token.kind(), TokenKind::Plus);
    assert_eq!(token.range(), 3..4);
    assert_eq!(token.line(), 2);
}

#[test]
fn diagnostic_accessors() {
    let diag = DiagnosticError::new("something went wrong".to_string(), 3, 7);
    assert_eq!(diag.message(), "something went wrong");
    assert_eq!(diag.line(), 3);
    assert_eq!(diag.column(), 7);
}

#[test]
fn linebreak_index_finds_the_line_start() {
    let src = b"ab\ncd\nef";
    // no line feed before offset 2
    assert_eq!(linebreak_index(src, 2..2), 0);
    // the line containing `cd` starts right after the first line feed
    assert_eq!(linebreak_index(src, 4..5), 3);
    // a line feed at the offset itself does not count
    assert_eq!(linebreak_index(src, 2..3), 0);
}

#[test]
fn token_info_positions_and_text() {
    let src = b"ab\ncd";
    let token = Token::new(TokenKind::Identifier, 3..5, 2);
    let info = token_info(src, &token);
    assert_eq!(info.line, 2);
    // column counts from the start of the token's own line
    assert_eq!(info.column, 2);
    assert_eq!(info.literal, b"cd".to_vec());
}
