//! Token-kind tests for the lexer.

use tinylang::lexer::Lexer;
use tinylang::token::TokenKind;

/// Lexes `src` and returns the kinds of the non-whitespace tokens, without
/// the final `EndOfFile` token.
fn kinds(src: &str) -> Vec<TokenKind> {
    let mut lexer = Lexer::new(src);
    let mut kinds: Vec<TokenKind> = lexer.lex().into_iter().map(|t| t.kind()).collect();
    kinds.pop();
    kinds
}

#[test]
fn invalid_tokens() {
    let tokens = kinds("____`````><>.,.`,.`");

    assert_eq!(tokens, vec![TokenKind::Unknown]);
}

#[test]
fn one() {
    assert_eq!(
        kinds("x = 1;\n"),
        vec![
            TokenKind::Identifier,
            TokenKind::Equal,
            TokenKind::Literal,
            TokenKind::Semicolon
        ]
    );
}

#[test]
fn two() {
    assert_eq!(
        kinds("y = 22;"),
        vec![
            TokenKind::Identifier,
            TokenKind::Equal,
            TokenKind::Literal,
            TokenKind::Semicolon
        ]
    );
}

#[test]
fn three() {
    assert_eq!(
        kinds("a = 1\nb = a;\nc = ---(a + b);"),
        vec![
            TokenKind::Identifier,
            TokenKind::Equal,
            TokenKind::Literal,
            TokenKind::Identifier,
            TokenKind::Equal,
            TokenKind::Identifier,
            TokenKind::Semicolon,
            TokenKind::Identifier,
            TokenKind::Equal,
            TokenKind::Minus,
            TokenKind::Minus,
            TokenKind::Minus,
            TokenKind::LeftParen,
            TokenKind::Identifier,
            TokenKind::Plus,
            TokenKind::Identifier,
            TokenKind::RightParen,
            TokenKind::Semicolon
        ]
    );
}

#[test]
fn four() {
    assert_eq!(
        kinds("a = 1;\nb = 2;\nc = ---(a + b) * (a + -b);"),
        vec![
            TokenKind::Identifier,
            TokenKind::Equal,
            TokenKind::Literal,
            TokenKind::Semicolon,
            TokenKind::Identifier,
            TokenKind::Equal,
            TokenKind::Literal,
            TokenKind::Semicolon,
            TokenKind::Identifier,
            TokenKind::Equal,
            TokenKind::Minus,
            TokenKind::Minus,
            TokenKind::Minus,
            TokenKind::LeftParen,
            TokenKind::Identifier,
            TokenKind::Plus,
            TokenKind::Identifier,
            TokenKind::RightParen,
            TokenKind::Star,
            TokenKind::LeftParen,
            TokenKind::Identifier,
            TokenKind::Plus,
            TokenKind::Minus,
            TokenKind::Identifier,
            TokenKind::RightParen,
            TokenKind::Semicolon
        ]
    );
}

#[test]
fn tokens_cover_the_input_exactly() {
    let src = "first = 007;\r\nsecond = (first + 2) * -3;\t@@@\nthird=0;";
    let mut lexer = Lexer::new(src);
    let tokens = lexer.lex_with_whitespace();
    let mut rebuilt: Vec<u8> = Vec::new();
    let mut previous_end = 0;
    for t in &tokens {
        let range = t.range();
        assert_eq!(range.start, previous_end);
        previous_end = range.end;
        rebuilt.extend_from_slice(&src.as_bytes()[range]);
    }
    assert_eq!(previous_end, src.len());
    assert_eq!(rebuilt, src.as_bytes());
}

#[test]
fn whitespace_runs_collapse_and_count_lines() {
    let mut lexer = Lexer::new("a \t\n\n b");
    let tokens = lexer.lex_with_whitespace();
    let kinds: Vec<TokenKind> = tokens.iter().map(|t| t.kind()).collect();
    assert_eq!(
        kinds,
        vec![
            TokenKind::Identifier,
            TokenKind::Whitespace,
            TokenKind::Identifier,
            TokenKind::EndOfFile
        ]
    );
    assert_eq!(tokens[0].line(), 1);
    // the whitespace run held two line feeds, so `b` is on line 3
    assert_eq!(tokens[2].line(), 3);
}

#[test]
fn lexer_error_for_invalid_run() {
    let src = "sum = 1 $%& + 2;";
    let mut lexer = Lexer::new(src);
    let tokens = lexer.lex();
    let errors = tinylang::lexer::get_lexer_errors(src, tokens.as_slice());
    assert_eq!(errors.len(), 1);
    assert_eq!(errors[0].message(), "The token, `$%&`, is invalid.");
    assert_eq!(errors[0].line(), 1);
    assert_eq!(errors[0].column(), 11);
}

#[test]
fn lexer_error_text_keeps_multibyte_characters() {
    let src = "é";
    let mut lexer = Lexer::new(src);
    let tokens = lexer.lex();
    let errors = tinylang::lexer::get_lexer_errors(src, tokens.as_slice());
    assert_eq!(errors.len(), 1);
    assert_eq!(errors[0].message(), "The token, `é`, is invalid.");
}
