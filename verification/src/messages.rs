//! The texts of all diagnostic messages, each as a spec-level character
//! sequence together with the executable builder that produces it.

use vstd::prelude::*;
use vstd::string::StringExecFns;
use crate::text::{lossy_of, lossy_string};
use crate::token::{TokenKind, kind_name};

verus! {

/// Message for a token other than an identifier at the start of an assignment.
pub open spec fn msg_expected_identifier(lit: Seq<u8>, k: TokenKind) -> Seq<char> {
    "Expected an `Identifier`, but found `"@ + lossy_of(lit) + "` ("@ + kind_name(k) + ")"@
}

/// Builds [`msg_expected_identifier`].
pub fn fmt_expected_identifier(lit: &[u8], k: TokenKind) -> (r: String)
    ensures
        r@ == msg_expected_identifier(lit@, k),
{
    let mut s = String::from_str("Expected an `Identifier`, but found `");
    s.append(lossy_string(lit).as_str());
    s.append("` (");
    s.append(k.name());
    s.append(")");
    s
}

/// Message for a token other than `=` after the left-hand identifier.
pub open spec fn msg_expected_equal_found(lit: Seq<u8>, k: TokenKind) -> Seq<char> {
    "Expected an `Equal` token, but found `"@ + lossy_of(lit) + "` ("@ + kind_name(k) + ")."@
}

/// Builds [`msg_expected_equal_found`].
pub fn fmt_expected_equal_found(lit: &[u8], k: TokenKind) -> (r: String)
    ensures
        r@ == msg_expected_equal_found(lit@, k),
{
    let mut s = String::from_str("Expected an `Equal` token, but found `");
    s.append(lossy_string(lit).as_str());
    s.append("` (");
    s.append(k.name());
    s.append(").");
    s
}

/// Message for input that ends where `=` was expected.
pub open spec fn msg_expected_equal() -> Seq<char> {
    "Expected an `Equal` token."@
}

/// Builds [`msg_expected_equal`].
pub fn fmt_expected_equal() -> (r: String)
    ensures
        r@ == msg_expected_equal(),
{
    String::from_str("Expected an `Equal` token.")
}

/// Message for a token other than `;` after an assignment's expression.
pub open spec fn msg_expected_semicolon(prev: Seq<u8>, found: Seq<u8>, k: TokenKind) -> Seq<char> {
    "Expected a `Semicolon` after `"@ + lossy_of(prev) + "`, but found `"@ + lossy_of(found) + "` ("@
        + kind_name(k) + ")."@
}

/// Builds [`msg_expected_semicolon`].
pub fn fmt_expected_semicolon(prev: &[u8], found: &[u8], k: TokenKind) -> (r: String)
    ensures
        r@ == msg_expected_semicolon(prev@, found@, k),
{
    let mut s = String::from_str("Expected a `Semicolon` after `");
    s.append(lossy_string(prev).as_str());
    s.append("`, but found `");
    s.append(lossy_string(found).as_str());
    s.append("` (");
    s.append(k.name());
    s.append(").");
    s
}

/// Message for a multi-digit integer literal that starts with `0`.
pub open spec fn msg_leading_zero(lit: Seq<u8>) -> Seq<char> {
    "The integer, `"@ + lossy_of(lit)
        + "`, is invalid. literals must be either 0 or non-zero digits."@
}

/// Builds [`msg_leading_zero`].
pub fn fmt_leading_zero(lit: &[u8]) -> (r: String)
    ensures
        r@ == msg_leading_zero(lit@),
{
    let mut s = String::from_str("The integer, `");
    s.append(lossy_string(lit).as_str());
    s.append("`, is invalid. literals must be either 0 or non-zero digits.");
    s
}

/// Message for an integer literal outside the 64-bit signed range.
pub open spec fn msg_out_of_range(lit: Seq<u8>) -> Seq<char> {
    "The integer,`"@ + lossy_of(lit)
        + "`, is invalid. integers must be in the range [-9223372036854775808, 9223372036854775807]."@
}

/// Builds [`msg_out_of_range`].
pub fn fmt_out_of_range(lit: &[u8]) -> (r: String)
    ensures
        r@ == msg_out_of_range(lit@),
{
    let mut s = String::from_str("The integer,`");
    s.append(lossy_string(lit).as_str());
    s.append("`, is invalid. integers must be in the range [-9223372036854775808, 9223372036854775807].");
    s
}

/// Message for a token that cannot start a grammar `Fact`.
pub open spec fn msg_expected_fact(lit: Seq<u8>, k: TokenKind) -> Seq<char> {
    "Expected either `+`, `-`, `(`, an `Identifier`, or a `Literal`, but found `"@ + lossy_of(lit)
        + "` ("@ + kind_name(k) + ")"@
}

/// Builds [`msg_expected_fact`].
pub fn fmt_expected_fact(lit: &[u8], k: TokenKind) -> (r: String)
    ensures
        r@ == msg_expected_fact(lit@, k),
{
    let mut s = String::from_str("Expected either `+`, `-`, `(`, an `Identifier`, or a `Literal`, but found `");
    s.append(lossy_string(lit).as_str());
    s.append("` (");
    s.append(k.name());
    s.append(")");
    s
}

/// Message for a token other than `)` after a parenthesized expression.
pub open spec fn msg_expected_rparen(prev: Seq<u8>, found: Seq<u8>) -> Seq<char> {
    "Expected a `)` after `"@ + lossy_of(prev) + "`, but found `"@ + lossy_of(found) + "`"@
}

/// Builds [`msg_expected_rparen`].
pub fn fmt_expected_rparen(prev: &[u8], found: &[u8]) -> (r: String)
    ensures
        r@ == msg_expected_rparen(prev@, found@),
{
    let mut s = String::from_str("Expected a `)` after `");
    s.append(lossy_string(prev).as_str());
    s.append("`, but found `");
    s.append(lossy_string(found).as_str());
    s.append("`");
    s
}

/// Message for reading a variable that no assignment has bound yet.
pub open spec fn msg_uninitialized(name: Seq<u8>) -> Seq<char> {
    "The identifier `"@ + lossy_of(name) + "`, has not yet been initialized."@
}

/// Builds [`msg_uninitialized`].
pub fn fmt_uninitialized(name: &[u8]) -> (r: String)
    ensures
        r@ == msg_uninitialized(name@),
{
    let mut s = String::from_str("The identifier `");
    s.append(lossy_string(name).as_str());
    s.append("`, has not yet been initialized.");
    s
}

/// Message for a run of bytes that the lexer recognizes as no token.
pub open spec fn msg_invalid_token(lit: Seq<u8>) -> Seq<char> {
    "The token, `"@ + lossy_of(lit) + "`, is invalid."@
}

/// Builds [`msg_invalid_token`].
pub fn fmt_invalid_token(lit: &[u8]) -> (r: String)
    ensures
        r@ == msg_invalid_token(lit@),
{
    let mut s = String::from_str("The token, `");
    s.append(lossy_string(lit).as_str());
    s.append("`, is invalid.");
    s
}

} // verus!
