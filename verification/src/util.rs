//! Position helpers shared by the parser and the interpreter: finding the
//! start of the line that contains a byte offset, and packaging a token's
//! line, column and source text.

use vstd::prelude::*;
use core::ops::Range;
use crate::token::{Token, STok};

verus! {

/// The byte offset of the first byte of the line containing offset `start`:
/// one past the last line-feed byte strictly before `start`, or `0` when no
/// line-feed precedes it.
pub open spec fn spec_linebreak_index(src: Seq<u8>, start: int) -> int
    decreases start,
{
    if start <= 0 {
        0
    } else if src[start - 1] == 10u8 {
        start
    } else {
        spec_linebreak_index(src, start - 1)
    }
}

/// The line start never lies after the offset it was computed from.
pub broadcast proof fn lemma_linebreak_index_le(src: Seq<u8>, start: int)
    ensures
        0 <= #[trigger] spec_linebreak_index(src, start),
        spec_linebreak_index(src, start) <= if start >= 0 { start } else { 0 },
    decreases start,
{
    if start > 0 && src[start - 1] != 10u8 {
        lemma_linebreak_index_le(src, start - 1);
    }
}

/// Returns the index of the first byte of the line containing the start of
/// `range`: one past the last line-feed before it, or `0` when there is
/// none. A start past the end of `src` yields `0`.
pub fn linebreak_index(src: &[u8], range: Range<usize>) -> (r: usize)
    ensures
        range.start <= src@.len() ==> r == spec_linebreak_index(src@, range.start as int),
        range.start > src@.len() ==> r == 0,
        r <= range.start,
{
    if range.start > src.len() {
        return 0;
    }
    let mut i: usize = range.start;
    while i > 0
        invariant
            i <= range.start <= src@.len(),
            spec_linebreak_index(src@, range.start as int) == spec_linebreak_index(src@, i as int),
        decreases i,
    {
        if src[i - 1] == 10 {
            return i;
        }
        i = i - 1;
    }
    0
}

/// The source bytes that a token covers.
pub open spec fn lit_of(src: Seq<u8>, t: STok) -> Seq<u8> {
    src.subrange(t.start, t.end)
}

/// The column of the byte just past `t`, on the line of `t`'s first byte.
pub open spec fn col_end(src: Seq<u8>, t: STok) -> int {
    t.end - spec_linebreak_index(src, t.start)
}

/// The 1-based column one past `t`'s last byte.
pub open spec fn col_after(src: Seq<u8>, t: STok) -> int {
    t.end + 1 - spec_linebreak_index(src, t.start)
}

/// The 1-based column of `t`'s first byte.
pub open spec fn col_start(src: Seq<u8>, t: STok) -> int {
    t.start + 1 - spec_linebreak_index(src, t.start)
}

/// A token's position and source text, ready for use in a diagnostic.
pub struct TokenInfo {
    /// The 1-based line that the token starts on.
    pub line: usize,
    /// The 1-based column of the byte just past the token, measured from the
    /// start of the line containing the token's first byte.
    pub column: usize,
    /// The bytes of source text that the token covers.
    pub literal: Vec<u8>,
}

/// Returns the line, column and source text of `token`.
pub fn token_info(src: &[u8], token: &Token) -> (info: TokenInfo)
    requires
        token@.start <= token@.end <= src@.len(),
    ensures
        info.line == token@.line,
        info.column == token@.end - spec_linebreak_index(src@, token@.start),
        info.literal@ == src@.subrange(token@.start, token@.end),
{
    let range = token.range();
    let lb = linebreak_index(src, range.start..range.end);
    let literal = vstd::slice::slice_to_vec(&src[range.start..range.end]);
    TokenInfo { line: token.line(), column: range.end - lb, literal }
}

} // verus!
