//! Rendering source bytes as text for diagnostic messages.

use vstd::prelude::*;

verus! {

/// The character sequence that `String::from_utf8_lossy` produces for a byte
/// sequence: the text itself where the bytes are valid UTF-8, with
/// replacement characters for the rest. It depends on the bytes alone.
pub uninterp spec fn lossy_of(b: Seq<u8>) -> Seq<char>;

/// Whether every byte of `b` is ASCII.
pub open spec fn seq_is_ascii(b: Seq<u8>) -> bool {
    forall|i: int| 0 <= i < b.len() ==> b[i] < 128
}

/// The characters of an ASCII byte sequence, byte for byte.
pub open spec fn ascii_chars(b: Seq<u8>) -> Seq<char> {
    b.map_values(|x: u8| x as char)
}

/// Relies on `String::from_utf8_lossy`: the result is a function of the bytes
/// alone, and ASCII bytes (being valid UTF-8) come through unchanged, one
/// character per byte.
#[verifier::external_body]
pub fn lossy_string(b: &[u8]) -> (r: String)
    ensures
        r@ == lossy_of(b@),
        seq_is_ascii(b@) ==> r@ == ascii_chars(b@),
{
    String::from_utf8_lossy(b).into_owned()
}

} // verus!
