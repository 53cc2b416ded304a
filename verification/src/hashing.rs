//! Content hashes: the hex-encoded blake3 digest of a file's bytes.

use vstd::prelude::*;

verus! {

/// The lowercase hexadecimal blake3 digest of `bytes`.
pub uninterp spec fn blake3_hex(bytes: Seq<u8>) -> Seq<char>;

/// A lowercase hexadecimal digit.
pub open spec fn is_lower_hex(c: char) -> bool {
    ('0' <= c && c <= '9') || ('a' <= c && c <= 'f')
}

/// Calls `blake3::hash` on `bytes` and `Hash::to_hex` on the digest.
/// Trusted: the result is the digest named by `blake3_hex`, and, as the
/// crate's `to_hex` writes two characters from `"0123456789abcdef"` for each
/// of the 32 digest bytes, 64 lowercase hex digits.
#[verifier::external_body]
pub(crate) fn blake3_hex_digest(bytes: &[u8]) -> (h: String)
    ensures
        h@ == blake3_hex(bytes@),
        h@.len() == 64,
        forall|i: int| 0 <= i < h@.len() ==> is_lower_hex(#[trigger] h@[i]),
{
    blake3::hash(bytes).to_hex().to_string()
}

} // verus!
