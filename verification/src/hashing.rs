//! Content hashing of object bytes.
use vstd::prelude::*;

verus! {

/// The text that `blake3::hash(data).to_hex()` gives for `data`.
pub uninterp spec fn spec_blake3_hex(data: Seq<u8>) -> Seq<char>;

/// A lowercase hexadecimal digit.
pub open spec fn is_lower_hex(c: char) -> bool {
    ('0' <= c && c <= '9') || ('a' <= c && c <= 'f')
}

/// Calls `blake3::hash` on `data` and renders the digest with `Hash::to_hex`.
/// Claimed: the result is the named value for `data`; as the source of `to_hex` shows, it
/// writes two digits from `"0123456789abcdef"` for each of the 32 digest bytes.
#[verifier::external_body]
pub(crate) fn blake3_hex(data: &[u8]) -> (r: String)
    ensures
        r@ == spec_blake3_hex(data@),
        r@.len() == 64,
        forall|i: int| 0 <= i < 64 ==> is_lower_hex(#[trigger] r@[i]),
{
    blake3::hash(data).to_hex().to_string()
}

} // verus!
