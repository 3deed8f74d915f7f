//! The time and fresh identifiers, which the library takes from the machine.
use vstd::prelude::*;

verus! {

/// `c` is a lower-case hexadecimal digit.
pub open spec fn is_lower_hex(c: char) -> bool {
    ('0' <= c && c <= '9') || ('a' <= c && c <= 'f')
}

/// `s` is an identifier in hyphenated form: 36 characters, hyphens at positions 8, 13, 18 and
/// 23, lower-case hexadecimal digits elsewhere.
pub open spec fn is_hyphenated_id(s: Seq<char>) -> bool {
    &&& s.len() == 36
    &&& forall|i: int|
        0 <= i < 36 ==> if i == 8 || i == 13 || i == 18 || i == 23 {
            s[i] == '-'
        } else {
            is_lower_hex(#[trigger] s[i])
        }
}

/// Calls `chrono::Utc::now` and renders the instant with
/// `to_rfc3339_opts(SecondsFormat::AutoSi, true)`, the text that chrono's serde support
/// writes for a UTC time. Of the value the contract claims only that it is not empty and
/// ends with `Z`, the zone chrono writes for UTC when asked to; the instant is the clock's.
#[verifier::external_body]
pub(crate) fn now_rfc3339() -> (r: String)
    ensures
        r@.len() > 0,
        r@.last() == 'Z',
{
    chrono::Utc::now().to_rfc3339_opts(chrono::SecondsFormat::AutoSi, true)
}

/// Calls `uuid::Uuid::now_v7` and renders the identifier with `to_string`, which writes uuid's
/// hyphenated lower-case form. Of the value the contract claims only that form; the digits
/// come from the clock and a random source.
#[verifier::external_body]
pub(crate) fn new_change_id() -> (r: String)
    ensures
        is_hyphenated_id(r@),
{
    uuid::Uuid::now_v7().to_string()
}

} // verus!
