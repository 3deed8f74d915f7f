//! The JSON text in which tree, commit and conflict objects are stored and hashed.
use vstd::prelude::*;
use vstd::string::StringSliceAdditionalSpecFns;

verus! {

/// What `serde_json::to_vec` writes for the string `s`: a JSON string literal holding it.
pub uninterp spec fn json_str(s: Seq<char>) -> Seq<u8>;

/// Calls `serde_json::to_vec` on the string `s`. Claimed: the result is the named value for
/// `s`. serde_json writes a string into a `Vec` without reporting an error; should it ever
/// report one, nothing is written, and the named value is then empty.
#[verifier::external_body]
fn json_quoted(s: &str) -> (r: Vec<u8>)
    ensures
        r@ == json_str(s@),
{
    match serde_json::to_vec(s) {
        Ok(v) => v,
        Err(_) => Vec::new(),
    }
}

/// The items joined by commas.
pub open spec fn comma_join(items: Seq<Seq<u8>>) -> Seq<u8>
    decreases items.len(),
{
    if items.len() == 0 {
        Seq::empty()
    } else if items.len() == 1 {
        items[0]
    } else {
        comma_join(items.drop_last()) + seq![0x2Cu8] + items.last()
    }
}

/// A JSON array of strings.
pub open spec fn json_str_array(items: Seq<Seq<char>>) -> Seq<u8> {
    seq![0x5Bu8] + comma_join(items.map_values(|s: Seq<char>| json_str(s))) + seq![0x5Du8]
}

/// Appends `b` to `out`.
pub fn push_bytes(out: &mut Vec<u8>, b: &[u8])
    ensures
        final(out)@ == old(out)@ + b@,
{
    let mut i: usize = 0;
    while i < b.len()
        invariant
            i <= b@.len(),
            out@ == old(out)@ + b@.take(i as int),
        decreases b.len() - i,
    {
        out.push(b[i]);
        i = i + 1;
        assert(b@.take(i as int) =~= b@.take(i - 1) + seq![b@[i - 1]]);
    }
    assert(b@.take(b@.len() as int) =~= b@);
}

/// Appends the UTF-8 bytes of `s` to `out`.
pub fn push_text(out: &mut Vec<u8>, s: &str)
    ensures
        final(out)@ == old(out)@ + s.spec_bytes(),
{
    push_bytes(out, s.as_bytes());
}

/// Appends `s` to `out` as a JSON string literal (see `json_str`).
pub fn push_json_str(out: &mut Vec<u8>, s: &str)
    ensures
        final(out)@ == old(out)@ + json_str(s@),
{
    let q = json_quoted(s);
    push_bytes(out, q.as_slice());
}

/// Appends a JSON array of the strings `items` to `out`.
pub fn push_json_str_array(out: &mut Vec<u8>, items: &Vec<String>)
    ensures
        final(out)@ == old(out)@ + json_str_array(items@.map_values(|s: String| s@)),
{
    let ghost o = out@;
    let ghost strs = items@.map_values(|s: String| s@);
    let ghost js = strs.map_values(|s: Seq<char>| json_str(s));
    out.push(0x5B);
    let mut i: usize = 0;
    while i < items.len()
        invariant
            i <= items@.len(),
            strs == items@.map_values(|s: String| s@),
            js == strs.map_values(|s: Seq<char>| json_str(s)),
            out@ == o + seq![0x5Bu8] + comma_join(js.take(i as int)),
        decreases items.len() - i,
    {
        if i > 0 {
            out.push(0x2C);
        }
        push_json_str(out, items[i].as_str());
        i = i + 1;
        assert(js.take(i as int).drop_last() =~= js.take(i - 1));
        assert(js.take(i as int).last() == json_str(items@[i - 1]@));
    }
    assert(js.take(items@.len() as int) =~= js);
    out.push(0x5D);
    assert(out@ =~= o + json_str_array(strs));
}

} // verus!
