//! Laying text out in fixed-width terminal columns.
use vstd::prelude::*;

verus! {

broadcast use vstd::string::group_string_axioms;

/// A terminal's size.
pub struct Term {
    pub cols: u16,
    pub rows: u16,
}

/// `n` spaces.
pub open spec fn spaces(n: nat) -> Seq<char> {
    Seq::new(n, |i: int| ' ')
}

/// `s` laid out in exactly `width` characters: nothing for a width of 0; when `s` has at
/// least `width` characters, its first `width - 1` characters followed by `…`; otherwise `s`
/// padded with spaces.
pub open spec fn spec_fit(s: Seq<char>, width: nat) -> Seq<char> {
    if width == 0 {
        Seq::empty()
    } else if s.len() >= width {
        s.take(width - 1) + "…"@
    } else {
        s + spaces((width - s.len()) as nat)
    }
}

impl Term {
    /// `s` cut or padded to exactly `width` characters (see `spec_fit`).
    pub fn fit(s: &str, width: usize) -> (r: String)
        ensures
            r@ == spec_fit(s@, width as nat),
    {
        if width == 0 {
            return String::new();
        }
        let n = s.unicode_len();
        if n >= width {
            let a = crate::text::substring(s, 0, width - 1);
            proof {
                reveal_strlit("…");
                assert(s@.subrange(0, width - 1) =~= s@.take(width - 1));
            }
            crate::text::concat(a.as_str(), "…")
        } else {
            let mut out = crate::text::owned(s);
            let mut i: usize = n;
            while i < width
                invariant
                    n <= i <= width,
                    n == s@.len(),
                    out@ == s@ + spaces((i - n) as nat),
                decreases width - i,
            {
                proof {
                    reveal_strlit(" ");
                }
                out = crate::text::concat(out.as_str(), " ");
                assert(spaces((i + 1 - n) as nat) =~= spaces((i - n) as nat).push(' '));
                i = i + 1;
            }
            out
        }
    }
}

/// Whatever the text, it is laid out in exactly `width` characters.
pub proof fn lemma_fit_width(s: Seq<char>, width: nat)
    ensures
        spec_fit(s, width).len() == width,
{
    reveal_strlit("…");
}

} // verus!
