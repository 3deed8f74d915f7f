//! Ignore patterns: which working-directory paths a snapshot leaves out.
use vstd::prelude::*;
use crate::text::{spec_lines, spec_trim};

verus! {

/// A pattern line of an ignore file: not blank and not a comment.
pub open spec fn is_pattern_line(l: Seq<char>) -> bool {
    spec_trim(l).len() > 0 && !(seq!['#'].is_prefix_of(l))
}

/// The pattern lines of `s`, in order, as they stand.
pub open spec fn pattern_lines(ls: Seq<Seq<char>>) -> Seq<Seq<char>>
    decreases ls.len(),
{
    if ls.len() == 0 {
        Seq::empty()
    } else if is_pattern_line(ls.last()) {
        pattern_lines(ls.drop_last()).push(ls.last())
    } else {
        pattern_lines(ls.drop_last())
    }
}

/// The patterns of an ignore file's text: its pattern lines, trimmed.
pub open spec fn spec_patterns(text: Seq<char>) -> Seq<Seq<char>> {
    pattern_lines(spec_lines(text)).map_values(|l: Seq<char>| spec_trim(l))
}

/// `rel` matches `p`: `p` is a prefix of it, or `p` is `*` followed by a suffix of it.
pub open spec fn pattern_matches(rel: Seq<char>, p: Seq<char>) -> bool {
    p.is_prefix_of(rel) || (p.len() > 0 && p[0] == '*' && p.skip(1).is_suffix_of(rel))
}

/// Some pattern matches `rel`.
pub open spec fn spec_ignored(rel: Seq<char>, pats: Seq<Seq<char>>) -> bool {
    exists|i: int| 0 <= i < pats.len() && pattern_matches(rel, #[trigger] pats[i])
}

/// The first pattern that matches `rel`, if any.
pub open spec fn first_match(rel: Seq<char>, pats: Seq<Seq<char>>) -> Option<Seq<char>>
    decreases pats.len(),
{
    if pats.len() == 0 {
        None
    } else if pattern_matches(rel, pats[0]) {
        Some(pats[0])
    } else {
        first_match(rel, pats.drop_first())
    }
}

/// The first match exists exactly when some pattern matches, and it is a matching pattern.
pub proof fn lemma_first_match(rel: Seq<char>, pats: Seq<Seq<char>>)
    ensures
        first_match(rel, pats) is Some <==> spec_ignored(rel, pats),
        first_match(rel, pats) matches Some(p) ==> pattern_matches(rel, p) && pats.contains(p),
    decreases pats.len(),
{
    if pats.len() > 0 {
        lemma_first_match(rel, pats.drop_first());
        if pattern_matches(rel, pats[0]) {
            assert(pats[0] == pats[0]);
        } else {
            if spec_ignored(rel, pats) {
                let i = choose|i: int| 0 <= i < pats.len() && pattern_matches(rel, #[trigger] pats[i]);
                assert(i > 0);
                assert(pats.drop_first()[i - 1] == pats[i]);
            }
            if spec_ignored(rel, pats.drop_first()) {
                let i = choose|i: int|
                    0 <= i < pats.drop_first().len() && pattern_matches(rel, #[trigger] pats.drop_first()[i]);
                assert(pats[i + 1] == pats.drop_first()[i]);
            }
            if first_match(rel, pats) is Some {
                let p = first_match(rel, pats)->0;
                let i = choose|i: int| 0 <= i < pats.drop_first().len() && pats.drop_first()[i] == p;
                assert(pats[i + 1] == p);
            }
        }
    }
}

/// Whether `rel` matches the pattern `p`.
fn matches_pattern(rel: &str, p: &str) -> (r: bool)
    ensures
        r == pattern_matches(rel@, p@),
{
    if crate::text::starts_with(rel, p) {
        return true;
    }
    proof {
        reveal_strlit("*");
    }
    match crate::text::strip_prefix(p, "*") {
        Some(suffix) => {
            assert("*"@ =~= seq!['*']);
            assert(p@.subrange(0, 1)[0] == p@[0]);
            assert(suffix@ == p@.skip(1));
            crate::text::ends_with(rel, suffix.as_str())
        },
        None => {
            assert(!(p@.len() > 0 && p@[0] == '*')) by {
                if p@.len() > 0 && p@[0] == '*' {
                    assert(p@.take(1) =~= "*"@);
                }
            }
            false
        },
    }
}

/// The first of `patterns` that matches `rel`, if any.
pub fn first_matching(rel: &str, patterns: &Vec<String>) -> (r: Option<String>)
    ensures
        match r {
            Some(p) => first_match(rel@, patterns@.map_values(|s: String| s@)) == Some(p@),
            None => first_match(rel@, patterns@.map_values(|s: String| s@)) is None,
        },
{
    let ghost pv = patterns@.map_values(|s: String| s@);
    let mut i: usize = 0;
    assert(pv.skip(0) =~= pv);
    while i < patterns.len()
        invariant
            i <= pv.len(),
            pv == patterns@.map_values(|s: String| s@),
            first_match(rel@, pv) == first_match(rel@, pv.skip(i as int)),
        decreases patterns.len() - i,
    {
        assert(pv.skip(i as int)[0] == patterns@[i as int]@);
        assert(pv.skip(i as int).drop_first() =~= pv.skip(i + 1));
        if matches_pattern(rel, patterns[i].as_str()) {
            return Some(patterns[i].clone());
        }
        i = i + 1;
    }
    assert(pv.skip(i as int).len() == 0);
    None
}

/// Whether some pattern matches `rel`.
pub fn is_ignored(rel: &str, patterns: &Vec<String>) -> (r: bool)
    ensures
        r == spec_ignored(rel@, patterns@.map_values(|s: String| s@)),
{
    proof {
        lemma_first_match(rel@, patterns@.map_values(|s: String| s@));
    }
    first_matching(rel, patterns).is_some()
}

/// Whether a line is a pattern line.
fn pattern_line(l: &str) -> (r: bool)
    ensures
        r == is_pattern_line(l@),
{
    let t = crate::text::trim(l);
    proof {
        reveal_strlit("#");
    }
    let c = crate::text::starts_with(l, "#");
    assert(seq!['#'] =~= "#"@);
    t.unicode_len() > 0 && !c
}

/// The pattern lines of a text, as they stand (`trim` false) or trimmed (`trim` true).
fn pattern_lines_of(text: &str, trim: bool) -> (r: Vec<String>)
    ensures
        r@.map_values(|s: String| s@) == if trim {
            spec_patterns(text@)
        } else {
            pattern_lines(spec_lines(text@))
        },
{
    let ls = crate::text::lines(text);
    let ghost lv = ls@.map_values(|s: String| s@);
    let mut out: Vec<String> = Vec::new();
    let mut i: usize = 0;
    assert(lv.take(0) =~= Seq::<Seq<char>>::empty());
    while i < ls.len()
        invariant
            i <= lv.len(),
            lv == ls@.map_values(|s: String| s@),
            lv == spec_lines(text@),
            out@.map_values(|s: String| s@) == if trim {
                pattern_lines(lv.take(i as int)).map_values(|l: Seq<char>| spec_trim(l))
            } else {
                pattern_lines(lv.take(i as int))
            },
        decreases ls.len() - i,
    {
        assert(lv.take(i + 1).drop_last() =~= lv.take(i as int));
        assert(lv.take(i + 1).last() == ls@[i as int]@);
        let ghost before = out@.map_values(|s: String| s@);
        if pattern_line(ls[i].as_str()) {
            if trim {
                out.push(crate::text::trim(ls[i].as_str()));
            } else {
                out.push(ls[i].clone());
            }
            assert(out@.map_values(|s: String| s@) =~= before.push(out@.last()@));
        }
        proof {
            let pl = pattern_lines(lv.take(i + 1));
            assert(trim ==> pl.map_values(|l: Seq<char>| spec_trim(l)) =~= if is_pattern_line(lv[i as int]) {
                pattern_lines(lv.take(i as int)).map_values(|l: Seq<char>| spec_trim(l)).push(spec_trim(lv[i as int]))
            } else {
                pattern_lines(lv.take(i as int)).map_values(|l: Seq<char>| spec_trim(l))
            });
        }
        i = i + 1;
    }
    assert(lv.take(lv.len() as int) =~= lv);
    out
}

/// The ignore patterns of an ignore file's text: each line that is neither blank nor starts
/// with `#`, trimmed.
pub fn parse_patterns(text: &str) -> (r: Vec<String>)
    ensures
        r@.map_values(|s: String| s@) == spec_patterns(text@),
{
    pattern_lines_of(text, true)
}

/// The pattern lines of an ignore file's text, as they stand.
pub fn pattern_line_list(text: &str) -> (r: Vec<String>)
    ensures
        r@.map_values(|s: String| s@) == pattern_lines(spec_lines(text@)),
{
    pattern_lines_of(text, false)
}

/// A pattern ignores the path that it names exactly and every path it is a prefix of; a
/// pattern `*x` ignores every path that ends with `x`. So a list of patterns ignores each path
/// that one of them is a prefix of: in particular `is_ignored(p, [p])`.
pub proof fn lemma_pattern_prefix(rel: Seq<char>, pats: Seq<Seq<char>>, k: int)
    ensures
        forall|p: Seq<char>| p.is_prefix_of(rel) ==> #[trigger] pattern_matches(rel, p),
        pattern_matches(rel, rel),
        forall|p: Seq<char>|
            p.len() > 0 && p[0] == '*' && p.skip(1).is_suffix_of(rel) ==> #[trigger] pattern_matches(rel, p),
        0 <= k < pats.len() && pats[k].is_prefix_of(rel) ==> spec_ignored(rel, pats) && first_match(rel, pats) is Some,
        spec_ignored(rel, seq![rel]),
{
    assert(rel.is_prefix_of(rel));
    assert(seq![rel][0] == rel);
    lemma_first_match(rel, pats);
}

} // verus!
