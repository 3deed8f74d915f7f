//! Character-level string helpers with exact specifications.
use vstd::prelude::*;
use vstd::string::StrSliceExecFns;

verus! {

broadcast use vstd::string::group_string_axioms;

/// The characters of `s`, in order.
pub fn chars_vec(s: &str) -> (v: Vec<char>)
    ensures
        v@ == s@,
{
    let mut v: Vec<char> = Vec::new();
    for c in it: s.chars()
        invariant
            v@ == it.seq().take(it.index() as int),
            it.seq() == s@,
    {
        v.push(c);
    }
    v
}

/// An owned copy of the characters `from..to` of `s`.
pub fn substring(s: &str, from: usize, to: usize) -> (r: String)
    requires
        from <= to <= s@.len(),
    ensures
        r@ == s@.subrange(from as int, to as int),
{
    s.substring_char(from, to).to_owned()
}

/// An owned copy of `s`.
pub fn owned(s: &str) -> (r: String)
    ensures
        r@ == s@,
{
    s.to_owned()
}

/// `a` followed by `b`.
pub fn concat(a: &str, b: &str) -> (r: String)
    ensures
        r@ == a@ + b@,
{
    let mut r = a.to_owned();
    r.append(b);
    r
}

/// Whether `p` is a prefix of `s`.
pub fn starts_with(s: &str, p: &str) -> (r: bool)
    ensures
        r == p@.is_prefix_of(s@),
{
    let sv = chars_vec(s);
    let pv = chars_vec(p);
    if pv.len() > sv.len() {
        return false;
    }
    let mut i: usize = 0;
    while i < pv.len()
        invariant
            sv@ == s@,
            pv@ == p@,
            pv.len() <= sv.len(),
            i <= pv.len(),
            forall|k: int| 0 <= k < i ==> pv@[k] == sv@[k],
        decreases pv.len() - i,
    {
        if pv[i] != sv[i] {
            return false;
        }
        i = i + 1;
    }
    true
}

/// Whether `p` is a suffix of `s`.
pub fn ends_with(s: &str, p: &str) -> (r: bool)
    ensures
        r == p@.is_suffix_of(s@),
{
    let sv = chars_vec(s);
    let pv = chars_vec(p);
    if pv.len() > sv.len() {
        return false;
    }
    let off = sv.len() - pv.len();
    let mut i: usize = 0;
    while i < pv.len()
        invariant
            sv@ == s@,
            pv@ == p@,
            pv.len() <= sv.len(),
            off == sv.len() - pv.len(),
            i <= pv.len(),
            forall|k: int| 0 <= k < i ==> pv@[k] == sv@[off + k],
        decreases pv.len() - i,
    {
        if pv[i] != sv[off + i] {
            assert(!p@.is_suffix_of(s@)) by {
                assert(s@.subrange(off as int, s@.len() as int)[i as int] == sv@[off + i]);
            }
            return false;
        }
        i = i + 1;
    }
    assert(s@.subrange(s@.len() - p@.len(), s@.len() as int) =~= p@);
    true
}

/// `s` without the prefix `p`, when `s` starts with `p`.
pub fn strip_prefix(s: &str, p: &str) -> (r: Option<String>)
    ensures
        match r {
            Some(t) => p@.is_prefix_of(s@) && t@ == s@.skip(p@.len() as int),
            None => !p@.is_prefix_of(s@),
        },
{
    if starts_with(s, p) {
        let n = p.unicode_len();
        let m = s.unicode_len();
        Some(substring(s, n, m))
    } else {
        None
    }
}

/// `s` with every leading repetition of a non-empty `p` removed.
pub open spec fn spec_trim_start_matches(s: Seq<char>, p: Seq<char>) -> Seq<char>
    decreases s.len(),
{
    if p.len() > 0 && p.is_prefix_of(s) {
        spec_trim_start_matches(s.skip(p.len() as int), p)
    } else {
        s
    }
}

/// `s` with every trailing repetition of a non-empty `p` removed.
pub open spec fn spec_trim_end_matches(s: Seq<char>, p: Seq<char>) -> Seq<char>
    decreases s.len(),
{
    if p.len() > 0 && p.is_suffix_of(s) {
        spec_trim_end_matches(s.take(s.len() - p.len()), p)
    } else {
        s
    }
}

/// Removes every leading repetition of `p` from `s` (`str::trim_start_matches` on a string
/// pattern).
pub fn trim_start_matches(s: &str, p: &str) -> (r: String)
    ensures
        r@ == spec_trim_start_matches(s@, p@),
{
    let mut cur = owned(s);
    let n = p.unicode_len();
    if n == 0 {
        return cur;
    }
    loop
        invariant
            n == p@.len(),
            n > 0,
            spec_trim_start_matches(cur@, p@) == spec_trim_start_matches(s@, p@),
        decreases cur@.len(),
    {
        if starts_with(cur.as_str(), p) {
            let m = cur.as_str().unicode_len();
            let next = substring(cur.as_str(), n, m);
            cur = next;
        } else {
            return cur;
        }
    }
}

/// Removes every trailing repetition of `p` from `s` (`str::trim_end_matches` on a string
/// pattern).
pub fn trim_end_matches(s: &str, p: &str) -> (r: String)
    ensures
        r@ == spec_trim_end_matches(s@, p@),
{
    let mut cur = owned(s);
    let n = p.unicode_len();
    if n == 0 {
        return cur;
    }
    loop
        invariant
            n == p@.len(),
            n > 0,
            spec_trim_end_matches(cur@, p@) == spec_trim_end_matches(s@, p@),
        decreases cur@.len(),
    {
        if ends_with(cur.as_str(), p) {
            let m = cur.as_str().unicode_len();
            let next = substring(cur.as_str(), 0, m - n);
            cur = next;
        } else {
            return cur;
        }
    }
}

/// Unicode `White_Space`, the property that `str::trim` removes.
pub open spec fn is_ws(c: char) -> bool {
    let u = c as u32;
    ||| 0x09 <= u <= 0x0D
    ||| u == 0x20
    ||| u == 0x85
    ||| u == 0xA0
    ||| u == 0x1680
    ||| 0x2000 <= u <= 0x200A
    ||| u == 0x2028
    ||| u == 0x2029
    ||| u == 0x202F
    ||| u == 0x205F
    ||| u == 0x3000
}

/// `s` without leading white space.
pub open spec fn spec_trim_start(s: Seq<char>) -> Seq<char>
    decreases s.len(),
{
    if s.len() > 0 && is_ws(s[0]) {
        spec_trim_start(s.drop_first())
    } else {
        s
    }
}

/// `s` without trailing white space.
pub open spec fn spec_trim_end(s: Seq<char>) -> Seq<char>
    decreases s.len(),
{
    if s.len() > 0 && is_ws(s.last()) {
        spec_trim_end(s.drop_last())
    } else {
        s
    }
}

/// `s` without leading or trailing white space.
pub open spec fn spec_trim(s: Seq<char>) -> Seq<char> {
    spec_trim_end(spec_trim_start(s))
}

/// Whether `c` is Unicode white space (see `is_ws`).
fn ws_char(c: char) -> (r: bool)
    ensures
        r == is_ws(c),
{
    let u = c as u32;
    (0x09 <= u && u <= 0x0D) || u == 0x20 || u == 0x85 || u == 0xA0 || u == 0x1680 || (0x2000 <= u
        && u <= 0x200A) || u == 0x2028 || u == 0x2029 || u == 0x202F || u == 0x205F || u == 0x3000
}

/// `s` without leading white space.
pub fn trim_start(s: &str) -> (r: String)
    ensures
        r@ == spec_trim_start(s@),
{
    let v = chars_vec(s);
    let mut i: usize = 0;
    assert(s@.skip(0) =~= s@);
    while i < v.len() && ws_char(v[i])
        invariant
            i <= v@.len(),
            v@ == s@,
            spec_trim_start(s@) == spec_trim_start(s@.skip(i as int)),
        decreases v.len() - i,
    {
        assert(s@.skip(i as int)[0] == v@[i as int]);
        assert(s@.skip(i as int).drop_first() =~= s@.skip(i + 1));
        i = i + 1;
    }
    if i < v.len() {
        assert(s@.skip(i as int)[0] == v@[i as int]);
    } else {
        assert(s@.skip(i as int).len() == 0);
    }
    assert(s@.subrange(i as int, s@.len() as int) =~= s@.skip(i as int));
    substring(s, i, v.len())
}

/// `s` without leading or trailing white space, as `str::trim` gives it.
pub fn trim(s: &str) -> (r: String)
    ensures
        r@ == spec_trim(s@),
{
    let t = trim_start(s);
    trim_end(t.as_str())
}

/// `s` without trailing white space, as `str::trim_end` gives it.
pub fn trim_end(s: &str) -> (r: String)
    ensures
        r@ == spec_trim_end(s@),
{
    let v = chars_vec(s);
    let mut k: usize = v.len();
    assert(s@.take(s@.len() as int) =~= s@);
    while k > 0 && ws_char(v[k - 1])
        invariant
            k <= v@.len(),
            v@ == s@,
            spec_trim_end(s@) == spec_trim_end(s@.take(k as int)),
        decreases k,
    {
        assert(s@.take(k as int).last() == v@[k - 1]);
        assert(s@.take(k as int).drop_last() =~= s@.take(k - 1));
        k = k - 1;
    }
    if k > 0 {
        assert(s@.take(k as int).last() == v@[k - 1]);
    }
    assert(s@.subrange(0, k as int) =~= s@.take(k as int));
    substring(s, 0, k)
}

/// A line as `str::lines` gives it: a final `"\r"` is dropped when the line ended in `"\n"`.
pub open spec fn strip_cr(line: Seq<char>) -> Seq<char> {
    if line.len() > 0 && line.last() == '\r' {
        line.drop_last()
    } else {
        line
    }
}

/// Index of the first `'\n'` at or after `i`, or the length when there is none.
pub open spec fn next_newline(s: Seq<char>, i: int) -> int
    decreases s.len() - i,
{
    if i >= s.len() {
        s.len() as int
    } else if s[i] == '\n' {
        i
    } else {
        next_newline(s, i + 1)
    }
}

/// The lines of `s` from index `start` on, as `str::lines` splits them.
pub open spec fn lines_from(s: Seq<char>, start: int) -> Seq<Seq<char>>
    decreases s.len() - start,
{
    if start < 0 || start >= s.len() {
        Seq::empty()
    } else {
        let j = next_newline(s, start);
        if j >= s.len() {
            seq![s.subrange(start, s.len() as int)]
        } else if j < start {
            Seq::empty()
        } else {
            seq![strip_cr(s.subrange(start, j))] + lines_from(s, j + 1)
        }
    }
}

/// Where the first `'\n'` at or after `i` stands.
pub proof fn lemma_next_newline(s: Seq<char>, i: int)
    requires
        0 <= i <= s.len(),
    ensures
        i <= next_newline(s, i) <= s.len(),
        next_newline(s, i) < s.len() ==> s[next_newline(s, i)] == '\n',
        forall|k: int| i <= k < next_newline(s, i) ==> s[k] != '\n',
    decreases s.len() - i,
{
    if i < s.len() && s[i] != '\n' {
        lemma_next_newline(s, i + 1);
    }
}

/// The lines from `start` on end with the lines from `k` on, when `k` starts a line.
pub proof fn lemma_lines_suffix(s: Seq<char>, start: int, k: int) -> (pre: Seq<Seq<char>>)
    requires
        0 <= start <= k <= s.len(),
        start == k || s[k - 1] == '\n',
    ensures
        lines_from(s, start) == pre + lines_from(s, k),
    decreases k - start,
{
    if start == k {
        assert(lines_from(s, start) =~= Seq::<Seq<char>>::empty() + lines_from(s, k));
        Seq::empty()
    } else {
        lemma_next_newline(s, start);
        let j = next_newline(s, start);
        assert(j <= k - 1) by {
            if j > k - 1 {
                assert(s[k - 1] != '\n');
            }
        }
        let rest = lemma_lines_suffix(s, j + 1, k);
        let pre = seq![strip_cr(s.subrange(start, j))] + rest;
        assert(lines_from(s, start) =~= pre + lines_from(s, k));
        pre
    }
}

/// The last line of `a + "\n" + p + "\n"` is `p`, for `p` without line break or final
/// `"\r"`.
pub proof fn lemma_last_line(a: Seq<char>, p: Seq<char>)
    requires
        !p.contains('\n'),
        p.len() == 0 || p.last() != '\r',
    ensures
        exists|i: int|
            0 <= i < spec_lines(a + "\n"@ + p + "\n"@).len() && #[trigger] spec_lines(
                a + "\n"@ + p + "\n"@,
            )[i] == p,
{
    reveal_strlit("\n");
    let s = a + "\n"@ + p + "\n"@;
    let k: int = a.len() + 1int;
    assert(s[k - 1] == '\n');
    let pre = lemma_lines_suffix(s, 0, k);
    lemma_next_newline(s, k);
    let j = next_newline(s, k);
    assert(s[k + p.len()] == '\n');
    assert(j == k + p.len()) by {
        if j < k + p.len() {
            assert(s[j] == p[j - k]);
            assert(p.contains(s[j]));
        }
    }
    assert(s.subrange(k, j) =~= p);
    assert(lines_from(s, j + 1) =~= Seq::<Seq<char>>::empty());
    assert(lines_from(s, k) =~= seq![p]);
    assert(spec_lines(s)[pre.len() as int] == p);
}

/// Trimming leaves a suffix, and then a prefix of it.
pub proof fn lemma_trim_parts(s: Seq<char>)
    ensures
        exists|k: int| 0 <= k <= s.len() && spec_trim_start(s) == s.skip(k),
        exists|k: int| 0 <= k <= s.len() && spec_trim_end(s) == s.take(k),
        spec_trim_end(s).len() > 0 ==> !is_ws(spec_trim_end(s).last()),
    decreases s.len(),
{
    if s.len() > 0 {
        lemma_trim_parts(s.drop_first());
        lemma_trim_parts(s.drop_last());
        if is_ws(s[0]) {
            let k = choose|k: int| 0 <= k <= s.drop_first().len() && spec_trim_start(s.drop_first()) == s.drop_first().skip(k);
            assert(s.drop_first().skip(k) =~= s.skip(k + 1));
        } else {
            assert(s.skip(0) =~= s);
        }
        if is_ws(s.last()) {
            let k = choose|k: int| 0 <= k <= s.drop_last().len() && spec_trim_end(s.drop_last()) == s.drop_last().take(k);
            assert(s.drop_last().take(k) =~= s.take(k));
        } else {
            assert(s.take(s.len() as int) =~= s);
        }
    } else {
        assert(s.skip(0) =~= s);
        assert(s.take(0) =~= s);
    }
}

/// A text that trimming leaves unchanged does not end in white space.
pub proof fn lemma_trimmed_end(p: Seq<char>)
    requires
        spec_trim(p) == p,
        p.len() > 0,
    ensures
        !is_ws(p.last()),
{
    lemma_trim_parts(spec_trim_start(p));
}

/// The lines of `a + "\n" + h + "\n" + u + "\n"` end with `h` and `u`, for `h` and `u`
/// without line break and `h` without final `"\r"`.
pub proof fn lemma_last_two_lines(a: Seq<char>, h: Seq<char>, u: Seq<char>) -> (pre: Seq<Seq<char>>)
    requires
        !h.contains('\n'),
        !u.contains('\n'),
        h.len() > 0 && h.last() != '\r',
    ensures
        spec_lines(a + seq!['\n'] + h + seq!['\n'] + u + seq!['\n']) == pre + seq![h, strip_cr(u)],
{
    let s = a + seq!['\n'] + h + seq!['\n'] + u + seq!['\n'];
    let k: int = a.len() + 1int;
    assert(s[k - 1] == '\n');
    let pre = lemma_lines_suffix(s, 0, k);
    lemma_next_newline(s, k);
    let j = next_newline(s, k);
    assert(s[k + h.len()] == '\n');
    assert(j == k + h.len()) by {
        if j < k + h.len() {
            assert(s[j] == h[j - k]);
            assert(h.contains(s[j]));
        }
    }
    assert(s.subrange(k, j) =~= h);
    let k2 = j + 1;
    lemma_next_newline(s, k2);
    let j2 = next_newline(s, k2);
    assert(s[k2 + u.len()] == '\n');
    assert(j2 == k2 + u.len()) by {
        if j2 < k2 + u.len() {
            assert(s[j2] == u[j2 - k2]);
            assert(u.contains(s[j2]));
        }
    }
    assert(s.subrange(k2, j2) =~= u);
    assert(lines_from(s, j2 + 1) =~= Seq::<Seq<char>>::empty());
    assert(lines_from(s, k2) =~= seq![strip_cr(u)]);
    assert(lines_from(s, k) =~= seq![h, strip_cr(u)]);
    pre
}

/// Trimming the start leaves a text that starts with a non-space character unchanged.
pub proof fn lemma_trim_start_kept(s: Seq<char>)
    requires
        s.len() > 0,
        !is_ws(s[0]),
    ensures
        spec_trim_start(s) == s,
{
}

/// Trimming the end of `a + b` trims `b`, when something of `b` is left.
pub proof fn lemma_trim_end_concat(a: Seq<char>, b: Seq<char>)
    requires
        spec_trim_end(b).len() > 0,
    ensures
        spec_trim_end(a + b) == a + spec_trim_end(b),
    decreases b.len(),
{
    if b.len() > 0 && is_ws(b.last()) {
        assert((a + b).drop_last() =~= a + b.drop_last());
        lemma_trim_end_concat(a, b.drop_last());
    } else if b.len() > 0 {
        assert((a + b).last() == b.last());
    }
}

/// Dropping a final white-space character keeps the start trimmed the same way.
proof fn lemma_trim_start_drop_ws(x: Seq<char>)
    requires
        x.len() > 0,
        is_ws(x.last()),
    ensures
        spec_trim_start(x.drop_last()) == if spec_trim_start(x).len() == 0 {
            Seq::<char>::empty()
        } else {
            spec_trim_start(x).drop_last()
        },
        spec_trim_start(x).len() > 0 ==> spec_trim_start(x).last() == x.last(),
    decreases x.len(),
{
    if is_ws(x[0]) {
        if x.len() >= 2 {
            let t = x.drop_first();
            lemma_trim_start_drop_ws(t);
            assert(x.drop_last().drop_first() =~= t.drop_last());
            assert(x.drop_last()[0] == x[0]);
        } else {
            assert(x.drop_first() =~= Seq::<char>::empty());
            assert(x.drop_last() =~= Seq::<char>::empty());
        }
    } else {
        assert(x.len() >= 2);
        assert(x.drop_last()[0] == x[0]);
    }
}

/// A final white-space character does not change what trimming leaves.
pub proof fn lemma_trim_drop_ws(x: Seq<char>)
    requires
        x.len() > 0,
        is_ws(x.last()),
    ensures
        spec_trim(x.drop_last()) == spec_trim(x),
{
    lemma_trim_start_drop_ws(x);
    let y = spec_trim_start(x);
    if y.len() > 0 {
        assert(spec_trim_end(y) == spec_trim_end(y.drop_last()));
    }
}

/// Trimming after trimming the end trims.
pub proof fn lemma_trim_of_trim_end(x: Seq<char>)
    ensures
        spec_trim(spec_trim_end(x)) == spec_trim(x),
    decreases x.len(),
{
    if x.len() > 0 && is_ws(x.last()) {
        lemma_trim_of_trim_end(x.drop_last());
        lemma_trim_drop_ws(x);
    }
}

/// When trimming the end leaves nothing, trimming leaves nothing.
pub proof fn lemma_trim_end_empty(x: Seq<char>)
    requires
        spec_trim_end(x).len() == 0,
    ensures
        spec_trim(x).len() == 0,
    decreases x.len(),
{
    if x.len() > 0 {
        assert(is_ws(x.last()));
        lemma_trim_end_empty(x.drop_last());
        lemma_trim_drop_ws(x);
    }
}

/// The lines of `s` as `str::lines` gives them.
pub open spec fn spec_lines(s: Seq<char>) -> Seq<Seq<char>> {
    lines_from(s, 0)
}

/// The lines of `s`, as `str::lines` gives them: split at `"\n"`, a `"\r"` before it
/// dropped, no empty line after a final line ending.
pub fn lines(s: &str) -> (r: Vec<String>)
    ensures
        r@.map_values(|l: String| l@) == spec_lines(s@),
{
    let v = chars_vec(s);
    let n = v.len();
    let mut out: Vec<String> = Vec::new();
    let mut start: usize = 0;
    assert(out@.map_values(|l: String| l@) + lines_from(s@, 0) =~= spec_lines(s@));
    while start < n
        invariant
            v@ == s@,
            n == s@.len(),
            start <= n,
            out@.map_values(|l: String| l@) + lines_from(s@, start as int) == spec_lines(s@),
        decreases n - start,
    {
        let mut j: usize = start;
        while j < n && v[j] != '\n'
            invariant
                start <= j <= n,
                v@ == s@,
                n == s@.len(),
                next_newline(s@, start as int) == next_newline(s@, j as int),
            decreases n - j,
        {
            j = j + 1;
        }
        proof {
            lemma_next_newline(s@, j as int);
        }
        let ghost before = out@.map_values(|l: String| l@);
        if j >= n {
            let line = substring(s, start, n);
            out.push(line);
            assert(lines_from(s@, start as int) =~= seq![s@.subrange(start as int, n as int)]);
            assert(out@.map_values(|l: String| l@) =~= before.push(s@.subrange(start as int, n as int)));
            assert(lines_from(s@, n as int) =~= Seq::<Seq<char>>::empty());
            start = n;
        } else {
            let mut line = substring(s, start, j);
            if j > start && v[j - 1] == '\r' {
                assert(line@.last() == v@[j - 1]);
                assert(line@.drop_last() =~= s@.subrange(start as int, j - 1));
                line = substring(s, start, j - 1);
            }
            assert(line@ == strip_cr(s@.subrange(start as int, j as int)));
            out.push(line);
            assert(out@.map_values(|l: String| l@) =~= before.push(strip_cr(s@.subrange(start as int, j as int))));
            assert(lines_from(s@, start as int) == seq![strip_cr(s@.subrange(start as int, j as int))] + lines_from(
                s@,
                j + 1,
            ));
            assert(before + lines_from(s@, start as int) =~= before.push(strip_cr(s@.subrange(start as int, j as int)))
                + lines_from(s@, j + 1));
            start = j + 1;
        }
    }
    assert(lines_from(s@, start as int) =~= Seq::<Seq<char>>::empty());
    assert(out@.map_values(|l: String| l@) + Seq::<Seq<char>>::empty() =~= out@.map_values(|l: String| l@));
    out
}

/// What `String::from_utf8_lossy` makes of `bytes`.
pub uninterp spec fn spec_utf8_lossy(bytes: Seq<u8>) -> Seq<char>;

/// Calls `String::from_utf8_lossy`; claimed: the result is the named value for `bytes`, and,
/// as its documentation says, valid UTF-8 is decoded unchanged.
#[verifier::external_body]
pub(crate) fn utf8_lossy(bytes: &[u8]) -> (r: String)
    ensures
        r@ == spec_utf8_lossy(bytes@),
        vstd::utf8::valid_utf8(bytes@) ==> r@ == vstd::utf8::decode_utf8(bytes@),
{
    String::from_utf8_lossy(bytes).to_string()
}

/// The lines of `bytes` read as UTF-8 text, invalid sequences replaced as
/// `String::from_utf8_lossy` does.
pub fn text_lines(bytes: &[u8]) -> (r: Vec<String>)
    ensures
        r@.map_values(|l: String| l@) == spec_lines(spec_utf8_lossy(bytes@)),
{
    let t = utf8_lossy(bytes);
    lines(t.as_str())
}

/// Calls `std::str::from_utf8`; claimed, as its documentation says: it succeeds exactly on
/// valid UTF-8, whose characters it then gives.
#[verifier::external_body]
pub(crate) fn utf8_decode(bytes: &[u8]) -> (r: Option<String>)
    ensures
        match r {
            Some(s) => vstd::utf8::valid_utf8(bytes@) && s@ == vstd::utf8::decode_utf8(bytes@),
            None => !vstd::utf8::valid_utf8(bytes@),
        },
{
    match std::str::from_utf8(bytes) {
        Ok(s) => Some(s.to_string()),
        Err(_) => None,
    }
}

/// The character of a decimal digit.
pub open spec fn digit_char(d: nat) -> char {
    if d == 0 {
        '0'
    } else if d == 1 {
        '1'
    } else if d == 2 {
        '2'
    } else if d == 3 {
        '3'
    } else if d == 4 {
        '4'
    } else if d == 5 {
        '5'
    } else if d == 6 {
        '6'
    } else if d == 7 {
        '7'
    } else if d == 8 {
        '8'
    } else {
        '9'
    }
}

/// The decimal digits of `n`, without leading zeros.
pub open spec fn spec_decimal(n: nat) -> Seq<char>
    decreases n,
{
    if n < 10 {
        seq![digit_char(n)]
    } else {
        spec_decimal(n / 10).push(digit_char(n % 10))
    }
}

fn digit_text(d: usize) -> (r: String)
    requires
        d < 10,
    ensures
        r@ == seq![digit_char(d as nat)],
{
    proof {
        reveal_strlit("0");
        reveal_strlit("1");
        reveal_strlit("2");
        reveal_strlit("3");
        reveal_strlit("4");
        reveal_strlit("5");
        reveal_strlit("6");
        reveal_strlit("7");
        reveal_strlit("8");
        reveal_strlit("9");
    }
    let s = if d == 0 {
        "0"
    } else if d == 1 {
        "1"
    } else if d == 2 {
        "2"
    } else if d == 3 {
        "3"
    } else if d == 4 {
        "4"
    } else if d == 5 {
        "5"
    } else if d == 6 {
        "6"
    } else if d == 7 {
        "7"
    } else if d == 8 {
        "8"
    } else {
        "9"
    };
    assert(s@ =~= seq![digit_char(d as nat)]);
    owned(s)
}

/// `n` written in decimal.
pub fn decimal(n: usize) -> (r: String)
    ensures
        r@ == spec_decimal(n as nat),
    decreases n,
{
    if n < 10 {
        digit_text(n)
    } else {
        let high = decimal(n / 10);
        let low = digit_text(n % 10);
        concat(high.as_str(), low.as_str())
    }
}

} // verus!
