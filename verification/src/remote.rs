//! Remotes, as the repository configuration lists them.
use vstd::prelude::*;
use crate::error::VaultError;
use crate::text::{spec_lines, spec_trim, spec_trim_end, spec_trim_end_matches, spec_trim_start_matches};

verus! {

/// A named remote repository.
#[derive(Debug)]
pub struct Remote {
    pub name: String,
    pub url: String,
}

/// The state of reading the configuration: the current section's name and url, and the
/// remotes found so far.
pub struct RemoteScan {
    pub name: Option<Seq<char>>,
    pub url: Option<Seq<char>>,
    pub found: Seq<(Seq<char>, Seq<char>)>,
}

/// The remotes found, with the current section added when it has a name and a url.
pub open spec fn flushed(st: RemoteScan) -> Seq<(Seq<char>, Seq<char>)> {
    match (st.name, st.url) {
        (Some(n), Some(u)) => st.found.push((n, u)),
        _ => st.found,
    }
}

/// Reading one line: a `[remote "NAME"]` header closes the current section and opens one
/// named `NAME`; a `url = URL` line sets the current url.
pub open spec fn scan_line(st: RemoteScan, raw: Seq<char>) -> RemoteScan {
    let line = spec_trim(raw);
    if "[remote \""@.is_prefix_of(line) {
        RemoteScan {
            name: Some(spec_trim_end_matches(spec_trim_start_matches(line, "[remote \""@), "\"]"@)),
            url: None,
            found: flushed(st),
        }
    } else if "url = "@.is_prefix_of(line) {
        RemoteScan { url: Some(spec_trim(line.skip(6))), ..st }
    } else {
        st
    }
}

/// The state after reading the lines `ls`.
pub open spec fn scan_lines(ls: Seq<Seq<char>>) -> RemoteScan
    decreases ls.len(),
{
    if ls.len() == 0 {
        RemoteScan { name: None, url: None, found: Seq::empty() }
    } else {
        scan_line(scan_lines(ls.drop_last()), ls.last())
    }
}

/// The remotes that the configuration text lists, in order, as (name, url).
pub open spec fn spec_remotes(config: Seq<char>) -> Seq<(Seq<char>, Seq<char>)> {
    flushed(scan_lines(spec_lines(config)))
}

/// The values of a list of remotes.
pub open spec fn remote_views(v: Seq<Remote>) -> Seq<(Seq<char>, Seq<char>)> {
    v.map_values(|r: Remote| (r.name@, r.url@))
}

/// The remotes listed in the configuration text `config`.
pub fn list_remotes(config: &str) -> (r: Vec<Remote>)
    ensures
        remote_views(r@) == spec_remotes(config@),
{
    let ls = crate::text::lines(config);
    let ghost lv = ls@.map_values(|s: String| s@);
    let mut remotes: Vec<Remote> = Vec::new();
    let mut cur_name: Option<String> = None;
    let mut cur_url: Option<String> = None;
    let mut i: usize = 0;
    assert(lv.take(0) =~= Seq::<Seq<char>>::empty());
    while i < ls.len()
        invariant
            i <= lv.len(),
            lv == ls@.map_values(|s: String| s@),
            lv == spec_lines(config@),
            ({
                let st = scan_lines(lv.take(i as int));
                &&& remote_views(remotes@) == st.found
                &&& crate::oplog::opt_seq(cur_name) == st.name
                &&& crate::oplog::opt_seq(cur_url) == st.url
            }),
        decreases ls.len() - i,
    {
        assert(lv.take(i + 1).drop_last() =~= lv.take(i as int));
        assert(lv.take(i + 1).last() == ls@[i as int]@);
        proof {
            reveal_strlit("[remote \"");
            reveal_strlit("url = ");
        }
        let line = crate::text::trim(ls[i].as_str());
        if crate::text::starts_with(line.as_str(), "[remote \"") {
            let ghost before = remote_views(remotes@);
            let n0 = cur_name;
            let u0 = cur_url;
            if let (Some(n), Some(u)) = (n0, u0) {
                let ghost nv = n@;
                let ghost uv = u@;
                remotes.push(Remote { name: n, url: u });
                assert(remote_views(remotes@) =~= before.push((nv, uv)));
            }
            let a = crate::text::trim_start_matches(line.as_str(), "[remote \"");
            let b = crate::text::trim_end_matches(a.as_str(), "\"]");
            cur_name = Some(b);
            cur_url = None;
        } else {
            match crate::text::strip_prefix(line.as_str(), "url = ") {
                Some(rest) => {
                    cur_url = Some(crate::text::trim(rest.as_str()));
                },
                None => {},
            }
        }
        i = i + 1;
    }
    assert(lv.take(lv.len() as int) =~= lv);
    let ghost before = remote_views(remotes@);
    if let (Some(n), Some(u)) = (cur_name, cur_url) {
        let ghost nv = n@;
        let ghost uv = u@;
        remotes.push(Remote { name: n, url: u });
        assert(remote_views(remotes@) =~= before.push((nv, uv)));
    }
    remotes
}

/// The configuration text with the remote `name` at `url` added at the end.
pub fn add_remote(config: &str, name: &str, url: &str) -> (r: String)
    ensures
        r@ == with_remote(config@, name@, url@),
{
    let t = crate::text::concat(config, "\n[remote \"");
    let t = crate::text::concat(t.as_str(), name);
    let t = crate::text::concat(t.as_str(), "\"]\nurl = ");
    let t = crate::text::concat(t.as_str(), url);
    crate::text::concat(t.as_str(), "\n")
}

/// The index of the first remote named `n`, if any.
pub open spec fn first_remote(s: Seq<(Seq<char>, Seq<char>)>, n: Seq<char>) -> Option<int>
    decreases s.len(),
{
    if s.len() == 0 {
        None
    } else if s[0].0 == n {
        Some(0)
    } else {
        match first_remote(s.drop_first(), n) {
            Some(i) => Some(i + 1),
            None => None,
        }
    }
}

/// The first remote named `name` that the configuration text lists.
pub fn get_remote(config: &str, name: &str) -> (r: Result<Remote, VaultError>)
    ensures
        match first_remote(spec_remotes(config@), name@) {
            Some(i) => r matches Ok(x) && (x.name@, x.url@) == spec_remotes(config@)[i],
            None => r matches Err(VaultError::BranchNotFound(m)) && m@ == "remote '"@ + name@ + "'"@,
        },
{
    let rs = list_remotes(config);
    let ghost s = remote_views(rs@);
    let n = crate::text::owned(name);
    let mut i: usize = 0;
    assert(s.skip(0) =~= s);
    while i < rs.len()
        invariant
            i <= s.len(),
            s == remote_views(rs@),
            s == spec_remotes(config@),
            n@ == name@,
            first_remote(s, name@) == match first_remote(s.skip(i as int), name@) {
                Some(j) => Some(j + i),
                None => None::<int>,
            },
        decreases rs.len() - i,
    {
        assert(s.skip(i as int)[0] == (rs@[i as int].name@, rs@[i as int].url@));
        assert(s.skip(i as int).drop_first() =~= s.skip(i + 1));
        if rs[i].name == n {
            return Ok(Remote { name: rs[i].name.clone(), url: rs[i].url.clone() });
        }
        i = i + 1;
    }
    let m = crate::text::concat("remote '", name);
    Err(VaultError::BranchNotFound(crate::text::concat(m.as_str(), "'")))
}


/// The configuration text `config` with a section for the remote `name` at `url` added at
/// the end.
pub open spec fn with_remote(config: Seq<char>, name: Seq<char>, url: Seq<char>) -> Seq<char> {
    config + "\n[remote \""@ + name + "\"]\nurl = "@ + url + "\n"@
}

/// A list whose last remote is named `n` has a first remote named `n`.
proof fn lemma_first_remote_some(s: Seq<(Seq<char>, Seq<char>)>, n: Seq<char>)
    requires
        s.len() > 0,
        s.last().0 == n,
    ensures
        first_remote(s, n) is Some,
    decreases s.len(),
{
    if s[0].0 != n {
        assert(s.drop_first().last() == s.last());
        lemma_first_remote_some(s.drop_first(), n);
    }
}

/// A remote added to a configuration comes last in its list of remotes, with its url
/// trimmed, and a lookup by its name then succeeds: for a name and a url on one line each, a
/// url that is not blank, and a name with which `[remote "` starts its section header only
/// once and `"]` ends it only once.
pub proof fn lemma_added_remote_listed(config: Seq<char>, name: Seq<char>, url: Seq<char>)
    requires
        !name.contains('\n'),
        !url.contains('\n'),
        spec_trim(url).len() > 0,
        !"[remote \""@.is_prefix_of(name + "\"]"@),
        !"\"]"@.is_suffix_of(name),
    ensures
        spec_remotes(with_remote(config, name, url)).len() > 0,
        spec_remotes(with_remote(config, name, url)).last() == (name, spec_trim(url)),
        first_remote(spec_remotes(with_remote(config, name, url)), name) is Some,
{
    reveal_strlit("\n[remote \"");
    reveal_strlit("\"]\nurl = ");
    reveal_strlit("\n");
    reveal_strlit("[remote \"");
    reveal_strlit("\"]");
    reveal_strlit("url = ");
    let p = "[remote \""@;
    let q = "\"]"@;
    let h = p + name + q;
    let u = "url = "@ + url;
    let text = with_remote(config, name, url);
    assert(text =~= config + seq!['\n'] + h + seq!['\n'] + u + seq!['\n']);
    assert(!h.contains('\n')) by {
        if h.contains('\n') {
            let i = choose|i: int| 0 <= i < h.len() && h[i] == '\n';
            if 9 <= i < 9 + name.len() {
                assert(name[i - 9] == '\n');
                assert(name.contains('\n'));
            }
        }
    }
    assert(!u.contains('\n')) by {
        if u.contains('\n') {
            let i = choose|i: int| 0 <= i < u.len() && u[i] == '\n';
            assert(url[i - 6] == '\n');
            assert(url.contains('\n'));
        }
    }
    assert(h.last() == ']');
    let pre = crate::text::lemma_last_two_lines(config, h, u);
    let ls = spec_lines(text);
    assert(ls == pre + seq![h, crate::text::strip_cr(u)]);
    let st0 = scan_lines(pre);
    assert(ls.drop_last() =~= pre + seq![h]);
    assert((pre + seq![h]).drop_last() =~= pre);
    assert(scan_lines(pre + seq![h]) == scan_line(st0, h));
    // the header line names the remote
    crate::text::lemma_trim_start_kept(h);
    assert(spec_trim(h) == h);
    assert(p.is_prefix_of(h));
    assert(h.skip(p.len() as int) =~= name + q);
    assert(spec_trim_start_matches(name + q, p) == name + q);
    assert(spec_trim_start_matches(h, p) == spec_trim_start_matches(h.skip(p.len() as int), p));
    assert(spec_trim_start_matches(h, p) == name + q);
    assert((name + q).take((name + q).len() - q.len()) =~= name);
    assert(q.is_suffix_of(name + q)) by {
        assert((name + q).skip((name + q).len() - q.len()) =~= q);
    }
    assert(spec_trim_end_matches(name, q) == name);
    assert(spec_trim_end_matches(name + q, q) == spec_trim_end_matches(
        (name + q).take((name + q).len() - q.len()),
        q,
    ));
    assert(spec_trim_end_matches(name + q, q) == name);
    let st1 = scan_line(st0, h);
    assert(st1 == RemoteScan { name: Some(name), url: None, found: flushed(st0) });
    // the url line gives the trimmed url
    let u2 = crate::text::strip_cr(u);
    let url2 = if url.len() > 0 && url.last() == '\r' { url.drop_last() } else { url };
    assert(u2 =~= "url = "@ + url2);
    assert(spec_trim(url2) == spec_trim(url)) by {
        if url.len() > 0 && url.last() == '\r' {
            crate::text::lemma_trim_drop_ws(url);
        }
    }
    assert(spec_trim_end(url2).len() > 0) by {
        if spec_trim_end(url2).len() == 0 {
            crate::text::lemma_trim_end_empty(url2);
        }
    }
    crate::text::lemma_trim_start_kept(u2);
    crate::text::lemma_trim_end_concat("url = "@, url2);
    let line = spec_trim(u2);
    assert(line == "url = "@ + spec_trim_end(url2));
    assert(!p.is_prefix_of(line)) by {
        assert(line[0] == 'u');
        assert(p[0] == '[');
    }
    assert("url = "@.is_prefix_of(line));
    assert(line.skip(6) =~= spec_trim_end(url2));
    crate::text::lemma_trim_of_trim_end(url2);
    let st2 = scan_line(st1, u2);
    assert(st2 == RemoteScan { url: Some(spec_trim(url)), ..st1 });
    assert(scan_lines(ls) == st2);
    assert(spec_remotes(text) == flushed(st0).push((name, spec_trim(url))));
    lemma_first_remote_some(spec_remotes(text), name);
}

} // verus!
