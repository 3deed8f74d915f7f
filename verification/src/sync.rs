//! Finding commits by hash prefix, and gathering and framing the objects a push sends.
use vstd::prelude::*;
use vstd::string::StringSliceAdditionalSpecFns;
use crate::dag::{log_hashes, log_walk};
use crate::diff::walk_depth;
use crate::error::VaultError;
use crate::objects::{CommitView, EntryKind, EntryView, str_views};
use crate::store::{ObjectStore, StoreView, resolve_head_of};
use crate::text::spec_decimal;

verus! {

/// Why no commit was found for a prefix.
#[derive(Debug)]
pub enum LookupError {
    NoCommits,
    NoMatch,
    Store(VaultError),
}

/// The first of `hs` that starts with `p`, if any.
pub open spec fn first_with_prefix(hs: Seq<Seq<char>>, p: Seq<char>) -> Option<Seq<char>>
    decreases hs.len(),
{
    if hs.len() == 0 {
        None
    } else if p.is_prefix_of(hs[0]) {
        Some(hs[0])
    } else {
        first_with_prefix(hs.drop_first(), p)
    }
}

/// The commit that the hash prefix `p` names: HEAD's commit when its hash starts with `p`,
/// else the first commit of HEAD's log (newest first, see `dag::log_of`) whose hash does.
pub open spec fn prefix_lookup(v: StoreView, p: Seq<char>) -> Result<Seq<char>, LookupError> {
    match resolve_head_of(v) {
        None => Err(LookupError::NoCommits),
        Some(h) => if p.is_prefix_of(h) {
            Ok(h)
        } else {
            match log_hashes(v, h) {
                None => Err(LookupError::Store(VaultError::ObjectNotFound(arbitrary()))),
                Some(order) => match first_with_prefix(order, p) {
                    Some(x) => Ok(x),
                    None => Err(LookupError::NoMatch),
                },
            }
        },
    }
}

/// The commit that the hash prefix `prefix` names (see `prefix_lookup`).
pub fn resolve_hash(store: &ObjectStore, prefix: &str) -> (r: Result<String, LookupError>)
    requires
        store.wf(),
    ensures
        match prefix_lookup(store@, prefix@) {
            Ok(x) => r matches Ok(y) && y@ == x,
            Err(LookupError::NoCommits) => r matches Err(LookupError::NoCommits),
            Err(LookupError::NoMatch) => r matches Err(LookupError::NoMatch),
            Err(LookupError::Store(_)) => r matches Err(LookupError::Store(VaultError::ObjectNotFound(_))),
        },
{
    let head = match store.resolve_head() {
        Some(h) => h,
        None => return Err(LookupError::NoCommits),
    };
    if crate::text::starts_with(head.as_str(), prefix) {
        return Ok(head);
    }
    let commits = match log_walk(store, head.as_str()) {
        Ok(c) => c,
        Err(e) => return Err(LookupError::Store(e)),
    };
    let ghost order = crate::dag::log_views(commits@).map_values(|e: (Seq<char>, CommitView)| e.0);
    assert(log_hashes(store@, head@) == Some(order));
    let mut i: usize = 0;
    assert(order.skip(0) =~= order);
    while i < commits.len()
        invariant
            i <= commits@.len(),
            order.len() == commits@.len(),
            resolve_head_of(store@) == Some(head@),
            !prefix@.is_prefix_of(head@),
            log_hashes(store@, head@) == Some(order),
            order == crate::dag::log_views(commits@).map_values(|e: (Seq<char>, CommitView)| e.0),
            first_with_prefix(order, prefix@) == first_with_prefix(order.skip(i as int), prefix@),
        decreases commits.len() - i,
    {
        assert(order.skip(i as int)[0] == commits@[i as int].0@);
        assert(order.skip(i as int).drop_first() =~= order.skip(i + 1));
        if crate::text::starts_with(commits[i].0.as_str(), prefix) {
            return Ok(commits[i].0.clone());
        }
        i = i + 1;
    }
    Err(LookupError::NoMatch)
}

/// The commit that the hash prefix `prefix` names (see `prefix_lookup`).
pub fn resolve_short_hash(store: &ObjectStore, prefix: &str) -> (r: Result<String, LookupError>)
    requires
        store.wf(),
    ensures
        match prefix_lookup(store@, prefix@) {
            Ok(x) => r matches Ok(y) && y@ == x,
            Err(LookupError::NoCommits) => r matches Err(LookupError::NoCommits),
            Err(LookupError::NoMatch) => r matches Err(LookupError::NoMatch),
            Err(LookupError::Store(_)) => r matches Err(LookupError::Store(VaultError::ObjectNotFound(_))),
        },
{
    resolve_hash(store, prefix)
}

/// What has been gathered: the keys seen and the (kind, hash) list to send.
pub struct Gathered {
    pub seen: Set<Seq<char>>,
    pub objects: Seq<(Seq<char>, Seq<char>)>,
}

/// `g` with `(kind, hash)` added under `key`, unless `key` was seen.
pub open spec fn add_once(g: Gathered, key: Seq<char>, kind: Seq<char>, hash: Seq<char>) -> Gathered {
    if g.seen.contains(key) {
        g
    } else {
        Gathered { seen: g.seen.insert(key), objects: g.objects.push((kind, hash)) }
    }
}

/// What gathering the tree `h` and everything below it adds to `g`, descending at most
/// `fuel` levels; nothing when a tree on the way is missing.
pub open spec fn gather_tree(trees: Map<Seq<char>, Seq<EntryView>>, h: Seq<char>, fuel: nat, g: Gathered) -> Option<
    Gathered,
>
    decreases fuel, 0nat,
{
    let key = "tree:"@ + h;
    if g.seen.contains(key) {
        Some(g)
    } else {
        let g1 = Gathered { seen: g.seen.insert(key), objects: g.objects.push(("tree"@, h)) };
        if fuel == 0 || !trees.contains_key(h) {
            None
        } else {
            gather_entries(trees, trees[h], (fuel - 1) as nat, g1)
        }
    }
}

/// What gathering the entries `es` adds to `g`, in order.
pub open spec fn gather_entries(
    trees: Map<Seq<char>, Seq<EntryView>>,
    es: Seq<EntryView>,
    fuel: nat,
    g: Gathered,
) -> Option<Gathered>
    decreases fuel, es.len() + 1,
{
    if es.len() == 0 {
        Some(g)
    } else {
        match gather_entries(trees, es.drop_last(), fuel, g) {
            None => None,
            Some(g2) => {
                let e = es.last();
                match e.kind {
                    EntryKind::Blob => Some(add_once(g2, "blob:"@ + e.hash, "blob"@, e.hash)),
                    EntryKind::Conflict => Some(add_once(g2, "conflict:"@ + e.hash, "conflict"@, e.hash)),
                    EntryKind::Tree => gather_tree(trees, e.hash, fuel, g2),
                }
            },
        }
    }
}

/// What gathering the commits `hs` (in order, leaving out every one that a commit of `have`
/// reaches, since the other side has it) and their trees adds to `g`.
pub open spec fn gather_commits(v: StoreView, hs: Seq<Seq<char>>, have: Seq<Seq<char>>, g: Gathered) -> Option<
    Gathered,
>
    decreases hs.len(),
{
    if hs.len() == 0 {
        Some(g)
    } else if crate::dag::reach_any(v, have, hs[0]) {
        gather_commits(v, hs.drop_first(), have, g)
    } else {
        let g1 = add_once(g, hs[0], "commit"@, hs[0]);
        match gather_tree(v.trees, v.commits[hs[0]].tree, walk_depth(), g1) {
            None => None,
            Some(g2) => gather_commits(v, hs.drop_first(), have, g2),
        }
    }
}

/// The objects to send for the history of `local` to a side that has the commits `have` and
/// their histories: every commit of the log of `local` (newest first) that no commit of `have`
/// reaches, then its trees and their blobs and conflicts, each object once.
pub open spec fn objects_to_send(v: StoreView, local: Seq<char>, have: Seq<Seq<char>>) -> Option<
    Seq<(Seq<char>, Seq<char>)>,
> {
    match log_hashes(v, local) {
        None => None,
        Some(hs) => match gather_commits(v, hs, have, Gathered { seen: Set::empty(), objects: Seq::empty() }) {
            Some(g) => Some(g.objects),
            None => None,
        },
    }
}

/// The (kind, hash) values of a list.
pub open spec fn pair_views(v: Seq<(String, String)>) -> Seq<(Seq<char>, Seq<char>)> {
    v.map_values(|e: (String, String)| (e.0@, e.1@))
}

/// Adds `(kind, hash)` under `key` unless `key` was seen.
fn add_object(
    seen: &mut vstd::hash_map::StringHashMap<bool>,
    objects: &mut Vec<(String, String)>,
    key: String,
    kind: &str,
    hash: &str,
)
    ensures
        ({
            let g = add_once(
                Gathered { seen: old(seen)@.dom(), objects: pair_views(old(objects)@) },
                key@,
                kind@,
                hash@,
            );
            final(seen)@.dom() == g.seen && pair_views(final(objects)@) == g.objects
        }),
{
    if !seen.contains_key(key.as_str()) {
        let ghost before = pair_views(objects@);
        seen.insert(key, true);
        objects.push((crate::text::owned(kind), crate::text::owned(hash)));
        assert(pair_views(objects@) =~= before.push((kind@, hash@)));
    }
}

fn collect_tree_rec(
    store: &ObjectStore,
    hash: &str,
    seen: &mut vstd::hash_map::StringHashMap<bool>,
    objects: &mut Vec<(String, String)>,
    fuel: usize,
) -> (r: Result<(), VaultError>)
    ensures
        match gather_tree(
            store@.trees,
            hash@,
            fuel as nat,
            Gathered { seen: old(seen)@.dom(), objects: pair_views(old(objects)@) },
        ) {
            Some(g) => r is Ok && final(seen)@.dom() == g.seen && pair_views(final(objects)@) == g.objects,
            None => r matches Err(VaultError::ObjectNotFound(_)),
        },
    decreases fuel,
{
    proof {
        reveal_strlit("tree:");
        reveal_strlit("tree");
    }
    let key = crate::text::concat("tree:", hash);
    if seen.contains_key(key.as_str()) {
        return Ok(());
    }
    let ghost before = pair_views(objects@);
    seen.insert(key, true);
    objects.push((crate::text::owned("tree"), crate::text::owned(hash)));
    assert(pair_views(objects@) =~= before.push(("tree"@, hash@)));
    if fuel == 0 {
        return Err(VaultError::ObjectNotFound(crate::text::owned(hash)));
    }
    let tree = store.read_tree(hash)?;
    let ghost es = tree@;
    let ghost g1 = Gathered { seen: seen@.dom(), objects: pair_views(objects@) };
    let ghost f = (fuel - 1) as nat;
    let ghost g_old = Gathered { seen: old(seen)@.dom(), objects: pair_views(old(objects)@) };
    assert(gather_tree(store@.trees, hash@, fuel as nat, g_old) == gather_entries(store@.trees, es, f, g1));
    let mut i: usize = 0;
    assert(es.take(0) =~= Seq::<EntryView>::empty());
    while i < tree.entries.len()
        invariant
            i <= es.len(),
            store@.trees.contains_key(hash@),
            g_old == (Gathered { seen: old(seen)@.dom(), objects: pair_views(old(objects)@) }),
            gather_tree(store@.trees, hash@, fuel as nat, g_old) == gather_entries(store@.trees, es, f, g1),
            es == tree@,
            es == store@.trees[hash@],
            f == fuel - 1,
            fuel > 0,
            gather_entries(store@.trees, es.take(i as int), f, g1) == Some(
                Gathered { seen: seen@.dom(), objects: pair_views(objects@) },
            ),
        decreases tree.entries.len() - i,
    {
        let e = &tree.entries[i];
        assert(es[i as int] == e@);
        assert(es.take(i + 1).drop_last() =~= es.take(i as int));
        assert(es.take(i + 1).last() == e@);
        proof {
            reveal_strlit("blob:");
            reveal_strlit("blob");
            reveal_strlit("conflict:");
            reveal_strlit("conflict");
        }
        match e.kind {
            EntryKind::Blob => {
                add_object(seen, objects, crate::text::concat("blob:", e.hash.as_str()), "blob", e.hash.as_str());
            },
            EntryKind::Tree => {
                let ghost cur = Gathered { seen: seen@.dom(), objects: pair_views(objects@) };
                let res = collect_tree_rec(store, e.hash.as_str(), seen, objects, fuel - 1);
                if res.is_err() {
                    proof {
                        assert(gather_tree(store@.trees, e.hash@, f, cur) is None);
                        assert(gather_entries(store@.trees, es.take(i + 1), f, g1) is None);
                        lemma_gather_entries_none(store@.trees, es, f, g1, i + 1);
                        assert(gather_tree(store@.trees, hash@, fuel as nat, g_old) is None);
                        assert(gather_tree(
                            store@.trees,
                            hash@,
                            fuel as nat,
                            Gathered { seen: old(seen)@.dom(), objects: pair_views(old(objects)@) },
                        ) is None);
                    }
                    return res;
                }
            },
            EntryKind::Conflict => {
                add_object(
                    seen,
                    objects,
                    crate::text::concat("conflict:", e.hash.as_str()),
                    "conflict",
                    e.hash.as_str(),
                );
            },
        }
        i = i + 1;
    }
    assert(es.take(es.len() as int) =~= es);
    Ok(())
}

/// Once the entries up to `k` fail, all of them fail.
proof fn lemma_gather_entries_none(
    trees: Map<Seq<char>, Seq<EntryView>>,
    es: Seq<EntryView>,
    fuel: nat,
    g: Gathered,
    k: int,
)
    requires
        0 <= k <= es.len(),
        gather_entries(trees, es.take(k), fuel, g) is None,
    ensures
        gather_entries(trees, es, fuel, g) is None,
    decreases es.len() - k,
{
    if k < es.len() {
        assert(es.take(k + 1).drop_last() =~= es.take(k));
        lemma_gather_entries_none(trees, es, fuel, g, k + 1);
    } else {
        assert(es.take(k) =~= es);
    }
}

/// Adds the tree `hash`, and the trees, blobs and conflicts below it, to `objects`, each
/// once, recording the keys in `seen`.
pub fn collect_tree_objects(
    store: &ObjectStore,
    hash: &str,
    seen: &mut vstd::hash_map::StringHashMap<bool>,
    objects: &mut Vec<(String, String)>,
) -> (r: Result<(), VaultError>)
    ensures
        match gather_tree(
            store@.trees,
            hash@,
            walk_depth(),
            Gathered { seen: old(seen)@.dom(), objects: pair_views(old(objects)@) },
        ) {
            Some(g) => r is Ok && final(seen)@.dom() == g.seen && pair_views(final(objects)@) == g.objects,
            None => r matches Err(VaultError::ObjectNotFound(_)),
        },
{
    collect_tree_rec(store, hash, seen, objects, usize::MAX)
}

/// The objects to send for the history of `local_hash` to a side that has the commits
/// `have` (see `objects_to_send`).
pub fn collect_local_objects(store: &ObjectStore, local_hash: &str, have: &Vec<String>) -> (r: Result<
    Vec<(String, String)>,
    VaultError,
>)
    requires
        store.wf(),
    ensures
        match objects_to_send(store@, local_hash@, str_views(have@)) {
            Some(o) => r matches Ok(v) && pair_views(v@) == o,
            None => r matches Err(VaultError::ObjectNotFound(_)),
        },
{
    let commits = log_walk(store, local_hash)?;
    let known = crate::dag::reachable_from_any(store, have);
    let ghost hs = crate::dag::log_views(commits@).map_values(|e: (Seq<char>, CommitView)| e.0);
    assert(log_hashes(store@, local_hash@) == Some(hs));
    let ghost hv = str_views(have@);
    let mut objects: Vec<(String, String)> = Vec::new();
    let mut seen: vstd::hash_map::StringHashMap<bool> = vstd::hash_map::StringHashMap::new();
    let ghost g0 = Gathered { seen: Set::empty(), objects: Seq::empty() };
    assert(seen@.dom() =~= Set::<Seq<char>>::empty());
    assert(pair_views(objects@) =~= Seq::<(Seq<char>, Seq<char>)>::empty());
    let mut i: usize = 0;
    assert(hs.skip(0) =~= hs);
    while i < commits.len()
        invariant
            i <= commits@.len(),
            hs.len() == commits@.len(),
            log_hashes(store@, local_hash@) == Some(hs),
            g0 == (Gathered { seen: Set::empty(), objects: Seq::empty() }),
            hs == crate::dag::log_views(commits@).map_values(|e: (Seq<char>, CommitView)| e.0),
            hv == str_views(have@),
            forall|h: Seq<char>| known@.dom().contains(h) <==> crate::dag::reach_any(store@, hv, h),
            forall|k: int|
                0 <= k < commits@.len() ==> store@.commits.contains_key(#[trigger] commits@[k].0@)
                    && store@.commits[commits@[k].0@] == commits@[k].1@,
            gather_commits(store@, hs, hv, g0) == gather_commits(
                store@,
                hs.skip(i as int),
                hv,
                Gathered { seen: seen@.dom(), objects: pair_views(objects@) },
            ),
        decreases commits.len() - i,
    {
        assert(hs.skip(i as int)[0] == commits@[i as int].0@);
        assert(hs.skip(i as int).drop_first() =~= hs.skip(i + 1));
        let ghost rest = hs.skip(i as int);
        let ghost cur = Gathered { seen: seen@.dom(), objects: pair_views(objects@) };
        if known.contains_key(commits[i].0.as_str()) {
            assert(crate::dag::reach_any(store@, hv, rest[0]));
            assert(gather_commits(store@, rest, hv, cur) == gather_commits(store@, hs.skip(i + 1), hv, cur));
            i = i + 1;
            continue;
        }
        proof {
            reveal_strlit("commit");
        }
        add_object(&mut seen, &mut objects, commits[i].0.clone(), "commit", commits[i].0.as_str());
        let ghost g1 = Gathered { seen: seen@.dom(), objects: pair_views(objects@) };
        assert(g1 == add_once(cur, rest[0], "commit"@, rest[0]));
        assert(store@.commits[rest[0]].tree == commits@[i as int].1@.tree);
        let res = collect_tree_objects(store, commits[i].1.tree.as_str(), &mut seen, &mut objects);
        if res.is_err() {
            assert(gather_tree(store@.trees, store@.commits[rest[0]].tree, walk_depth(), g1) is None);
            assert(gather_commits(store@, rest, hv, cur) is None);
            assert(objects_to_send(store@, local_hash@, hv) is None);
            return Err(res.unwrap_err());
        }
        i = i + 1;
    }
    assert(hs.skip(i as int).len() == 0);
    Ok(objects)
}

/// The header of a pack record: `{"hash":H,"kind":K,"size":N}` as serde_json writes an
/// object with those members, keys in order.
pub open spec fn pack_header(kind: Seq<char>, hash: Seq<char>, size: nat) -> Seq<u8> {
    "{\"hash\":".spec_bytes() + crate::json::json_str(hash) + ",\"kind\":".spec_bytes()
        + crate::json::json_str(kind) + ",\"size\":".spec_bytes() + vstd::utf8::encode_utf8(
        spec_decimal(size),
    ) + "}".spec_bytes()
}

/// A pack record: the header, a newline, the data and a newline.
pub open spec fn pack_record(kind: Seq<char>, hash: Seq<char>, data: Seq<u8>) -> Seq<u8> {
    pack_header(kind, hash, data.len()) + seq![10u8] + data + seq![10u8]
}

/// Frames objects into a pack.
pub struct PackWriter {
    pub buf: Vec<u8>,
}

impl PackWriter {
    /// A writer over `buf`.
    pub fn new(buf: Vec<u8>) -> (r: PackWriter)
        ensures
            r.buf@ == buf@,
    {
        PackWriter { buf }
    }

    /// Adds the record of one object.
    pub fn write(&mut self, kind: &str, hash: &str, data: &[u8]) -> (r: Result<(), VaultError>)
        ensures
            r is Ok,
            final(self).buf@ == old(self).buf@ + pack_record(kind@, hash@, data@),
    {
        let ghost b0 = self.buf@;
        crate::json::push_text(&mut self.buf, "{\"hash\":");
        crate::json::push_json_str(&mut self.buf, hash);
        crate::json::push_text(&mut self.buf, ",\"kind\":");
        crate::json::push_json_str(&mut self.buf, kind);
        crate::json::push_text(&mut self.buf, ",\"size\":");
        let n = crate::text::decimal(data.len());
        crate::json::push_text(&mut self.buf, n.as_str());
        crate::json::push_text(&mut self.buf, "}");
        self.buf.push(10);
        crate::json::push_bytes(&mut self.buf, data);
        self.buf.push(10);
        assert(self.buf@ =~= b0 + pack_record(kind@, hash@, data@));
        Ok(())
    }

    /// Nothing is buffered beyond `buf`.
    pub fn flush(&self) -> (r: Result<(), VaultError>)
        ensures
            r is Ok,
    {
        Ok(())
    }
}

/// The index of the last `/` of `t`, or -1.
pub open spec fn last_slash(t: Seq<char>) -> int
    decreases t.len(),
{
    if t.len() == 0 {
        -1
    } else if t.last() == '/' {
        t.len() - 1
    } else {
        last_slash(t.drop_last())
    }
}

/// The last `/` of `t` is at `last_slash(t)`, and nothing after it is a `/`.
proof fn lemma_last_slash(t: Seq<char>)
    ensures
        -1 <= last_slash(t) < t.len(),
        last_slash(t) >= 0 ==> t[last_slash(t)] == '/',
        forall|k: int| last_slash(t) < k < t.len() ==> t[k] != '/',
    decreases t.len(),
{
    if t.len() > 0 && t.last() != '/' {
        lemma_last_slash(t.drop_last());
        assert forall|k: int| last_slash(t) < k < t.len() implies t[k] != '/' by {
            if k < t.len() - 1 {
                assert(t.drop_last()[k] == t[k]);
            }
        }
    }
}

/// `url` without trailing `/`s.
pub open spec fn trimmed_url(url: Seq<char>) -> Seq<char> {
    crate::text::spec_trim_end_matches(url, "/"@)
}

/// The index of the last `/` of `t`, if any.
fn find_last_slash(t: &str) -> (r: Option<usize>)
    ensures
        match r {
            Some(k) => k as int == last_slash(t@) && k >= 0,
            None => last_slash(t@) == -1,
        },
{
    let cs = crate::text::chars_vec(t);
    let mut k: usize = cs.len();
    assert(t@.take(k as int) =~= t@);
    while k > 0
        invariant
            k <= cs@.len(),
            cs@ == t@,
            last_slash(t@) == last_slash(t@.take(k as int)),
        decreases k,
    {
        assert(t@.take(k as int).drop_last() =~= t@.take(k - 1));
        if cs[k - 1] == '/' {
            return Some(k - 1);
        }
        k = k - 1;
    }
    None
}

/// The repository name of a remote url: what follows its last `/`, trailing `/`s ignored.
pub fn repo_name_from_url(url: &str) -> (r: String)
    ensures
        r@ == trimmed_url(url@).skip(last_slash(trimmed_url(url@)) + 1),
{
    let t = crate::text::trim_end_matches(url, "/");
    proof {
        lemma_last_slash(t@);
    }
    let n = t.unicode_len();
    match find_last_slash(t.as_str()) {
        Some(k) => crate::text::substring(t.as_str(), k + 1, n),
        None => {
            assert(t@.skip(0) =~= t@);
            t
        },
    }
}

/// The server's base url of a remote url: everything before its last `/`, trailing `/`s
/// ignored; the whole url when it has no `/`.
pub fn server_base_url_from_remote_url(url: &str) -> (r: String)
    ensures
        r@ == if last_slash(trimmed_url(url@)) >= 0 {
            trimmed_url(url@).take(last_slash(trimmed_url(url@)))
        } else {
            trimmed_url(url@)
        },
{
    let t = crate::text::trim_end_matches(url, "/");
    proof {
        lemma_last_slash(t@);
    }
    match find_last_slash(t.as_str()) {
        Some(k) => crate::text::substring(t.as_str(), 0, k),
        None => t,
    }
}

} // verus!
