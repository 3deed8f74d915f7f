//! Writing stored trees back into the working directory.
use vstd::prelude::*;
use crate::diff::{join, join_path, walk_depth};
use crate::error::VaultError;
use crate::flat::{FlatMap, FlatTree, FlatView, lemma_seq_to_map};
use crate::ignore::{is_ignored, spec_ignored};
use crate::objects::{ConflictView, EntryKind, EntryView};
use crate::store::{ObjectStore, StoreView};
use crate::workdir::{WorkDir, WorkItem, lemma_follows_refl, lemma_follows_trans};
use crate::worktree::{rel_of, rel_path};

verus! {

broadcast use vstd::string::group_string_axioms;

/// `p` or a directory above it is ignored, so a walk of the working directory never reaches
/// it.
pub open spec fn hidden(p: Seq<char>, pats: Seq<Seq<char>>) -> bool {
    exists|k: int|
        0 < k <= p.len() && (k == p.len() || p[k] == '/') && #[trigger] spec_ignored(
            rel_of(p.take(k)),
            pats,
        )
}

/// `q` lies below the directory `p`.
pub open spec fn under(q: Seq<char>, p: Seq<char>) -> bool {
    p.len() < q.len() && q.take(p.len() as int) == p && q[p.len() as int] == '/'
}

/// Cleaning keeps `p`: it is hidden, or it is a directory with something hidden below it.
pub open spec fn kept(m: Map<Seq<char>, WorkItem>, pats: Seq<Seq<char>>, p: Seq<char>) -> bool {
    m.contains_key(p) && (hidden(p, pats) || (m[p] is Dir && exists|q: Seq<char>|
        m.contains_key(q) && #[trigger] under(q, p) && hidden(q, pats)))
}

/// The working directory after every file the walk reaches is deleted, and every directory it
/// reaches that is then empty.
pub open spec fn cleaned(m: Map<Seq<char>, WorkItem>, pats: Seq<Seq<char>>) -> Map<Seq<char>, WorkItem> {
    Map::new(|p: Seq<char>| kept(m, pats, p), |p: Seq<char>| m[p])
}

/// The paths under tree `h` (directories as tree entries), added to `acc`, descending at
/// most `fuel` levels; `None` when a tree on the way is missing.
pub open spec fn layout_tree(
    trees: Map<Seq<char>, Seq<EntryView>>,
    h: Seq<char>,
    prefix: Seq<char>,
    fuel: nat,
    acc: FlatMap,
) -> Option<FlatMap>
    decreases fuel, 0nat,
{
    if fuel == 0 || !trees.contains_key(h) {
        None
    } else {
        layout_entries(trees, trees[h], prefix, (fuel - 1) as nat, acc)
    }
}

/// The paths under the entries `es` of the directory `prefix`, added to `acc` in order.
pub open spec fn layout_entries(
    trees: Map<Seq<char>, Seq<EntryView>>,
    es: Seq<EntryView>,
    prefix: Seq<char>,
    fuel: nat,
    acc: FlatMap,
) -> Option<FlatMap>
    decreases fuel, es.len() + 1,
{
    if es.len() == 0 {
        Some(acc)
    } else {
        match layout_entries(trees, es.drop_last(), prefix, fuel, acc) {
            None => None,
            Some(m) => {
                let e = es.last();
                let p = join_path(prefix, e.name);
                if e.kind is Tree {
                    layout_tree(trees, e.hash, p, fuel, m.insert(p, (e.kind, e.hash)))
                } else {
                    Some(m.insert(p, (e.kind, e.hash)))
                }
            },
        }
    }
}

/// Every path of the stored tree `h`, directories included.
pub open spec fn tree_layout(v: StoreView, h: Seq<char>) -> Option<FlatMap> {
    layout_tree(v.trees, h, Seq::empty(), walk_depth(), Map::empty())
}

/// The stored blob `h`, or nothing.
pub open spec fn blob_or_empty(v: StoreView, h: Seq<char>) -> Seq<u8> {
    if v.blobs.contains_key(h) {
        v.blobs[h]
    } else {
        Seq::empty()
    }
}

/// The text written in place of a conflicting file: both versions between markers.
pub open spec fn marker_text(v: StoreView, c: ConflictView) -> Seq<char> {
    "<<<<<<<< ours\n"@ + crate::text::spec_utf8_lossy(blob_or_empty(v, c.ours))
        + "\n================\n"@ + crate::text::spec_utf8_lossy(blob_or_empty(v, c.theirs))
        + "\n>>>>>>>> theirs\n"@
}

/// What a layout entry puts into the working directory.
pub open spec fn item_of(v: StoreView, e: (EntryKind, Seq<char>)) -> WorkItem {
    match e.0 {
        EntryKind::Tree => WorkItem::Dir,
        EntryKind::Blob => WorkItem::File(v.blobs[e.1]),
        EntryKind::Conflict => WorkItem::File(vstd::utf8::encode_utf8(marker_text(v, v.conflicts[e.1]))),
    }
}

/// A layout entry can be written over the working directory `m`: its objects are stored and
/// it meets no file where it needs a directory, nor a directory where it needs a file.
pub open spec fn entry_fits(v: StoreView, m: Map<Seq<char>, WorkItem>, p: Seq<char>, e: (EntryKind, Seq<char>)) -> bool {
    match e.0 {
        EntryKind::Tree => !(m.contains_key(p) && m[p] is File),
        EntryKind::Blob => v.blobs.contains_key(e.1) && !(m.contains_key(p) && m[p] is Dir),
        EntryKind::Conflict => v.conflicts.contains_key(e.1) && !(m.contains_key(p) && m[p] is Dir),
    }
}

/// The layout entry needs a stored object that is missing.
pub open spec fn object_missing(v: StoreView, e: (EntryKind, Seq<char>)) -> bool {
    match e.0 {
        EntryKind::Tree => false,
        EntryKind::Blob => !v.blobs.contains_key(e.1),
        EntryKind::Conflict => !v.conflicts.contains_key(e.1),
    }
}

/// `e` says why the layout entry `x` does not fit: its object is missing, or it meets a file
/// where it needs a directory, or a directory where it needs a file.
pub open spec fn misfit_error(v: StoreView, x: FlatView, e: VaultError) -> bool {
    if object_missing(v, (x.kind, x.hash)) {
        e matches VaultError::ObjectNotFound(h) && h@ == x.hash
    } else if x.kind is Tree {
        e matches VaultError::Io(m) && m@ == "a file stands where a directory goes: "@ + x.path
    } else {
        e matches VaultError::Io(m) && m@ == "a directory stands where a file goes: "@ + x.path
    }
}

/// The first entry, in path order, of the layout `s` that does not fit over `m`.
pub open spec fn first_misfit(v: StoreView, m: Map<Seq<char>, WorkItem>, s: Seq<FlatView>) -> Option<FlatView>
    decreases s.len(),
{
    if s.len() == 0 {
        None
    } else if !entry_fits(v, m, s[0].path, (s[0].kind, s[0].hash)) {
        Some(s[0])
    } else {
        first_misfit(v, m, s.drop_first())
    }
}

/// `e` is the error of writing the layout `l` over `m`: that of its first entry that does not
/// fit.
pub open spec fn restore_error(v: StoreView, m: Map<Seq<char>, WorkItem>, l: FlatMap, e: VaultError) -> bool {
    match first_misfit(v, m, crate::flat::flat_seq_of(l)) {
        Some(x) => misfit_error(v, x, e),
        None => false,
    }
}

/// The first entry that does not fit is the first one after those that fit.
proof fn lemma_first_misfit(v: StoreView, m: Map<Seq<char>, WorkItem>, s: Seq<FlatView>, i: int)
    requires
        0 <= i < s.len(),
        forall|k: int| 0 <= k < i ==> #[trigger] entry_fits(v, m, s[k].path, (s[k].kind, s[k].hash)),
        !entry_fits(v, m, s[i].path, (s[i].kind, s[i].hash)),
    ensures
        first_misfit(v, m, s) == Some(s[i]),
    decreases i,
{
    if i > 0 {
        let t = s.drop_first();
        assert(entry_fits(v, m, s[0].path, (s[0].kind, s[0].hash)));
        assert forall|k: int| 0 <= k < i - 1 implies #[trigger] entry_fits(v, m, t[k].path, (t[k].kind, t[k].hash)) by {
            assert(t[k] == s[k + 1]);
            assert(entry_fits(v, m, s[k + 1].path, (s[k + 1].kind, s[k + 1].hash)));
        }
        lemma_first_misfit(v, m, t, i - 1);
    }
}

/// Every entry of the layout `l` fits.
pub open spec fn restorable(v: StoreView, m: Map<Seq<char>, WorkItem>, l: FlatMap) -> bool {
    forall|p: Seq<char>| #[trigger] l.contains_key(p) ==> entry_fits(v, m, p, l[p])
}

/// The working directory `m` with the layout `l` written over it.
pub open spec fn restored(v: StoreView, m: Map<Seq<char>, WorkItem>, l: FlatMap) -> Map<Seq<char>, WorkItem> {
    Map::new(
        |p: Seq<char>| m.contains_key(p) || l.contains_key(p),
        |p: Seq<char>| if l.contains_key(p) { item_of(v, l[p]) } else { m[p] },
    )
}

/// Some of the first `i` entries of `s` is at `x`.
spec fn listed(s: Seq<FlatView>, i: int, x: Seq<char>) -> bool {
    exists|j: int| 0 <= j < i && s[j].path == x
}

/// Whether a walk of the working directory never reaches `p`.
fn is_hidden(p: &str, patterns: &Vec<String>) -> (r: bool)
    ensures
        r == hidden(p@, patterns@.map_values(|s: String| s@)),
{
    let ghost pv = patterns@.map_values(|s: String| s@);
    let cs = crate::text::chars_vec(p);
    let mut k: usize = 0;
    while k < cs.len()
        invariant
            cs@ == p@,
            k <= cs@.len(),
            pv == patterns@.map_values(|s: String| s@),
            forall|j: int|
                0 < j <= k && (j == p@.len() || p@[j] == '/') ==> !#[trigger] spec_ignored(
                    rel_of(p@.take(j)),
                    pv,
                ),
        decreases cs.len() - k,
    {
        let j = k + 1;
        if j == cs.len() || cs[j] == '/' {
            let prefix = crate::text::substring(p, 0, j);
            assert(prefix@ =~= p@.take(j as int));
            let rel = rel_path(prefix.as_str());
            if is_ignored(rel.as_str(), patterns) {
                return true;
            }
        }
        k = j;
    }
    false
}

/// Whether `q` lies below the directory `p`.
fn is_under(q: &str, p: &str) -> (r: bool)
    ensures
        r == under(q@, p@),
{
    let qv = crate::text::chars_vec(q);
    let pv = crate::text::chars_vec(p);
    if pv.len() >= qv.len() {
        return false;
    }
    let mut i: usize = 0;
    while i < pv.len()
        invariant
            qv@ == q@,
            pv@ == p@,
            pv.len() < qv.len(),
            i <= pv.len(),
            forall|k: int| 0 <= k < i ==> qv@[k] == pv@[k],
        decreases pv.len() - i,
    {
        if qv[i] != pv[i] {
            assert(q@.take(p@.len() as int)[i as int] != p@[i as int]);
            return false;
        }
        i = i + 1;
    }
    assert(q@.take(p@.len() as int) =~= p@);
    qv[pv.len()] == '/'
}

/// Deletes every file a walk of the working directory reaches, and every directory it reaches
/// that is then empty; the deepest paths go first.
pub fn clean(w: &mut WorkDir, patterns: &Vec<String>)
    requires
        old(w).wf(),
    ensures
        final(w).wf(),
        final(w).follows(*old(w)),
        final(w)@ == cleaned(old(w)@, patterns@.map_values(|s: String| s@)),
{
    let ghost pv = patterns@.map_values(|s: String| s@);
    let ghost m = w@;
    let ghost w0 = *w;
    let listing = w.paths.duplicate();
    let ghost s = listing.seqv();
    proof {
        lemma_seq_to_map(s);
        lemma_follows_refl(*w);
    }
    let mut hid: Vec<bool> = Vec::new();
    let mut j: usize = 0;
    while j < listing.entries.len()
        invariant
            s == listing.seqv(),
            j <= s.len(),
            hid@.len() == j,
            pv == patterns@.map_values(|s: String| s@),
            forall|k: int| 0 <= k < j ==> hid@[k] == hidden(#[trigger] s[k].path, pv),
        decreases listing.entries.len() - j,
    {
        assert(s[j as int] == listing.entries@[j as int]@);
        hid.push(is_hidden(listing.entries[j].path.as_str(), patterns));
        j = j + 1;
    }
    let n = listing.entries.len();
    let mut i: usize = n;
    assert(w@ =~= Map::new(
        |p: Seq<char>| m.contains_key(p) && (kept(m, pv, p) || listed(s, i as int, p)),
        |p: Seq<char>| m[p],
    )) by {
        assert forall|p: Seq<char>| m.contains_key(p) implies listed(s, i as int, p) by {
            let j = choose|j: int| 0 <= j < s.len() && s[j].path == p;
        }
    }
    while i > 0
        invariant
            i <= n,
            n == s.len(),
            s == listing.seqv(),
            listing.wf(),
            listing.view() == w0.paths.view(),
            m == w0@,
            w0.wf(),
            hid@.len() == n,
            pv == patterns@.map_values(|s: String| s@),
            forall|k: int| 0 <= k < n ==> hid@[k] == hidden(#[trigger] s[k].path, pv),
            w.wf(),
            w.follows(w0),
            w@ == Map::new(
                |p: Seq<char>| m.contains_key(p) && (kept(m, pv, p) || listed(s, i as int, p)),
                |p: Seq<char>| m[p],
            ),
        decreases i,
    {
        i = i - 1;
        let e = &listing.entries[i];
        let ghost p = e@.path;
        assert(s[i as int] == e@);
        proof {
            lemma_seq_to_map(s);
        }
        assert(m.contains_key(p));
        let ghost before = *w;
        let remove: bool;
        if hid[i] {
            remove = false;
        } else if e.kind == EntryKind::Tree {
            let mut below = false;
            let mut q: usize = 0;
            while q < n
                invariant
                    q <= n,
                    n == s.len(),
                    s == listing.seqv(),
                    listing.wf(),
                    hid@.len() == n,
                    forall|k: int| 0 <= k < n ==> hid@[k] == hidden(#[trigger] s[k].path, pv),
                    i < n,
                    p == s[i as int].path,
                    listing.entries@[i as int].path@ == p,
                    below == exists|k: int| 0 <= k < q && under(s[k].path, p) && hidden(s[k].path, pv),
                decreases n - q,
            {
                assert(s[q as int] == listing.entries@[q as int]@);
                let ghost b0 = below;
                if hid[q] && is_under(listing.entries[q].path.as_str(), listing.entries[i].path.as_str()) {
                    below = true;
                    assert(under(s[q as int].path, p) && hidden(s[q as int].path, pv));
                } else {
                    assert(!(under(s[q as int].path, p) && hidden(s[q as int].path, pv)));
                    assert((exists|k: int| 0 <= k < q + 1 && under(s[k].path, p) && hidden(s[k].path, pv))
                        == b0) by {
                        if exists|k: int| 0 <= k < q + 1 && under(s[k].path, p) && hidden(s[k].path, pv) {
                            let k = choose|k: int| 0 <= k < q + 1 && under(s[k].path, p) && hidden(s[k].path, pv);
                            assert(k != q);
                        }
                    }
                }
                q = q + 1;
            }
            remove = !below;
            proof {
                assert(w0.paths.view()[p].0 is Tree);
                assert(m[p] is Dir);
                if below {
                    let k = choose|k: int| 0 <= k < q && under(s[k].path, p) && hidden(s[k].path, pv);
                    assert(m.contains_key(s[k].path));
                    assert(kept(m, pv, p));
                } else {
                    assert forall|x: Seq<char>| m.contains_key(x) && #[trigger] under(x, p) implies !hidden(x, pv) by {
                        let k = choose|k: int| 0 <= k < s.len() && s[k].path == x;
                    }
                }
            }
        } else {
            remove = true;
            proof {
                assert(m[p] is File);
            }
        }
        assert(remove == !kept(m, pv, p));
        if remove {
            if e.kind == EntryKind::Tree {
                w.remove_dir(e.path.as_str());
            } else {
                w.remove_file(e.path.as_str());
            }
            proof {
                lemma_follows_trans(w0, before, *w);
            }
        }
        proof {
            assert forall|x: Seq<char>| x != p implies listed(s, i + 1, x) == listed(s, i as int, x) by {
                if listed(s, i + 1, x) {
                    let j = choose|j: int| 0 <= j < i + 1 && s[j].path == x;
                    assert(j != i);
                }
                if listed(s, i as int, x) {
                    let j = choose|j: int| 0 <= j < i && s[j].path == x;
                    assert(0 <= j < i + 1 && s[j].path == x);
                }
            }
            assert(!listed(s, i as int, p)) by {
                if listed(s, i as int, p) {
                    let j = choose|j: int| 0 <= j < i && s[j].path == p;
                    assert(crate::order::text_lt(s[j].path, s[i as int].path));
                    crate::order::lemma_lt_irreflexive(p);
                }
            }
            assert(listed(s, i + 1, p)) by {
                assert(s[i as int].path == p);
            }
            assert(w@ =~= Map::new(
                |x: Seq<char>| m.contains_key(x) && (kept(m, pv, x) || listed(s, i as int, x)),
                |x: Seq<char>| m[x],
            ));
        }
    }
    assert(w@ =~= cleaned(m, pv));
}

/// Once the entries up to `k` fail, all of them fail.
proof fn lemma_layout_entries_none(
    trees: Map<Seq<char>, Seq<EntryView>>,
    es: Seq<EntryView>,
    prefix: Seq<char>,
    fuel: nat,
    acc: FlatMap,
    k: int,
)
    requires
        0 <= k <= es.len(),
        layout_entries(trees, es.take(k), prefix, fuel, acc) is None,
    ensures
        layout_entries(trees, es, prefix, fuel, acc) is None,
    decreases es.len() - k,
{
    if k < es.len() {
        assert(es.take(k + 1).drop_last() =~= es.take(k));
        lemma_layout_entries_none(trees, es, prefix, fuel, acc, k + 1);
    } else {
        assert(es.take(k) =~= es);
    }
}

fn layout_rec(store: &ObjectStore, tree_hash: &str, prefix: &str, out: &mut FlatTree, fuel: usize) -> (r:
    Result<(), VaultError>)
    requires
        old(out).wf(),
    ensures
        final(out).wf(),
        match layout_tree(store@.trees, tree_hash@, prefix@, fuel as nat, old(out).view()) {
            Some(m) => r is Ok && final(out).view() == m,
            None => r matches Err(VaultError::ObjectNotFound(_)),
        },
    decreases fuel,
{
    if fuel == 0 {
        return Err(VaultError::ObjectNotFound(crate::text::owned(tree_hash)));
    }
    let tree = store.read_tree(tree_hash)?;
    let ghost es = tree@;
    let ghost acc0 = out.view();
    let ghost f = (fuel - 1) as nat;
    let mut i: usize = 0;
    assert(es.take(0) =~= Seq::<EntryView>::empty());
    while i < tree.entries.len()
        invariant
            i <= tree.entries@.len(),
            es == tree@,
            es == store@.trees[tree_hash@],
            store@.trees.contains_key(tree_hash@),
            acc0 == old(out).view(),
            f == fuel - 1,
            fuel > 0,
            out.wf(),
            layout_entries(store@.trees, es.take(i as int), prefix@, f, acc0) == Some(out.view()),
        decreases tree.entries.len() - i,
    {
        let e = &tree.entries[i];
        let path = join(prefix, e.name.as_str());
        assert(es[i as int] == e@);
        assert(es.take(i + 1).drop_last() =~= es.take(i as int));
        assert(es.take(i + 1).last() == e@);
        match e.kind {
            EntryKind::Tree => {
                out.insert(path.clone(), e.kind, e.hash.clone());
                let ghost before = out.view();
                let res = layout_rec(store, e.hash.as_str(), path.as_str(), out, fuel - 1);
                if res.is_err() {
                    proof {
                        assert(layout_tree(store@.trees, e.hash@, path@, f, before) is None);
                        assert(layout_entries(store@.trees, es.take(i + 1), prefix@, f, acc0) is None);
                        lemma_layout_entries_none(store@.trees, es, prefix@, f, acc0, i + 1);
                    }
                    return res;
                }
            },
            _ => {
                out.insert(path, e.kind, e.hash.clone());
            },
        }
        i = i + 1;
    }
    assert(es.take(es.len() as int) =~= es);
    Ok(())
}

/// Every path of the stored tree `tree_hash`, directories included, in path order.
pub fn layout(store: &ObjectStore, tree_hash: &str) -> (r: Result<FlatTree, VaultError>)
    ensures
        match tree_layout(store@, tree_hash@) {
            Some(m) => r matches Ok(f) && f.wf() && f.view() == m,
            None => r matches Err(VaultError::ObjectNotFound(_)),
        },
{
    let mut out = FlatTree::new();
    proof {
        reveal_strlit("");
    }
    assert(""@ =~= Seq::<char>::empty());
    match layout_rec(store, tree_hash, "", &mut out, usize::MAX) {
        Ok(()) => Ok(out),
        Err(e) => Err(e),
    }
}

/// The bytes written in place of a conflicting file.
pub fn conflict_marker(store: &ObjectStore, c: &crate::objects::ConflictObject) -> (r: Vec<u8>)
    ensures
        r@ == vstd::utf8::encode_utf8(marker_text(store@, c@)),
{
    let ours = match store.read_blob(c.ours.as_str()) {
        Ok(b) => b,
        Err(_) => Vec::new(),
    };
    let theirs = match store.read_blob(c.theirs.as_str()) {
        Ok(b) => b,
        Err(_) => Vec::new(),
    };
    assert(ours@ == blob_or_empty(store@, c@.ours));
    assert(theirs@ == blob_or_empty(store@, c@.theirs));
    let a = crate::text::utf8_lossy(ours.as_slice());
    let b = crate::text::utf8_lossy(theirs.as_slice());
    let t = crate::text::concat("<<<<<<<< ours\n", a.as_str());
    let t = crate::text::concat(t.as_str(), "\n================\n");
    let t = crate::text::concat(t.as_str(), b.as_str());
    let t = crate::text::concat(t.as_str(), "\n>>>>>>>> theirs\n");
    assert(t@ == marker_text(store@, c@));
    let mut out: Vec<u8> = Vec::new();
    crate::json::push_bytes(&mut out, t.as_str().as_bytes());
    out
}

/// Whether the layout entry fits over the working directory, and if not, why.
fn check_entry(store: &ObjectStore, w: &WorkDir, e: &crate::flat::FlatEntry) -> (r: Result<(), VaultError>)
    requires
        w.wf(),
    ensures
        r is Ok <==> entry_fits(store@, w@, e@.path, (e@.kind, e@.hash)),
        r matches Err(x) ==> misfit_error(store@, e@, x),
{
    match e.kind {
        EntryKind::Tree => {
            if w.file(e.path.as_str()).is_some() {
                return Err(VaultError::Io(crate::text::concat("a file stands where a directory goes: ", e.path.as_str())));
            }
            Ok(())
        },
        EntryKind::Blob => {
            if !store.blobs.contains_key(e.hash.as_str()) {
                return Err(VaultError::ObjectNotFound(e.hash.clone()));
            }
            if w.is_dir(e.path.as_str()) {
                return Err(VaultError::Io(crate::text::concat("a directory stands where a file goes: ", e.path.as_str())));
            }
            Ok(())
        },
        EntryKind::Conflict => {
            if !store.conflicts.contains_key(e.hash.as_str()) {
                return Err(VaultError::ObjectNotFound(e.hash.clone()));
            }
            if w.is_dir(e.path.as_str()) {
                return Err(VaultError::Io(crate::text::concat("a directory stands where a file goes: ", e.path.as_str())));
            }
            Ok(())
        },
    }
}

/// Replaces the working directory's content by the stored tree `tree_hash`: every file a walk
/// reaches is deleted (and every directory it reaches that is then empty), then the tree's
/// directories are created and its files written, a conflict entry as both versions between
/// markers, in path order.
pub fn restore(store: &ObjectStore, w: &mut WorkDir, patterns: &Vec<String>, tree_hash: &str) -> (r: Result<
    (),
    VaultError,
>)
    requires
        old(w).wf(),
    ensures
        final(w).wf(),
        final(w).follows(*old(w)),
        ({
            let c = cleaned(old(w)@, patterns@.map_values(|s: String| s@));
            match tree_layout(store@, tree_hash@) {
                None => r matches Err(VaultError::ObjectNotFound(_)) && final(w)@ == c,
                Some(l) => if restorable(store@, c, l) {
                    r is Ok && final(w)@ == restored(store@, c, l)
                } else {
                    r matches Err(e) && restore_error(store@, c, l, e) && final(w)@ == c
                },
            }
        }),
{
    let ghost w0 = *old(w);
    clean(w, patterns);
    let l = layout(store, tree_hash)?;
    let ghost c = w@;
    let ghost lv = l.view();
    let ghost ls = l.seqv();
    let ghost wc = *w;
    proof {
        lemma_seq_to_map(ls);
    }
    let mut i: usize = 0;
    while i < l.entries.len()
        invariant
            i <= ls.len(),
            ls == l.seqv(),
            lv == l.view(),
            l.wf(),
            w.wf(),
            c == w@,
            w.follows(w0),
            w0 == *old(w),
            c == cleaned(w0@, patterns@.map_values(|s: String| s@)),
            tree_layout(store@, tree_hash@) == Some(lv),
            forall|k: int| 0 <= k < i ==> #[trigger] entry_fits(store@, c, ls[k].path, (ls[k].kind, ls[k].hash)),
        decreases l.entries.len() - i,
    {
        assert(ls[i as int] == l.entries@[i as int]@);
        let res = check_entry(store, w, &l.entries[i]);
        if res.is_err() {
            proof {
                lemma_seq_to_map(ls);
                assert(lv.contains_key(ls[i as int].path));
                assert(!entry_fits(store@, c, ls[i as int].path, lv[ls[i as int].path]));
                assert(!restorable(store@, c, lv));
                lemma_first_misfit(store@, c, ls, i as int);
                crate::flat::lemma_flat_seq_of(&l);
            }
            return res;
        }
        i = i + 1;
    }
    proof {
        assert forall|p: Seq<char>| #[trigger] lv.contains_key(p) implies entry_fits(store@, c, p, lv[p]) by {
            let k = choose|k: int| 0 <= k < ls.len() && ls[k].path == p;
            assert(entry_fits(store@, c, ls[k].path, (ls[k].kind, ls[k].hash)));
        }
        lemma_follows_refl(*w);
    }
    let mut i: usize = 0;
    assert(w@ =~= Map::new(
        |p: Seq<char>| c.contains_key(p) || listed(ls, 0, p),
        |p: Seq<char>| if listed(ls, 0, p) { item_of(store@, lv[p]) } else { c[p] },
    ));
    while i < l.entries.len()
        invariant
            i <= ls.len(),
            ls == l.seqv(),
            lv == l.view(),
            l.wf(),
            w.wf(),
            w.follows(wc),
            wc@ == c,
            restorable(store@, c, lv),
            w@ == Map::new(
                |p: Seq<char>| c.contains_key(p) || listed(ls, i as int, p),
                |p: Seq<char>| if listed(ls, i as int, p) { item_of(store@, lv[p]) } else { c[p] },
            ),
        decreases l.entries.len() - i,
    {
        let e = &l.entries[i];
        let ghost p = e@.path;
        assert(ls[i as int] == e@);
        proof {
            lemma_seq_to_map(ls);
        }
        assert(lv.contains_key(p) && lv[p] == (e@.kind, e@.hash));
        assert(entry_fits(store@, c, p, lv[p]));
        assert(!listed(ls, i as int, p)) by {
            if listed(ls, i as int, p) {
                let j = choose|j: int| 0 <= j < i && ls[j].path == p;
                assert(crate::order::text_lt(ls[j].path, ls[i as int].path));
                crate::order::lemma_lt_irreflexive(p);
            }
        }
        let ghost before = *w;
        match e.kind {
            EntryKind::Tree => {
                if !w.is_dir(e.path.as_str()) {
                    w.create_dir(e.path.as_str());
                } else {
                    proof {
                        lemma_follows_refl(*w);
                    }
                }
            },
            EntryKind::Blob => {
                let content = match store.read_blob(e.hash.as_str()) {
                    Ok(b) => b,
                    Err(_) => Vec::new(),
                };
                w.write_file(e.path.as_str(), content.as_slice());
            },
            EntryKind::Conflict => {
                let co = match store.read_conflicts(e.hash.as_str()) {
                    Ok(x) => x,
                    Err(_) => crate::objects::ConflictObject {
                        ours: String::new(),
                        theirs: String::new(),
                        ancestor: String::new(),
                    },
                };
                let bytes = conflict_marker(store, &co);
                w.write_file(e.path.as_str(), bytes.as_slice());
            },
        }
        proof {
            lemma_follows_trans(wc, before, *w);
            assert forall|x: Seq<char>| x != p implies listed(ls, i + 1, x) == listed(ls, i as int, x) by {
                if listed(ls, i + 1, x) {
                    let j = choose|j: int| 0 <= j < i + 1 && ls[j].path == x;
                    assert(j != i);
                }
                if listed(ls, i as int, x) {
                    let j = choose|j: int| 0 <= j < i && ls[j].path == x;
                    assert(0 <= j < i + 1 && ls[j].path == x);
                }
            }
            assert(listed(ls, i + 1, p)) by {
                assert(ls[i as int].path == p);
            }
            assert(w@ =~= Map::new(
                |x: Seq<char>| c.contains_key(x) || listed(ls, i + 1, x),
                |x: Seq<char>| if listed(ls, i + 1, x) { item_of(store@, lv[x]) } else { c[x] },
            ));
        }
        i = i + 1;
    }
    proof {
        lemma_follows_trans(w0, wc, *w);
        assert forall|x: Seq<char>| listed(ls, ls.len() as int, x) == lv.contains_key(x) by {
            if lv.contains_key(x) {
                let k = choose|k: int| 0 <= k < ls.len() && ls[k].path == x;
            }
        }
        assert(w@ =~= restored(store@, c, lv));
    }
    Ok(())
}

/// `p.take(k)` names a directory above `p`.
pub open spec fn dir_prefix(p: Seq<char>, k: int) -> bool {
    0 < k < p.len() && p[k] == '/'
}

/// A file stands where a directory above `p` would go.
pub open spec fn blocked(m: Map<Seq<char>, WorkItem>, p: Seq<char>) -> bool {
    exists|k: int| #[trigger] dir_prefix(p, k) && m.contains_key(p.take(k)) && m[p.take(k)] is File
}

/// `x` is a directory above `p`.
pub open spec fn parent_of(p: Seq<char>, x: Seq<char>) -> bool {
    exists|k: int| #[trigger] dir_prefix(p, k) && x == p.take(k)
}

/// `x` is one of the directories above `p` that end before index `k`.
spec fn parent_before(p: Seq<char>, k: int, x: Seq<char>) -> bool {
    exists|j: int| 0 < j < k && #[trigger] dir_prefix(p, j) && x == p.take(j)
}

/// `m` with every missing directory above `p` created.
pub open spec fn with_parents(m: Map<Seq<char>, WorkItem>, p: Seq<char>) -> Map<Seq<char>, WorkItem> {
    Map::new(
        |x: Seq<char>| m.contains_key(x) || parent_of(p, x),
        |x: Seq<char>| if m.contains_key(x) { m[x] } else { WorkItem::Dir },
    )
}

/// Writes `content` to the file `path`, first creating the missing directories above it.
pub fn put_file(w: &mut WorkDir, path: &str, content: &[u8]) -> (r: Result<(), VaultError>)
    requires
        old(w).wf(),
    ensures
        final(w).wf(),
        final(w).follows(*old(w)),
        if !blocked(old(w)@, path@) && !(old(w)@.contains_key(path@) && old(w)@[path@] is Dir) {
            r is Ok && final(w)@ == with_parents(old(w)@, path@).insert(path@, WorkItem::File(content@))
        } else {
            r matches Err(VaultError::Io(_)) && final(w)@ == old(w)@
        },
{
    let ghost w0 = *old(w);
    let ghost m = w@;
    let ghost p = path@;
    proof {
        lemma_follows_refl(*w);
    }
    let cs = crate::text::chars_vec(path);
    let mut k: usize = 1;
    while k < cs.len()
        invariant
            cs@ == p,
            p == path@,
            1 <= k,
            w@ == m,
            w.wf(),
            w0 == *old(w),
            w.follows(w0),
            forall|j: int| 0 < j < k && #[trigger] dir_prefix(p, j) ==> !(m.contains_key(p.take(j))
                && m[p.take(j)] is File),
        decreases cs.len() - k,
    {
        if cs[k] == '/' {
            let a = crate::text::substring(path, 0, k);
            assert(a@ =~= p.take(k as int));
            if w.file(a.as_str()).is_some() {
                assert(dir_prefix(p, k as int));
                return Err(VaultError::Io(crate::text::concat("a file stands where a directory goes: ", a.as_str())));
            }
        }
        k = k + 1;
    }
    assert(!blocked(m, p));
    if w.is_dir(path) {
        return Err(VaultError::Io(crate::text::concat("a directory stands where a file goes: ", path)));
    }
    let mut k: usize = 1;
    assert(w@ =~= Map::new(
        |x: Seq<char>| m.contains_key(x) || parent_before(p, 1, x),
        |x: Seq<char>| if m.contains_key(x) { m[x] } else { WorkItem::Dir },
    ));
    while k < cs.len()
        invariant
            cs@ == p,
            p == path@,
            1 <= k,
            w.wf(),
            w.follows(w0),
            w0@ == m,
            !blocked(m, p),
            !(m.contains_key(p) && m[p] is Dir),
            w@ == Map::new(
                |x: Seq<char>| m.contains_key(x) || parent_before(p, k as int, x),
                |x: Seq<char>| if m.contains_key(x) { m[x] } else { WorkItem::Dir },
            ),
        decreases cs.len() - k,
    {
        let ghost before = *w;
        if cs[k] == '/' {
            let a = crate::text::substring(path, 0, k);
            assert(a@ =~= p.take(k as int));
            assert(dir_prefix(p, k as int));
            if !w.holds(a.as_str()) {
                w.create_dir(a.as_str());
                proof {
                    lemma_follows_trans(w0, before, *w);
                }
            }
        }
        proof {
            assert forall|x: Seq<char>| parent_before(p, k + 1, x) <==> (parent_before(p, k as int, x) || (
            dir_prefix(p, k as int) && x == p.take(k as int))) by {
                if parent_before(p, k + 1, x) {
                    let j = choose|j: int| 0 < j < k + 1 && #[trigger] dir_prefix(p, j) && x == p.take(j);
                    if j < k {
                        assert(0 < j < k && dir_prefix(p, j) && x == p.take(j));
                    }
                }
                if parent_before(p, k as int, x) {
                    let j = choose|j: int| 0 < j < k && #[trigger] dir_prefix(p, j) && x == p.take(j);
                    assert(0 < j < k + 1 && dir_prefix(p, j) && x == p.take(j));
                }
                if dir_prefix(p, k as int) && x == p.take(k as int) {
                    assert(0 < k < k + 1 && dir_prefix(p, k as int) && x == p.take(k as int));
                }
            }
            if dir_prefix(p, k as int) && m.contains_key(p.take(k as int)) {
                assert(m[p.take(k as int)] is Dir);
            }
            assert(w@ =~= Map::new(
                |x: Seq<char>| m.contains_key(x) || parent_before(p, k + 1, x),
                |x: Seq<char>| if m.contains_key(x) { m[x] } else { WorkItem::Dir },
            ));
        }
        k = k + 1;
    }
    let ghost before = *w;
    assert(!(w@.contains_key(p) && w@[p] is Dir)) by {
        if w@.contains_key(p) && !m.contains_key(p) {
            let j = choose|j: int| 0 < j < k && #[trigger] dir_prefix(p, j) && p == p.take(j);
            assert(p.take(j).len() == j);
        }
    }
    w.write_file(path, content);
    proof {
        lemma_follows_trans(w0, before, *w);
        assert forall|x: Seq<char>| parent_before(p, k as int, x) <==> parent_of(p, x) by {
            if parent_of(p, x) {
                let j = choose|j: int| #[trigger] dir_prefix(p, j) && x == p.take(j);
                assert(0 < j < k && dir_prefix(p, j) && x == p.take(j));
            }
        }
        assert(w@ =~= with_parents(m, p).insert(p, WorkItem::File(content@)));
    }
    Ok(())
}

} // verus!
