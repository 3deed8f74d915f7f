//! Flattening trees into path maps and comparing two trees file by file.
use vstd::prelude::*;
use crate::error::VaultError;
use crate::flat::{FlatMap, FlatTree};
use crate::linediff::{
    DiffHunk, HunkView, LineView, addition_hunks, deletion_hunks, hunk_views, make_addition_hunks,
    make_deletion_hunks, spec_line_diff,
};
use crate::objects::{EntryKind, EntryView};
use crate::store::{ObjectStore, StoreView};

verus! {

broadcast use vstd::string::group_string_axioms;

/// The path of `name` inside the directory `prefix` (the root when `prefix` is empty).
pub open spec fn join_path(prefix: Seq<char>, name: Seq<char>) -> Seq<char> {
    if prefix.len() == 0 {
        name
    } else {
        prefix + seq!['/'] + name
    }
}

/// The files under tree `h`, added to `acc`, descending at most `fuel` levels; `None` when a
/// tree on the way is missing.
pub open spec fn flat_tree(
    trees: Map<Seq<char>, Seq<EntryView>>,
    h: Seq<char>,
    prefix: Seq<char>,
    fuel: nat,
    acc: FlatMap,
) -> Option<FlatMap>
    decreases fuel, 0nat,
{
    if fuel == 0 || !trees.contains_key(h) {
        None
    } else {
        flat_entries(trees, trees[h], prefix, (fuel - 1) as nat, acc)
    }
}

/// The files under the entries `es` of the directory `prefix`, added to `acc` in order.
pub open spec fn flat_entries(
    trees: Map<Seq<char>, Seq<EntryView>>,
    es: Seq<EntryView>,
    prefix: Seq<char>,
    fuel: nat,
    acc: FlatMap,
) -> Option<FlatMap>
    decreases fuel, es.len() + 1,
{
    if es.len() == 0 {
        Some(acc)
    } else {
        match flat_entries(trees, es.drop_last(), prefix, fuel, acc) {
            None => None,
            Some(m) => {
                let e = es.last();
                let p = join_path(prefix, e.name);
                if e.kind is Tree {
                    flat_tree(trees, e.hash, p, fuel, m)
                } else {
                    Some(m.insert(p, (e.kind, e.hash)))
                }
            },
        }
    }
}

/// How deep a walk through nested trees may go: as deep as a machine stack of calls could.
pub open spec fn walk_depth() -> nat {
    usize::MAX as nat
}

/// The files under tree `h` of the store, under the directory `prefix`, added to `acc`.
pub open spec fn spec_flatten(v: StoreView, h: Seq<char>, prefix: Seq<char>, acc: FlatMap) -> Option<
    FlatMap,
> {
    flat_tree(v.trees, h, prefix, walk_depth(), acc)
}

/// The files under tree `h` of the store, by path.
pub open spec fn tree_files(v: StoreView, h: Seq<char>) -> Option<FlatMap> {
    spec_flatten(v, h, Seq::empty(), Map::empty())
}

/// Once the entries up to `k` fail, all of them fail.
proof fn lemma_flat_entries_none(
    trees: Map<Seq<char>, Seq<EntryView>>,
    es: Seq<EntryView>,
    prefix: Seq<char>,
    fuel: nat,
    acc: FlatMap,
    k: int,
)
    requires
        0 <= k <= es.len(),
        flat_entries(trees, es.take(k), prefix, fuel, acc) is None,
    ensures
        flat_entries(trees, es, prefix, fuel, acc) is None,
    decreases es.len() - k,
{
    if k < es.len() {
        assert(es.take(k + 1).drop_last() =~= es.take(k));
        lemma_flat_entries_none(trees, es, prefix, fuel, acc, k + 1);
    } else {
        assert(es.take(k) =~= es);
    }
}

/// The path of `name` inside `prefix`.
pub fn join(prefix: &str, name: &str) -> (r: String)
    ensures
        r@ == join_path(prefix@, name@),
{
    if prefix.unicode_len() == 0 {
        crate::text::owned(name)
    } else {
        let p = crate::text::concat(prefix, "/");
        proof {
            reveal_strlit("/");
        }
        crate::text::concat(p.as_str(), name)
    }
}

fn flatten_rec(
    store: &ObjectStore,
    tree_hash: &str,
    prefix: &str,
    out: &mut FlatTree,
    fuel: usize,
) -> (r: Result<(), VaultError>)
    requires
        old(out).wf(),
    ensures
        final(out).wf(),
        match flat_tree(store@.trees, tree_hash@, prefix@, fuel as nat, old(out).view()) {
            Some(m) => r is Ok && final(out).view() == m,
            None => r matches Err(VaultError::ObjectNotFound(_)),
        },
    decreases fuel,
{
    if fuel == 0 {
        return Err(VaultError::ObjectNotFound(crate::text::owned(tree_hash)));
    }
    let tree = store.read_tree(tree_hash)?;
    let ghost es = tree@;
    let ghost acc0 = out.view();
    let ghost f = (fuel - 1) as nat;
    let mut i: usize = 0;
    assert(es.take(0) =~= Seq::<EntryView>::empty());
    while i < tree.entries.len()
        invariant
            i <= tree.entries@.len(),
            es == tree@,
            es == store@.trees[tree_hash@],
            store@.trees.contains_key(tree_hash@),
            acc0 == old(out).view(),
            f == fuel - 1,
            fuel > 0,
            out.wf(),
            flat_entries(store@.trees, es.take(i as int), prefix@, f, acc0) == Some(out.view()),
        decreases tree.entries.len() - i,
    {
        let e = &tree.entries[i];
        let path = join(prefix, e.name.as_str());
        assert(es[i as int] == e@);
        assert(es.take(i + 1).drop_last() =~= es.take(i as int));
        assert(es.take(i + 1).last() == e@);
        match e.kind {
            EntryKind::Tree => {
                let ghost before = out.view();
                let res = flatten_rec(store, e.hash.as_str(), path.as_str(), out, fuel - 1);
                if res.is_err() {
                    proof {
                        assert(flat_tree(store@.trees, e.hash@, path@, f, before) is None);
                        assert(flat_entries(store@.trees, es.take(i + 1), prefix@, f, acc0) is None);
                        lemma_flat_entries_none(store@.trees, es, prefix@, f, acc0, i + 1);
                    }
                    return res;
                }
            },
            _ => {
                out.insert(path, e.kind, e.hash.clone());
            },
        }
        i = i + 1;
    }
    assert(es.take(es.len() as int) =~= es);
    Ok(())
}

/// Adds the files under tree `tree_hash`, placed under the directory `prefix`, to `out`.
pub fn flatten_tree(store: &ObjectStore, tree_hash: &str, prefix: &str, out: &mut FlatTree) -> (r:
    Result<(), VaultError>)
    requires
        old(out).wf(),
    ensures
        final(out).wf(),
        match spec_flatten(store@, tree_hash@, prefix@, old(out).view()) {
            Some(m) => r is Ok && final(out).view() == m,
            None => r matches Err(VaultError::ObjectNotFound(_)),
        },
{
    flatten_rec(store, tree_hash, prefix, out, usize::MAX)
}

/// The files under tree `tree_hash`, by path.
pub fn flatten(store: &ObjectStore, tree_hash: &str) -> (r: Result<FlatTree, VaultError>)
    ensures
        match tree_files(store@, tree_hash@) {
            Some(m) => r matches Ok(f) && f.wf() && f.view() == m,
            None => r matches Err(VaultError::ObjectNotFound(_)),
        },
{
    let mut out = FlatTree::new();
    proof {
        reveal_strlit("");
    }
    let res = flatten_tree(store, tree_hash, "", &mut out);
    assert(""@ == Seq::<char>::empty());
    assert(out.view() == FlatMap::empty() || true);
    match res {
        Ok(()) => Ok(out),
        Err(e) => Err(e),
    }
}


/// How a file differs between two trees.
#[derive(Clone, Copy, Debug, PartialEq, Eq, Structural)]
pub enum DiffKind {
    Added,
    Deleted,
    Modified,
}

/// The changes to one file.
#[derive(Debug)]
pub struct FileDiff {
    pub path: String,
    pub kind: DiffKind,
    pub hunks: Vec<DiffHunk>,
}

/// A file diff as a value.
pub struct FileDiffView {
    pub path: Seq<char>,
    pub kind: DiffKind,
    pub hunks: Seq<HunkView>,
}

impl View for FileDiff {
    type V = FileDiffView;

    open spec fn view(&self) -> FileDiffView {
        FileDiffView { path: self.path@, kind: self.kind, hunks: hunk_views(self.hunks@) }
    }
}

/// How many lines of `ls` are additions (`added`) or removals (otherwise).
pub open spec fn changed_in(ls: Seq<LineView>, added: bool) -> nat
    decreases ls.len(),
{
    if ls.len() == 0 {
        0
    } else {
        changed_in(ls.drop_last(), added) + match ls.last() {
            LineView::Added(_) => if added { 1nat } else { 0nat },
            LineView::Removed(_) => if added { 0nat } else { 1nat },
            LineView::Context(_) => 0nat,
        }
    }
}

/// How many lines of the hunks `hs` are additions (`added`) or removals (otherwise).
pub open spec fn changed_lines(hs: Seq<HunkView>, added: bool) -> nat
    decreases hs.len(),
{
    if hs.len() == 0 {
        0
    } else {
        changed_lines(hs.drop_last(), added) + changed_in(hs.last().lines, added)
    }
}

/// The number of added (`added`) or removed lines of a file diff, at most `usize::MAX`.
pub fn count_lines(fd: &FileDiff, added: bool) -> (r: usize)
    ensures
        r == if changed_lines(fd@.hunks, added) < usize::MAX {
            changed_lines(fd@.hunks, added)
        } else {
            usize::MAX as nat
        },
{
    let ghost hs = fd@.hunks;
    let mut total: usize = 0;
    let mut i: usize = 0;
    while i < fd.hunks.len()
        invariant
            i <= fd.hunks@.len(),
            hs == fd@.hunks,
            hs.len() == fd.hunks@.len(),
            total == if changed_lines(hs.take(i as int), added) < usize::MAX {
                changed_lines(hs.take(i as int), added)
            } else {
                usize::MAX as nat
            },
        decreases fd.hunks.len() - i,
    {
        let ghost ls = fd.hunks@[i as int]@.lines;
        assert(hs.take(i + 1).drop_last() =~= hs.take(i as int));
        assert(hs.take(i + 1).last() == fd.hunks@[i as int]@);
        let ghost t0 = total;
        let mut k: usize = 0;
        while k < fd.hunks[i].lines.len()
            invariant
                i < fd.hunks@.len(),
                k <= fd.hunks@[i as int].lines@.len(),
                ls == fd.hunks@[i as int]@.lines,
                ls.len() == fd.hunks@[i as int].lines@.len(),
                total == if changed_lines(hs.take(i as int), added) + changed_in(ls.take(k as int), added) < usize::MAX {
                    changed_lines(hs.take(i as int), added) + changed_in(ls.take(k as int), added)
                } else {
                    usize::MAX as nat
                },
            decreases fd.hunks@[i as int].lines@.len() - k,
        {
            assert(ls.take(k + 1).drop_last() =~= ls.take(k as int));
            assert(ls.take(k + 1).last() == fd.hunks@[i as int].lines@[k as int]@);
            let counts = match &fd.hunks[i].lines[k] {
                crate::linediff::DiffLine::Added(_) => added,
                crate::linediff::DiffLine::Removed(_) => !added,
                crate::linediff::DiffLine::Context(_) => false,
            };
            if counts && total < usize::MAX {
                total = total + 1;
            }
            k = k + 1;
        }
        assert(ls.take(ls.len() as int) =~= ls);
        i = i + 1;
    }
    assert(hs.take(hs.len() as int) =~= hs);
    total
}

/// The values of a sequence of file diffs.
pub open spec fn file_diff_views(v: Seq<FileDiff>) -> Seq<FileDiffView> {
    v.map_values(|d: FileDiff| d@)
}

/// The text of a stored blob, decoded as `String::from_utf8_lossy` does.
pub open spec fn blob_text(v: StoreView, h: Seq<char>) -> Seq<char> {
    crate::text::spec_utf8_lossy(v.blobs[h])
}

/// The text has fewer lines than a machine word counts.
pub open spec fn lines_fit(t: Seq<char>) -> bool {
    crate::text::spec_lines(t).len() < usize::MAX
}

/// The entry of `p` in `m`, if any.
pub open spec fn lookup(m: FlatMap, p: Seq<char>) -> Option<(EntryKind, Seq<char>)> {
    if m.contains_key(p) {
        Some(m[p])
    } else {
        None
    }
}

/// The blobs needed to compare a path with entries `o` (old) and `n` (new) are stored,
/// and two different texts have countable lines.
pub open spec fn entry_ok(v: StoreView, o: Option<(EntryKind, Seq<char>)>, n: Option<(EntryKind, Seq<char>)>) -> bool {
    match (o, n) {
        (Some(oe), None) => v.blobs.contains_key(oe.1),
        (None, Some(ne)) => ne.0 is Conflict || v.blobs.contains_key(ne.1),
        (Some(oe), Some(ne)) => ne.0 is Conflict || oe.1 == ne.1 || (v.blobs.contains_key(oe.1)
            && v.blobs.contains_key(ne.1) && lines_fit(blob_text(v, oe.1)) && lines_fit(
            blob_text(v, ne.1),
        )),
        (None, None) => true,
    }
}

/// The diff of a path with entries `o` (old) and `n` (new): a file only in the old tree is
/// deleted, a file only in the new tree is added, a file whose hash changed is modified when
/// its line diff is not empty; conflict entries of the new tree are not compared.
pub open spec fn entry_diff(v: StoreView, o: Option<(EntryKind, Seq<char>)>, n: Option<(EntryKind, Seq<char>)>) -> Option<(DiffKind, Seq<HunkView>)> {
    match (o, n) {
        (Some(oe), None) => Some((DiffKind::Deleted, deletion_hunks(blob_text(v, oe.1)))),
        (None, Some(ne)) => if ne.0 is Conflict {
            None
        } else {
            Some((DiffKind::Added, addition_hunks(blob_text(v, ne.1))))
        },
        (Some(oe), Some(ne)) => if ne.0 is Conflict || oe.1 == ne.1 {
            None
        } else {
            let h = spec_line_diff(blob_text(v, oe.1), blob_text(v, ne.1));
            if h.len() > 0 {
                Some((DiffKind::Modified, h))
            } else {
                None
            }
        },
        (None, None) => None,
    }
}

/// How a change reads the other way round: an addition is a deletion and back, a
/// modification stays one.
pub open spec fn reversed_kind(k: DiffKind) -> DiffKind {
    match k {
        DiffKind::Added => DiffKind::Deleted,
        DiffKind::Deleted => DiffKind::Added,
        DiffKind::Modified => DiffKind::Modified,
    }
}

/// Some diff of `ds` is for `p`.
pub open spec fn lists_path(ds: Seq<FileDiffView>, p: Seq<char>) -> bool {
    exists|i: int| 0 <= i < ds.len() && #[trigger] ds[i].path == p
}

/// The files hold no conflict entries.
pub open spec fn no_conflict_entries(m: FlatMap) -> bool {
    forall|p: Seq<char>| #[trigger] m.contains_key(p) ==> !(m[p].0 is Conflict)
}

/// One path's diff read the other way round.
proof fn lemma_entry_diff_reversed(v: StoreView, o: Option<(EntryKind, Seq<char>)>, n: Option<(EntryKind, Seq<char>)>)
    requires
        o matches Some(x) ==> !(x.0 is Conflict),
        n matches Some(x) ==> !(x.0 is Conflict),
    ensures
        match entry_diff(v, o, n) {
            Some(d) => entry_diff(v, n, o) matches Some(e) && e.0 == reversed_kind(d.0),
            None => entry_diff(v, n, o) is None,
        },
{
    match (o, n) {
        (Some(x), Some(y)) => {
            let ot = blob_text(v, x.1);
            let nt = blob_text(v, y.1);
            crate::linediff::lemma_line_diff_empty(ot, nt);
            crate::linediff::lemma_line_diff_empty(nt, ot);
        },
        _ => {},
    }
}

/// Diffing two trees of files one way and the other way round reports the same paths: an
/// addition one way is a deletion the other way, and a modification is one both ways.
pub proof fn lemma_diff_reversed(v: StoreView, om: FlatMap, nm: FlatMap, ds1: Seq<FileDiffView>, ds2: Seq<FileDiffView>)
    requires
        no_conflict_entries(om),
        no_conflict_entries(nm),
    ensures
        forall|p: Seq<char>|
            match #[trigger] entry_diff(v, lookup(om, p), lookup(nm, p)) {
                Some(d) => entry_diff(v, lookup(nm, p), lookup(om, p)) matches Some(e) && e.0 == reversed_kind(d.0),
                None => entry_diff(v, lookup(nm, p), lookup(om, p)) is None,
            },
        diffs_exact(v, om, nm, ds1) && diffs_exact(v, nm, om, ds2) ==> forall|p: Seq<char>|
            #[trigger] lists_path(ds1, p) <==> lists_path(ds2, p),
{
    assert forall|p: Seq<char>|
        match #[trigger] entry_diff(v, lookup(om, p), lookup(nm, p)) {
            Some(d) => entry_diff(v, lookup(nm, p), lookup(om, p)) matches Some(e) && e.0 == reversed_kind(d.0),
            None => entry_diff(v, lookup(nm, p), lookup(om, p)) is None,
        } by {
        if om.contains_key(p) {
            assert(!(om[p].0 is Conflict));
        }
        if nm.contains_key(p) {
            assert(!(nm[p].0 is Conflict));
        }
        lemma_entry_diff_reversed(v, lookup(om, p), lookup(nm, p));
    }
    if diffs_exact(v, om, nm, ds1) && diffs_exact(v, nm, om, ds2) {
        assert forall|p: Seq<char>| #[trigger] lists_path(ds1, p) <==> lists_path(ds2, p) by {
            if exists|i: int| 0 <= i < ds1.len() && #[trigger] ds1[i].path == p {
                let i = choose|i: int| 0 <= i < ds1.len() && #[trigger] ds1[i].path == p;
                assert(entry_diff(v, lookup(om, ds1[i].path), lookup(nm, ds1[i].path)) == Some((ds1[i].kind, ds1[i].hunks)));
                assert(entry_diff(v, lookup(nm, p), lookup(om, p)) is Some);
                assert(om.contains_key(p) || nm.contains_key(p));
            }
            if exists|j: int| 0 <= j < ds2.len() && #[trigger] ds2[j].path == p {
                let j = choose|j: int| 0 <= j < ds2.len() && #[trigger] ds2[j].path == p;
                assert(entry_diff(v, lookup(nm, ds2[j].path), lookup(om, ds2[j].path)) == Some((ds2[j].kind, ds2[j].hunks)));
                assert(entry_diff(v, lookup(om, p), lookup(nm, p)) is Some);
                assert(om.contains_key(p) || nm.contains_key(p));
            }
        }
    }
}

/// Every path of either tree can be compared.
pub open spec fn all_paths_ok(v: StoreView, om: FlatMap, nm: FlatMap) -> bool {
    forall|p: Seq<char>|
        om.contains_key(p) || nm.contains_key(p) ==> #[trigger] entry_ok(
            v,
            lookup(om, p),
            lookup(nm, p),
        )
}

/// `ds` holds, in path order, the diff of every path of either tree that has one.
pub open spec fn diffs_exact(v: StoreView, om: FlatMap, nm: FlatMap, ds: Seq<FileDiffView>) -> bool {
    &&& forall|i: int, j: int| 0 <= i < j < ds.len() ==> crate::order::text_lt(ds[i].path, ds[j].path)
    &&& forall|i: int|
        0 <= i < ds.len() ==> entry_diff(v, lookup(om, ds[i].path), lookup(nm, ds[i].path))
            == Some(((#[trigger] ds[i]).kind, ds[i].hunks))
    &&& forall|p: Seq<char>|
        (om.contains_key(p) || nm.contains_key(p)) && (#[trigger] entry_diff(
            v,
            lookup(om, p),
            lookup(nm, p),
        )) is Some ==> exists|i: int| 0 <= i < ds.len() && ds[i].path == p
}

/// The files of an optional tree: none for no tree.
pub open spec fn side_files(v: StoreView, h: Option<Seq<char>>) -> Option<FlatMap> {
    match h {
        None => Some(Map::empty()),
        Some(x) => tree_files(v, x),
    }
}

/// The entry's kind and hash.
pub open spec fn entry_pair(e: Option<&crate::flat::FlatEntry>) -> Option<(EntryKind, Seq<char>)> {
    match e {
        Some(x) => Some((x.kind, x.hash@)),
        None => None,
    }
}

fn read_text(store: &ObjectStore, hash: &String) -> (r: Result<String, VaultError>)
    ensures
        match r {
            Ok(t) => store@.blobs.contains_key(hash@) && t@ == blob_text(store@, hash@),
            Err(e) => !store@.blobs.contains_key(hash@) && e is ObjectNotFound,
        },
{
    let bytes = store.read_blob(hash.as_str())?;
    Ok(crate::text::utf8_lossy(bytes.as_slice()))
}

/// The diff of one path, given its old and new entries.
fn diff_entry(
    store: &ObjectStore,
    path: &String,
    o: Option<&crate::flat::FlatEntry>,
    n: Option<&crate::flat::FlatEntry>,
) -> (r: Result<Option<FileDiff>, VaultError>)
    ensures
        match r {
            Ok(x) => entry_ok(store@, entry_pair(o), entry_pair(n)) && match x {
                Some(d) => d@.path == path@ && entry_diff(store@, entry_pair(o), entry_pair(n))
                    == Some((d@.kind, d@.hunks)),
                None => entry_diff(store@, entry_pair(o), entry_pair(n)) is None,
            },
            Err(_) => !entry_ok(store@, entry_pair(o), entry_pair(n)),
        },
{
    match (o, n) {
        (Some(oe), None) => {
            let text = read_text(store, &oe.hash)?;
            let hunks = make_deletion_hunks(text.as_str());
            Ok(Some(FileDiff { path: path.clone(), kind: DiffKind::Deleted, hunks }))
        },
        (None, Some(ne)) => {
            if ne.kind == EntryKind::Conflict {
                return Ok(None);
            }
            let text = read_text(store, &ne.hash)?;
            let hunks = make_addition_hunks(text.as_str());
            Ok(Some(FileDiff { path: path.clone(), kind: DiffKind::Added, hunks }))
        },
        (Some(oe), Some(ne)) => {
            if ne.kind == EntryKind::Conflict || oe.hash == ne.hash {
                return Ok(None);
            }
            let old_text = read_text(store, &oe.hash)?;
            let new_text = read_text(store, &ne.hash)?;
            let a = crate::text::lines(old_text.as_str());
            let b = crate::text::lines(new_text.as_str());
            assert(crate::linediff::texts(a@) == crate::text::spec_lines(old_text@));
            assert(crate::linediff::texts(b@) == crate::text::spec_lines(new_text@));
            if a.len() == usize::MAX || b.len() == usize::MAX {
                return Err(VaultError::Io(crate::text::owned("file has too many lines")));
            }
            let hunks = crate::linediff::diff_lines(&a, &b);
            if hunks.len() == 0 {
                return Ok(None);
            }
            Ok(Some(FileDiff { path: path.clone(), kind: DiffKind::Modified, hunks }))
        },
        (None, None) => Ok(None),
    }
}

/// The flattened files of an optional tree.
fn side_flat(store: &ObjectStore, h: Option<&str>) -> (r: Result<FlatTree, VaultError>)
    ensures
        match side_files(store@, opt_view(h)) {
            Some(m) => r matches Ok(f) && f.wf() && f.view() == m,
            None => r matches Err(VaultError::ObjectNotFound(_)),
        },
{
    match h {
        Some(x) => flatten(store, x),
        None => {
            let f = FlatTree::new();
            assert(f.view() =~= Map::empty());
            Ok(f)
        },
    }
}

/// The value of an optional text.
pub open spec fn opt_view(h: Option<&str>) -> Option<Seq<char>> {
    match h {
        Some(x) => Some(x@),
        None => None,
    }
}

/// The merge walk over two sorted path lists has taken `os[..i]` and `ns[..j]`, all sorting
/// before what is left, and `ds` holds, in order, the diffs of the paths taken.
#[verifier::opaque]
pub open spec fn walk_inv(
    v: StoreView,
    os: Seq<crate::flat::FlatView>,
    ns: Seq<crate::flat::FlatView>,
    i: int,
    j: int,
    ds: Seq<FileDiffView>,
) -> bool {
    let om = crate::flat::seq_to_map(os);
    let nm = crate::flat::seq_to_map(ns);
    &&& 0 <= i <= os.len()
    &&& 0 <= j <= ns.len()
    &&& forall|a: int, b: int|
        0 <= a < i && j <= b < ns.len() ==> crate::order::text_lt(
            #[trigger] os[a].path,
            #[trigger] ns[b].path,
        )
    &&& forall|a: int, b: int|
        0 <= b < j && i <= a < os.len() ==> crate::order::text_lt(
            #[trigger] ns[b].path,
            #[trigger] os[a].path,
        )
    &&& forall|k: int|
        0 <= k < ds.len() ==> ((exists|a: int| 0 <= a < i && os[a].path == (#[trigger] ds[k]).path)
            || (exists|b: int| 0 <= b < j && ns[b].path == ds[k].path))
    &&& forall|a: int, b: int|
        0 <= a < b < ds.len() ==> crate::order::text_lt(
            (#[trigger] ds[a]).path,
            (#[trigger] ds[b]).path,
        )
    &&& forall|k: int|
        0 <= k < ds.len() ==> entry_diff(v, lookup(om, (#[trigger] ds[k]).path), lookup(nm, ds[k].path))
            == Some((ds[k].kind, ds[k].hunks))
    &&& forall|a: int|
        0 <= a < i ==> entry_ok(v, lookup(om, (#[trigger] os[a]).path), lookup(nm, os[a].path))
    &&& forall|b: int|
        0 <= b < j ==> entry_ok(v, lookup(om, (#[trigger] ns[b]).path), lookup(nm, ns[b].path))
    &&& forall|a: int|
        0 <= a < i && (#[trigger] entry_diff(v, lookup(om, os[a].path), lookup(nm, os[a].path)))
            is Some ==> exists|k: int| 0 <= k < ds.len() && ds[k].path == os[a].path
    &&& forall|b: int|
        0 <= b < j && (#[trigger] entry_diff(v, lookup(om, ns[b].path), lookup(nm, ns[b].path)))
            is Some ==> exists|k: int| 0 <= k < ds.len() && ds[k].path == ns[b].path
}

/// The path the walk takes next: from the old list, the new list, or both.
pub open spec fn walk_pick(
    os: Seq<crate::flat::FlatView>,
    ns: Seq<crate::flat::FlatView>,
    i: int,
    j: int,
    take_old: bool,
    take_new: bool,
) -> bool {
    &&& take_old || take_new
    &&& take_old ==> i < os.len()
    &&& take_new ==> j < ns.len()
    &&& (take_old && take_new) ==> os[i].path == ns[j].path
    &&& (take_old && !take_new) ==> (j == ns.len() || crate::order::text_lt(os[i].path, ns[j].path))
    &&& (take_new && !take_old) ==> (i == os.len() || crate::order::text_lt(ns[j].path, os[i].path))
}

/// The path picked is in exactly the lists it was taken from.
proof fn lemma_walk_pick(
    v: StoreView,
    os: Seq<crate::flat::FlatView>,
    ns: Seq<crate::flat::FlatView>,
    i: int,
    j: int,
    ds: Seq<FileDiffView>,
    take_old: bool,
    take_new: bool,
)
    requires
        crate::flat::sorted_paths(os),
        crate::flat::sorted_paths(ns),
        walk_inv(v, os, ns, i, j, ds),
        walk_pick(os, ns, i, j, take_old, take_new),
    ensures
        ({
            let p = if take_old { os[i].path } else { ns[j].path };
            &&& crate::flat::seq_to_map(os).contains_key(p) == take_old
            &&& crate::flat::seq_to_map(ns).contains_key(p) == take_new
            &&& take_old ==> crate::flat::seq_to_map(os)[p] == (os[i].kind, os[i].hash)
            &&& take_new ==> crate::flat::seq_to_map(ns)[p] == (ns[j].kind, ns[j].hash)
            &&& forall|k: int| 0 <= k < ds.len() ==> crate::order::text_lt(#[trigger] ds[k].path, p)
        }),
{
    reveal(walk_inv);
    crate::flat::lemma_seq_to_map(os);
    crate::flat::lemma_seq_to_map(ns);
    let p = if take_old { os[i].path } else { ns[j].path };
    crate::order::lemma_lt_irreflexive(p);
    if !take_new {
        assert forall|b: int| 0 <= b < ns.len() implies ns[b].path != p by {
            if b >= j {
                if b > j {
                    crate::order::lemma_lt_transitive(os[i].path, ns[j].path, ns[b].path);
                }
            }
        }
    }
    if !take_old {
        assert forall|a: int| 0 <= a < os.len() implies os[a].path != p by {
            if a >= i {
                if a > i {
                    crate::order::lemma_lt_transitive(ns[j].path, os[i].path, os[a].path);
                }
            }
        }
    }
    assert forall|k: int| 0 <= k < ds.len() implies crate::order::text_lt(#[trigger] ds[k].path, p) by {
        if exists|a: int| 0 <= a < i && os[a].path == ds[k].path {
            let a = choose|a: int| 0 <= a < i && os[a].path == ds[k].path;
            if take_old {
                assert(crate::order::text_lt(os[a].path, os[i].path));
            } else {
                assert(crate::order::text_lt(os[a].path, ns[j].path));
            }
        } else {
            let b = choose|b: int| 0 <= b < j && ns[b].path == ds[k].path;
            if take_new {
                assert(crate::order::text_lt(ns[b].path, ns[j].path));
            } else {
                assert(crate::order::text_lt(ns[b].path, os[i].path));
            }
        }
    }
}

/// One step of the walk keeps its invariant.
proof fn lemma_walk_step(
    v: StoreView,
    os: Seq<crate::flat::FlatView>,
    ns: Seq<crate::flat::FlatView>,
    i: int,
    j: int,
    ds: Seq<FileDiffView>,
    take_old: bool,
    take_new: bool,
    ds2: Seq<FileDiffView>,
)
    requires
        crate::flat::sorted_paths(os),
        crate::flat::sorted_paths(ns),
        walk_inv(v, os, ns, i, j, ds),
        walk_pick(os, ns, i, j, take_old, take_new),
        ({
            let p = if take_old { os[i].path } else { ns[j].path };
            let om = crate::flat::seq_to_map(os);
            let nm = crate::flat::seq_to_map(ns);
            &&& entry_ok(v, lookup(om, p), lookup(nm, p))
            &&& match entry_diff(v, lookup(om, p), lookup(nm, p)) {
                Some(d) => ds2 == ds.push(FileDiffView { path: p, kind: d.0, hunks: d.1 }),
                None => ds2 == ds,
            }
        }),
    ensures
        walk_inv(
            v,
            os,
            ns,
            if take_old { i + 1 } else { i },
            if take_new { j + 1 } else { j },
            ds2,
        ),
{
    reveal(walk_inv);
    lemma_walk_pick(v, os, ns, i, j, ds, take_old, take_new);
    let p = if take_old { os[i].path } else { ns[j].path };
    let i2 = if take_old { i + 1 } else { i };
    let j2 = if take_new { j + 1 } else { j };
    let om = crate::flat::seq_to_map(os);
    let nm = crate::flat::seq_to_map(ns);
    assert forall|a: int, b: int| 0 <= a < i2 && j2 <= b < ns.len() implies crate::order::text_lt(
        #[trigger] os[a].path,
        #[trigger] ns[b].path,
    ) by {
        if a == i && take_old {
            if take_new {
                assert(crate::order::text_lt(ns[j].path, ns[b].path));
            } else if b > j {
                crate::order::lemma_lt_transitive(os[a].path, ns[j].path, ns[b].path);
            }
        }
    }
    assert forall|a: int, b: int| 0 <= b < j2 && i2 <= a < os.len() implies crate::order::text_lt(
        #[trigger] ns[b].path,
        #[trigger] os[a].path,
    ) by {
        if b == j && take_new {
            if take_old {
                assert(crate::order::text_lt(os[i].path, os[a].path));
            } else if a > i {
                crate::order::lemma_lt_transitive(ns[b].path, os[i].path, os[a].path);
            }
        }
    }
    assert forall|k: int| 0 <= k < ds2.len() implies ((exists|a: int|
        0 <= a < i2 && os[a].path == (#[trigger] ds2[k]).path) || (exists|b: int|
        0 <= b < j2 && ns[b].path == ds2[k].path)) by {
        if k < ds.len() {
            assert(ds2[k] == ds[k]);
        } else if take_old {
            assert(os[i].path == ds2[k].path);
        } else {
            assert(ns[j].path == ds2[k].path);
        }
    }
    assert forall|a: int, b: int| 0 <= a < b < ds2.len() implies crate::order::text_lt(
        (#[trigger] ds2[a]).path,
        (#[trigger] ds2[b]).path,
    ) by {
        if b < ds.len() {
            assert(ds2[a] == ds[a] && ds2[b] == ds[b]);
        } else {
            assert(ds2[a] == ds[a]);
        }
    }
    assert forall|k: int| 0 <= k < ds2.len() implies entry_diff(
        v,
        lookup(om, (#[trigger] ds2[k]).path),
        lookup(nm, ds2[k].path),
    ) == Some((ds2[k].kind, ds2[k].hunks)) by {
        if k < ds.len() {
            assert(ds2[k] == ds[k]);
        }
    }
    assert forall|a: int| 0 <= a < i2 implies entry_ok(
        v,
        lookup(om, (#[trigger] os[a]).path),
        lookup(nm, os[a].path),
    ) by {}
    assert forall|b: int| 0 <= b < j2 implies entry_ok(
        v,
        lookup(om, (#[trigger] ns[b]).path),
        lookup(nm, ns[b].path),
    ) by {}
    assert forall|a: int|
        0 <= a < i2 && (#[trigger] entry_diff(v, lookup(om, os[a].path), lookup(nm, os[a].path)))
            is Some implies exists|k: int| 0 <= k < ds2.len() && ds2[k].path == os[a].path by {
        if a < i {
            let k = choose|k: int| 0 <= k < ds.len() && ds[k].path == os[a].path;
            assert(ds2[k] == ds[k]);
        } else {
            assert(ds2[ds2.len() - 1].path == os[a].path);
        }
    }
    assert forall|b: int|
        0 <= b < j2 && (#[trigger] entry_diff(v, lookup(om, ns[b].path), lookup(nm, ns[b].path)))
            is Some implies exists|k: int| 0 <= k < ds2.len() && ds2[k].path == ns[b].path by {
        if b < j {
            let k = choose|k: int| 0 <= k < ds.len() && ds[k].path == ns[b].path;
            assert(ds2[k] == ds[k]);
        } else {
            assert(ds2[ds2.len() - 1].path == ns[b].path);
        }
    }
}

/// At the end of the walk every path has been compared.
proof fn lemma_walk_done(
    v: StoreView,
    os: Seq<crate::flat::FlatView>,
    ns: Seq<crate::flat::FlatView>,
    ds: Seq<FileDiffView>,
)
    requires
        crate::flat::sorted_paths(os),
        crate::flat::sorted_paths(ns),
        walk_inv(v, os, ns, os.len() as int, ns.len() as int, ds),
    ensures
        all_paths_ok(v, crate::flat::seq_to_map(os), crate::flat::seq_to_map(ns)),
        diffs_exact(v, crate::flat::seq_to_map(os), crate::flat::seq_to_map(ns), ds),
{
    reveal(walk_inv);
    crate::flat::lemma_seq_to_map(os);
    crate::flat::lemma_seq_to_map(ns);
    let om = crate::flat::seq_to_map(os);
    let nm = crate::flat::seq_to_map(ns);
    assert forall|p: Seq<char>| om.contains_key(p) || nm.contains_key(p) implies #[trigger] entry_ok(
        v,
        lookup(om, p),
        lookup(nm, p),
    ) by {
        if om.contains_key(p) {
            let a = choose|a: int| 0 <= a < os.len() && os[a].path == p;
        } else {
            let b = choose|b: int| 0 <= b < ns.len() && ns[b].path == p;
        }
    }
    assert forall|p: Seq<char>|
        (om.contains_key(p) || nm.contains_key(p)) && (#[trigger] entry_diff(
            v,
            lookup(om, p),
            lookup(nm, p),
        )) is Some implies exists|k: int| 0 <= k < ds.len() && ds[k].path == p by {
        if om.contains_key(p) {
            let a = choose|a: int| 0 <= a < os.len() && os[a].path == p;
        } else {
            let b = choose|b: int| 0 <= b < ns.len() && ns[b].path == p;
        }
    }
}

/// The per-file diffs between two trees (either may be absent), sorted by path.
pub fn diff_trees(store: &ObjectStore, old_tree: Option<&str>, new_tree: Option<&str>) -> (r: Result<
    Vec<FileDiff>,
    VaultError,
>)
    ensures
        match (side_files(store@, opt_view(old_tree)), side_files(store@, opt_view(new_tree))) {
            (Some(om), Some(nm)) => match r {
                Ok(ds) => all_paths_ok(store@, om, nm) && diffs_exact(
                    store@,
                    om,
                    nm,
                    file_diff_views(ds@),
                ),
                Err(_) => !all_paths_ok(store@, om, nm),
            },
            _ => r matches Err(VaultError::ObjectNotFound(_)),
        },
{
    let old_flat = side_flat(store, old_tree)?;
    let new_flat = side_flat(store, new_tree)?;
    let ghost os = old_flat.seqv();
    let ghost ns = new_flat.seqv();
    let mut diffs: Vec<FileDiff> = Vec::new();
    let ol = old_flat.entries.len();
    let nl = new_flat.entries.len();
    let mut i: usize = 0;
    let mut j: usize = 0;
    assert(file_diff_views(diffs@) =~= Seq::<FileDiffView>::empty());
    proof {
        reveal(walk_inv);
    }
    while i < ol || j < nl
        invariant
            old_flat.wf(),
            new_flat.wf(),
            os == old_flat.seqv(),
            ns == new_flat.seqv(),
            ol == os.len(),
            nl == ns.len(),
            i <= ol,
            j <= nl,
            side_files(store@, opt_view(old_tree)) == Some(old_flat.view()),
            side_files(store@, opt_view(new_tree)) == Some(new_flat.view()),
            walk_inv(store@, os, ns, i as int, j as int, file_diff_views(diffs@)),
        decreases ol - i + nl - j,
    {
        let take_old: bool;
        let take_new: bool;
        if i < ol && j < nl {
            let op = crate::text::chars_vec(old_flat.entries[i].path.as_str());
            let np = crate::text::chars_vec(new_flat.entries[j].path.as_str());
            assert(os[i as int] == old_flat.entries@[i as int]@);
            assert(ns[j as int] == new_flat.entries@[j as int]@);
            if crate::order::chars_lt(&op, &np) {
                take_old = true;
                take_new = false;
            } else if crate::order::chars_lt(&np, &op) {
                take_old = false;
                take_new = true;
            } else {
                proof {
                    crate::order::lemma_lt_total(os[i as int].path, ns[j as int].path);
                }
                take_old = true;
                take_new = true;
            }
        } else if i < ol {
            take_old = true;
            take_new = false;
        } else {
            take_old = false;
            take_new = true;
        }
        proof {
            if take_old {
                assert(os[i as int] == old_flat.entries@[i as int]@);
            }
            if take_new {
                assert(ns[j as int] == new_flat.entries@[j as int]@);
            }
            lemma_walk_pick(store@, os, ns, i as int, j as int, file_diff_views(diffs@), take_old, take_new);
        }
        let ghost p = if take_old { os[i as int].path } else { ns[j as int].path };
        let oe: Option<&crate::flat::FlatEntry> = if take_old {
            Some(&old_flat.entries[i])
        } else {
            None
        };
        let ne: Option<&crate::flat::FlatEntry> = if take_new {
            Some(&new_flat.entries[j])
        } else {
            None
        };
        let path: String = if take_old {
            old_flat.entries[i].path.clone()
        } else {
            new_flat.entries[j].path.clone()
        };
        assert(entry_pair(oe) == lookup(old_flat.view(), p));
        assert(entry_pair(ne) == lookup(new_flat.view(), p));
        let res = diff_entry(store, &path, oe, ne);
        let ghost pre = file_diff_views(diffs@);
        match res {
            Err(e) => {
                proof {
                    if all_paths_ok(store@, old_flat.view(), new_flat.view()) {
                        assert(entry_ok(
                            store@,
                            lookup(old_flat.view(), p),
                            lookup(new_flat.view(), p),
                        ));
                    }
                    assert(!all_paths_ok(store@, old_flat.view(), new_flat.view()));
                }
                return Err(e);
            },
            Ok(Some(d)) => {
                diffs.push(d);
                assert(file_diff_views(diffs@) =~= pre.push(diffs@.last()@));
            },
            Ok(None) => {},
        }
        proof {
            lemma_walk_step(store@, os, ns, i as int, j as int, pre, take_old, take_new, file_diff_views(diffs@));
        }
        if take_old {
            i = i + 1;
        }
        if take_new {
            j = j + 1;
        }
    }
    proof {
        lemma_walk_done(store@, os, ns, file_diff_views(diffs@));
    }
    Ok(diffs)
}

} // verus!
