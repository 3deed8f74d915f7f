//! Recording the working directory as trees of the store.
use vstd::prelude::*;
use crate::diff::walk_depth;
use crate::flat::{FlatEntry, FlatView, flat_views};
use crate::hashing::spec_blake3_hex;
use crate::ignore::{is_ignored, spec_ignored};
use crate::objects::{EntryKind, EntryView, Tree, TreeEntry, entry_views, tree_hash};
use crate::store::{ObjectStore, StoreView, insert_new};
use crate::workdir::{WorkDir, WorkItem};

verus! {

broadcast use vstd::string::group_string_axioms;

/// A path as ignore patterns see it: each `\` turned into `/`.
pub open spec fn rel_of(p: Seq<char>) -> Seq<char> {
    p.map_values(|c: char| if c == '\\' { '/' } else { c })
}

/// `p` names an entry directly inside the directory `d` (the root when `d` is empty).
pub open spec fn child_of(d: Seq<char>, p: Seq<char>) -> bool {
    if d.len() == 0 {
        p.len() > 0 && !p.contains('/')
    } else {
        d.len() + 1 < p.len() && p.take(d.len() as int) == d && p[d.len() as int] == '/' && !p.skip(
            d.len() + 1int,
        ).contains('/')
    }
}

/// The name of the entry `p` inside the directory `d`.
pub open spec fn name_of(d: Seq<char>, p: Seq<char>) -> Seq<char> {
    if d.len() == 0 {
        p
    } else {
        p.skip(d.len() + 1int)
    }
}

/// The entries of `s` directly inside `d`, in order.
pub open spec fn children(s: Seq<FlatView>, d: Seq<char>) -> Seq<FlatView>
    decreases s.len(),
{
    if s.len() == 0 {
        Seq::empty()
    } else if child_of(d, s.last().path) {
        children(s.drop_last(), d).push(s.last())
    } else {
        children(s.drop_last(), d)
    }
}

/// The content of the file `p`, or nothing for a directory.
pub open spec fn content_of(m: Map<Seq<char>, WorkItem>, p: Seq<char>) -> Seq<u8> {
    match m[p] {
        WorkItem::File(c) => c,
        WorkItem::Dir => Seq::empty(),
    }
}

/// An object a snapshot stores.
pub enum SnapWrite {
    Blob(Seq<u8>),
    Tree(Seq<EntryView>),
}

/// The paths and kinds of `s`, the hashes left out.
pub open spec fn shape(s: Seq<FlatView>) -> Seq<FlatView> {
    s.map_values(|e: FlatView| FlatView { hash: Seq::empty(), ..e })
}

/// The children of a directory keep their shape.
proof fn lemma_children_shape(s: Seq<FlatView>, d: Seq<char>)
    ensures
        children(shape(s), d) == shape(children(s, d)),
    decreases s.len(),
{
    if s.len() > 0 {
        lemma_children_shape(s.drop_last(), d);
        assert(shape(s).drop_last() =~= shape(s.drop_last()));
        assert(shape(s).last() == FlatView { hash: Seq::empty(), ..s.last() });
        if child_of(d, s.last().path) {
            assert(shape(children(s.drop_last(), d).push(s.last())) =~= shape(children(s.drop_last(), d)).push(
                FlatView { hash: Seq::empty(), ..s.last() },
            ));
        }
    } else {
        assert(shape(s) =~= s);
    }
}

/// A snapshot of a directory reads only the paths and kinds of the entries, not their hashes.
proof fn lemma_snap_dir_shape(s: Seq<FlatView>, m: Map<Seq<char>, WorkItem>, pats: Seq<Seq<char>>, d: Seq<char>, fuel: nat)
    ensures
        snap_dir(s, m, pats, d, fuel) == snap_dir(shape(s), m, pats, d, fuel),
    decreases fuel, 0nat,
{
    if fuel > 0 {
        lemma_children_shape(s, d);
        lemma_snap_entries_shape(s, m, pats, d, children(s, d), (fuel - 1) as nat);
    }
}

/// The entries of a snapshot read only the paths and kinds of the entries, not their hashes.
proof fn lemma_snap_entries_shape(
    s: Seq<FlatView>,
    m: Map<Seq<char>, WorkItem>,
    pats: Seq<Seq<char>>,
    d: Seq<char>,
    cs: Seq<FlatView>,
    fuel: nat,
)
    ensures
        snap_entries(s, m, pats, d, cs, fuel) == snap_entries(shape(s), m, pats, d, shape(cs), fuel),
    decreases fuel, cs.len() + 1,
{
    if cs.len() > 0 {
        lemma_snap_entries_shape(s, m, pats, d, cs.drop_last(), fuel);
        assert(shape(cs).drop_last() =~= shape(cs.drop_last()));
        assert(shape(cs).last() == FlatView { hash: Seq::empty(), ..cs.last() });
        let c = cs.last();
        if !spec_ignored(rel_of(c.path), pats) && c.kind is Tree {
            lemma_snap_dir_shape(s, m, pats, c.path, fuel);
        }
    }
}

/// Two well-formed working directories with the same view are snapshot alike: a snapshot's
/// hash and writes depend on the working directory's content alone.
pub proof fn lemma_snapshot_of_view(w1: WorkDir, w2: WorkDir, pats: Seq<Seq<char>>, d: Seq<char>, fuel: nat)
    requires
        w1.wf(),
        w2.wf(),
        w1@ == w2@,
    ensures
        snap_dir(w1.paths.seqv(), w1@, pats, d, fuel) == snap_dir(w2.paths.seqv(), w2@, pats, d, fuel),
{
    let s1 = w1.paths.seqv();
    let s2 = w2.paths.seqv();
    crate::flat::lemma_seq_to_map(s1);
    crate::flat::lemma_seq_to_map(s2);
    let n1 = shape(s1);
    let n2 = shape(s2);
    assert(crate::flat::sorted_paths(n1));
    assert(crate::flat::sorted_paths(n2));
    crate::flat::lemma_seq_to_map(n1);
    crate::flat::lemma_seq_to_map(n2);
    assert forall|p: Seq<char>| #[trigger] crate::flat::seq_to_map(n1).contains_key(p) <==> crate::flat::seq_to_map(n2).contains_key(p) by {
        if crate::flat::seq_to_map(n1).contains_key(p) {
            let i = choose|i: int| 0 <= i < n1.len() && n1[i].path == p;
            assert(s1[i].path == p);
            assert(w1@.contains_key(p));
            assert(w2@.contains_key(p));
            let j = choose|j: int| 0 <= j < s2.len() && s2[j].path == p;
            assert(n2[j].path == p);
        }
        if crate::flat::seq_to_map(n2).contains_key(p) {
            let i = choose|i: int| 0 <= i < n2.len() && n2[i].path == p;
            assert(s2[i].path == p);
            assert(w2@.contains_key(p));
            assert(w1@.contains_key(p));
            let j = choose|j: int| 0 <= j < s1.len() && s1[j].path == p;
            assert(n1[j].path == p);
        }
    }
    assert forall|p: Seq<char>| #[trigger] crate::flat::seq_to_map(n1).contains_key(p) implies crate::flat::seq_to_map(n1)[p]
        == crate::flat::seq_to_map(n2)[p] by {
        let i = choose|i: int| 0 <= i < n1.len() && n1[i].path == p;
        let j = choose|j: int| 0 <= j < n2.len() && n2[j].path == p;
        assert(crate::flat::seq_to_map(n1)[n1[i].path] == (n1[i].kind, n1[i].hash));
        assert(crate::flat::seq_to_map(n2)[n2[j].path] == (n2[j].kind, n2[j].hash));
        assert(crate::flat::seq_to_map(s1)[s1[i].path] == (s1[i].kind, s1[i].hash));
        assert(crate::flat::seq_to_map(s2)[s2[j].path] == (s2[j].kind, s2[j].hash));
        assert(w1.paths.view().contains_key(p));
        assert(w2.paths.view().contains_key(p));
        assert(w1@[p] == w2@[p]);
        assert(s1[i].kind is Tree || s1[i].kind is Blob);
        assert(s2[j].kind is Tree || s2[j].kind is Blob);
        if s1[i].kind is Tree {
            assert(w1@[p] == WorkItem::Dir);
            assert(s2[j].kind is Tree);
        } else {
            assert(w1@[p] is File);
            assert(!(s2[j].kind is Tree));
        }
        assert(n1[i].kind == n2[j].kind);
    }
    assert(crate::flat::seq_to_map(n1) =~= crate::flat::seq_to_map(n2));
    crate::flat::lemma_sorted_unique(n1, n2);
    lemma_snap_dir_shape(s1, w1@, pats, d, fuel);
    lemma_snap_dir_shape(s2, w2@, pats, d, fuel);
}

/// The store after the snapshot's writes `ws`, in order, each only where its hash is new.
pub open spec fn apply_snap(v: StoreView, ws: Seq<SnapWrite>) -> StoreView
    decreases ws.len(),
{
    if ws.len() == 0 {
        v
    } else {
        let v2 = apply_snap(v, ws.drop_last());
        match ws.last() {
            SnapWrite::Blob(c) => StoreView { blobs: insert_new(v2.blobs, spec_blake3_hex(c), c), ..v2 },
            SnapWrite::Tree(es) => StoreView { trees: insert_new(v2.trees, tree_hash(es), es), ..v2 },
        }
    }
}


/// The store `v` already holds an object under the hash of the write `w`.
pub open spec fn write_held(v: StoreView, w: SnapWrite) -> bool {
    match w {
        SnapWrite::Blob(c) => v.blobs.contains_key(spec_blake3_hex(c)),
        SnapWrite::Tree(es) => v.trees.contains_key(tree_hash(es)),
    }
}

/// After the writes `ws`, the store holds an object under each of their hashes, and every
/// object it held before.
proof fn lemma_snap_writes_held(v: StoreView, ws: Seq<SnapWrite>)
    ensures
        forall|k: int| 0 <= k < ws.len() ==> write_held(apply_snap(v, ws), #[trigger] ws[k]),
        forall|w: SnapWrite| write_held(v, w) ==> #[trigger] write_held(apply_snap(v, ws), w),
    decreases ws.len(),
{
    if ws.len() > 0 {
        lemma_snap_writes_held(v, ws.drop_last());
        assert forall|k: int| 0 <= k < ws.len() implies write_held(apply_snap(v, ws), #[trigger] ws[k]) by {
            if k < ws.len() - 1 {
                assert(ws[k] == ws.drop_last()[k]);
                assert(write_held(apply_snap(v, ws.drop_last()), ws.drop_last()[k]));
            }
        }
        assert forall|w: SnapWrite| write_held(v, w) implies #[trigger] write_held(apply_snap(v, ws), w) by {
            assert(write_held(apply_snap(v, ws.drop_last()), w));
        }
    }
}

/// Writes whose hashes the store already holds change nothing.
proof fn lemma_snap_writes_noop(v: StoreView, ws: Seq<SnapWrite>)
    requires
        forall|k: int| 0 <= k < ws.len() ==> write_held(v, #[trigger] ws[k]),
    ensures
        apply_snap(v, ws) == v,
    decreases ws.len(),
{
    if ws.len() > 0 {
        assert forall|k: int| 0 <= k < ws.drop_last().len() implies write_held(v, #[trigger] ws.drop_last()[k]) by {
            assert(ws.drop_last()[k] == ws[k]);
        }
        lemma_snap_writes_noop(v, ws.drop_last());
        assert(write_held(v, ws[ws.len() - 1]));
    }
}

/// Snapshotting the same working directory again stores nothing new: the second round of
/// writes finds every object in place. (The hash a snapshot returns depends on the working
/// directory alone, so it is the same both times.)
pub proof fn lemma_snapshot_again(v: StoreView, ws: Seq<SnapWrite>)
    ensures
        apply_snap(apply_snap(v, ws), ws) == apply_snap(v, ws),
{
    lemma_snap_writes_held(v, ws);
    lemma_snap_writes_noop(apply_snap(v, ws), ws);
}

/// Writing two lists one after the other writes their concatenation.
pub proof fn lemma_apply_snap_concat(v: StoreView, a: Seq<SnapWrite>, b: Seq<SnapWrite>)
    ensures
        apply_snap(v, a + b) == apply_snap(apply_snap(v, a), b),
    decreases b.len(),
{
    if b.len() == 0 {
        assert(a + b =~= a);
    } else {
        lemma_apply_snap_concat(v, a, b.drop_last());
        assert((a + b).drop_last() =~= a + b.drop_last());
        assert((a + b).last() == b.last());
    }
}

/// The hash of the tree recording the directory `d` of the working directory (sorted paths
/// `s`, items `m`) without the paths that `pats` ignore, and the objects written, in order;
/// at most `fuel` levels are descended, a deeper directory counting as empty.
pub open spec fn snap_dir(
    s: Seq<FlatView>,
    m: Map<Seq<char>, WorkItem>,
    pats: Seq<Seq<char>>,
    d: Seq<char>,
    fuel: nat,
) -> (Seq<char>, Seq<SnapWrite>)
    decreases fuel, 0nat,
{
    if fuel == 0 {
        (tree_hash(Seq::empty()), seq![SnapWrite::Tree(Seq::empty())])
    } else {
        let r = snap_entries(s, m, pats, d, children(s, d), (fuel - 1) as nat);
        (tree_hash(r.0), r.1.push(SnapWrite::Tree(r.0)))
    }
}

/// The tree entries for the children `cs` of `d`, and the objects written for them.
pub open spec fn snap_entries(
    s: Seq<FlatView>,
    m: Map<Seq<char>, WorkItem>,
    pats: Seq<Seq<char>>,
    d: Seq<char>,
    cs: Seq<FlatView>,
    fuel: nat,
) -> (Seq<EntryView>, Seq<SnapWrite>)
    decreases fuel, cs.len() + 1,
{
    if cs.len() == 0 {
        (Seq::empty(), Seq::empty())
    } else {
        let r = snap_entries(s, m, pats, d, cs.drop_last(), fuel);
        let c = cs.last();
        if spec_ignored(rel_of(c.path), pats) {
            r
        } else if c.kind is Tree {
            let sub = snap_dir(s, m, pats, c.path, fuel);
            (
                r.0.push(EntryView { name: name_of(d, c.path), kind: EntryKind::Tree, hash: sub.0 }),
                r.1 + sub.1,
            )
        } else {
            let content = content_of(m, c.path);
            (
                r.0.push(
                    EntryView {
                        name: name_of(d, c.path),
                        kind: EntryKind::Blob,
                        hash: spec_blake3_hex(content),
                    },
                ),
                r.1.push(SnapWrite::Blob(content)),
            )
        }
    }
}

/// `p` with each `\` turned into `/`.
pub fn rel_path(p: &str) -> (r: String)
    ensures
        r@ == rel_of(p@),
{
    let cs = crate::text::chars_vec(p);
    let mut out = String::new();
    let mut start: usize = 0;
    let mut i: usize = 0;
    proof {
        reveal_strlit("/");
    }
    while i < cs.len()
        invariant
            cs@ == p@,
            start <= i <= cs@.len(),
            out@ + p@.subrange(start as int, i as int) == rel_of(p@.take(i as int)),
            forall|k: int| start <= k < i ==> p@[k] != '\\',
        decreases cs.len() - i,
    {
        let ghost before = out@ + p@.subrange(start as int, i as int);
        if cs[i] == '\\' {
            let ghost o0 = out@;
            let ghost s0 = start;
            let seg = crate::text::substring(p, start, i);
            out = crate::text::concat(out.as_str(), seg.as_str());
            out = crate::text::concat(out.as_str(), "/");
            start = i + 1;
            proof {
                reveal_strlit("/");
            }
            assert("/"@ =~= seq!['/']);
            assert(out@ == o0 + p@.subrange(s0 as int, i as int) + seq!['/']);
            assert(p@[i as int] == '\\');
            assert(rel_of(p@.take(i + 1)) =~= rel_of(p@.take(i as int)).push('/'));
            assert(out@ + p@.subrange(start as int, i + 1) =~= rel_of(p@.take(i + 1)));
        } else {
            assert(out@ + p@.subrange(start as int, i + 1) =~= rel_of(p@.take(i + 1))) by {
                assert(rel_of(p@.take(i + 1)) =~= rel_of(p@.take(i as int)).push(p@[i as int]));
                assert(p@.subrange(start as int, i + 1) =~= p@.subrange(start as int, i as int).push(
                    p@[i as int],
                ));
            }
        }
        i = i + 1;
    }
    let last = crate::text::substring(p, start, cs.len());
    assert(p@.take(cs.len() as int) =~= p@);
    crate::text::concat(out.as_str(), last.as_str())
}

/// Whether `cs` holds a `/` at or after `from`.
fn slash_at_or_after(cs: &Vec<char>, from: usize) -> (r: bool)
    requires
        from <= cs@.len(),
    ensures
        r == cs@.skip(from as int).contains('/'),
{
    let mut i: usize = from;
    while i < cs.len()
        invariant
            from <= i <= cs@.len(),
            forall|k: int| from <= k < i ==> cs@[k] != '/',
        decreases cs.len() - i,
    {
        if cs[i] == '/' {
            assert(cs@.skip(from as int)[i - from] == '/');
            return true;
        }
        i = i + 1;
    }
    assert(!cs@.skip(from as int).contains('/')) by {
        if cs@.skip(from as int).contains('/') {
            let k = choose|k: int| 0 <= k < cs@.skip(from as int).len() && cs@.skip(from as int)[k] == '/';
            assert(cs@[from + k] == '/');
        }
    }
    false
}

/// Whether `p` names an entry directly inside `d`.
pub fn is_child(d: &str, p: &str) -> (r: bool)
    ensures
        r == child_of(d@, p@),
{
    let dv = crate::text::chars_vec(d);
    let pv = crate::text::chars_vec(p);
    if dv.len() == 0 {
        assert(pv@.skip(0) =~= pv@);
        return pv.len() > 0 && !slash_at_or_after(&pv, 0);
    }
    if dv.len() >= pv.len() || pv.len() - dv.len() < 2 {
        return false;
    }
    let mut i: usize = 0;
    while i < dv.len()
        invariant
            dv@ == d@,
            pv@ == p@,
            dv.len() + 1 < pv.len(),
            i <= dv.len(),
            forall|k: int| 0 <= k < i ==> pv@[k] == dv@[k],
        decreases dv.len() - i,
    {
        if pv[i] != dv[i] {
            assert(p@.take(d@.len() as int)[i as int] != d@[i as int]);
            return false;
        }
        i = i + 1;
    }
    assert(p@.take(d@.len() as int) =~= d@);
    pv[dv.len()] == '/' && !slash_at_or_after(&pv, dv.len() + 1)
}

/// The name of the entry `p` inside `d`.
fn name_in(d: &str, p: &str) -> (r: String)
    requires
        child_of(d@, p@),
    ensures
        r@ == name_of(d@, p@),
{
    let n = d.unicode_len();
    let m = p.unicode_len();
    assert(n == d@.len() && m == p@.len());
    if n == 0 {
        crate::text::owned(p)
    } else {
        crate::text::substring(p, n + 1, m)
    }
}

/// The entries of the working directory directly inside `d`, in path order.
fn children_of(w: &WorkDir, d: &str) -> (r: Vec<FlatEntry>)
    ensures
        flat_views(r@) == children(w.paths.seqv(), d@),
{
    let ghost s = w.paths.seqv();
    let mut out: Vec<FlatEntry> = Vec::new();
    let mut i: usize = 0;
    assert(s.take(0) =~= Seq::<FlatView>::empty());
    assert(flat_views(out@) =~= Seq::<FlatView>::empty());
    while i < w.paths.entries.len()
        invariant
            s == w.paths.seqv(),
            i <= s.len(),
            flat_views(out@) == children(s.take(i as int), d@),
        decreases w.paths.entries.len() - i,
    {
        assert(s.take(i + 1).drop_last() =~= s.take(i as int));
        assert(s.take(i + 1).last() == w.paths.entries@[i as int]@);
        if is_child(d, w.paths.entries[i].path.as_str()) {
            let ghost before = out@;
            out.push(w.paths.entries[i].duplicate());
            assert(flat_views(out@) =~= flat_views(before).push(w.paths.entries@[i as int]@));
        }
        i = i + 1;
    }
    assert(s.take(s.len() as int) =~= s);
    out
}

/// Records the directory `d` as a tree, storing the files' blobs and the trees, and returns
/// the tree's hash.
fn snapshot_rec(store: &mut ObjectStore, w: &WorkDir, patterns: &Vec<String>, d: &str, fuel: usize) -> (r:
    String)
    requires
        w.wf(),
    ensures
        final(store).commit_keys == old(store).commit_keys,
        old(store).recorded() ==> final(store).recorded(),
        ({
            let sd = snap_dir(w.paths.seqv(), w@, patterns@.map_values(|s: String| s@), d@, fuel as nat);
            &&& r@ == sd.0
            &&& final(store)@ == apply_snap(old(store)@, sd.1)
        }),
    decreases fuel,
{
    let ghost s = w.paths.seqv();
    let ghost m = w@;
    let ghost pv = patterns@.map_values(|s: String| s@);
    let ghost v0 = store@;
    if fuel == 0 {
        let t = Tree { entries: Vec::new() };
        assert(t@ =~= Seq::<EntryView>::empty());
        let h = store.write_tree(&t);
        proof {
            let ws = seq![SnapWrite::Tree(Seq::<EntryView>::empty())];
            assert(ws.drop_last() =~= Seq::<SnapWrite>::empty());
            assert(apply_snap(v0, ws.drop_last()) == v0);
            assert(ws.last() == SnapWrite::Tree(Seq::<EntryView>::empty()));
        }
        return h;
    }
    let cs = children_of(w, d);
    let ghost csv = flat_views(cs@);
    let ghost f = (fuel - 1) as nat;
    let mut entries: Vec<TreeEntry> = Vec::new();
    let mut i: usize = 0;
    assert(csv.take(0) =~= Seq::<FlatView>::empty());
    assert(entry_views(entries@) =~= Seq::<EntryView>::empty());
    while i < cs.len()
        invariant
            w.wf(),
            s == w.paths.seqv(),
            m == w@,
            pv == patterns@.map_values(|s: String| s@),
            csv == flat_views(cs@),
            csv == children(s, d@),
            i <= csv.len(),
            fuel > 0,
            f == fuel - 1,
            store.commit_keys == old(store).commit_keys,
            old(store).recorded() ==> store.recorded(),
            v0 == old(store)@,
            ({
                let r = snap_entries(s, m, pv, d@, csv.take(i as int), f);
                &&& entry_views(entries@) == r.0
                &&& store@ == apply_snap(v0, r.1)
            }),
        decreases cs.len() - i,
    {
        let c = &cs[i];
        assert(csv[i as int] == c@);
        assert(csv.take(i + 1).drop_last() =~= csv.take(i as int));
        assert(csv.take(i + 1).last() == c@);
        let ghost r0 = snap_entries(s, m, pv, d@, csv.take(i as int), f);
        let rel = rel_path(c.path.as_str());
        if is_ignored(rel.as_str(), patterns) {
        } else {
            proof {
                assert(children(s, d@).contains(c@)) by {
                    assert(csv == children(s, d@));
                    assert(csv[i as int] == c@);
                }
                lemma_children_are_children(s, d@, c@);
            }
            let name = name_in(d, c.path.as_str());
            if c.kind == EntryKind::Tree {
                let ghost vb = store@;
                let h = snapshot_rec(store, w, patterns, c.path.as_str(), fuel - 1);
                proof {
                    lemma_apply_snap_concat(v0, r0.1, snap_dir(s, m, pv, c@.path, f).1);
                }
                let ghost eb = entry_views(entries@);
                entries.push(TreeEntry { name, kind: EntryKind::Tree, hash: h });
                assert(entry_views(entries@) =~= eb.push(entries@.last()@));
            } else {
                proof {
                    lemma_file_entry(w, c@);
                }
                let content = w.contents.get(c.path.as_str()).unwrap();
                assert(content@ == content_of(m, c@.path));
                let h = store.write_blob(content.as_slice());
                let ghost eb = entry_views(entries@);
                entries.push(TreeEntry { name, kind: EntryKind::Blob, hash: h });
                assert(entry_views(entries@) =~= eb.push(entries@.last()@));
                proof {
                    let ws = r0.1.push(SnapWrite::Blob(content@));
                    assert(ws.drop_last() =~= r0.1);
                }
            }
        }
        i = i + 1;
    }
    assert(csv.take(csv.len() as int) =~= csv);
    let ghost r = snap_entries(s, m, pv, d@, csv, f);
    let t = Tree { entries };
    let h = store.write_tree(&t);
    proof {
        let ws = r.1.push(SnapWrite::Tree(r.0));
        assert(ws.drop_last() =~= r.1);
    }
    h
}

/// The children of `d` are entries of `s` directly inside `d`.
proof fn lemma_children_are_children(s: Seq<FlatView>, d: Seq<char>, c: FlatView)
    requires
        children(s, d).contains(c),
    ensures
        s.contains(c),
        child_of(d, c.path),
    decreases s.len(),
{
    if s.len() > 0 {
        if child_of(d, s.last().path) && c == s.last() {
            assert(s[s.len() - 1] == c);
        } else {
            if child_of(d, s.last().path) {
                let k = choose|k: int| 0 <= k < children(s, d).len() && children(s, d)[k] == c;
                assert(k < children(s.drop_last(), d).len());
                assert(children(s.drop_last(), d)[k] == c);
            }
            lemma_children_are_children(s.drop_last(), d, c);
            let k = choose|k: int| 0 <= k < s.drop_last().len() && s.drop_last()[k] == c;
            assert(s[k] == c);
        }
    }
}

/// A listed entry that is not a directory is a file with its content.
proof fn lemma_file_entry(w: &WorkDir, c: FlatView)
    requires
        w.wf(),
        w.paths.seqv().contains(c),
        !(c.kind is Tree),
    ensures
        w.contents@.contains_key(c.path),
        w@[c.path] == WorkItem::File(w.contents@[c.path]@),
{
    lemma_seq_to_map_member(w, c);
}

/// A listed entry is in the path map with its kind.
proof fn lemma_seq_to_map_member(w: &WorkDir, c: FlatView)
    requires
        w.wf(),
        w.paths.seqv().contains(c),
    ensures
        w.paths.view().contains_key(c.path),
        w.paths.view()[c.path] == (c.kind, c.hash),
{
    crate::flat::lemma_seq_to_map(w.paths.seqv());
    let k = choose|k: int| 0 <= k < w.paths.seqv().len() && w.paths.seqv()[k] == c;
}

/// Records the working directory `w`, without the paths that `patterns` ignore, as trees of
/// the store, storing each file's blob, and returns the root tree's hash.
pub fn snapshot(store: &mut ObjectStore, w: &WorkDir, patterns: &Vec<String>) -> (r: String)
    requires
        w.wf(),
    ensures
        final(store).commit_keys == old(store).commit_keys,
        old(store).recorded() ==> final(store).recorded(),
        ({
            let sd = snap_dir(
                w.paths.seqv(),
                w@,
                patterns@.map_values(|s: String| s@),
                Seq::empty(),
                walk_depth(),
            );
            &&& r@ == sd.0
            &&& final(store)@ == apply_snap(old(store)@, sd.1)
        }),
{
    proof {
        reveal_strlit("");
    }
    assert(""@ =~= Seq::<char>::empty());
    snapshot_rec(store, w, patterns, "", usize::MAX)
}

} // verus!
