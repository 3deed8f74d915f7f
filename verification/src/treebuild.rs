//! Building nested trees from a flat list of paths.
use vstd::prelude::*;
use crate::flat::{FlatEntry, FlatView, flat_views};
use crate::objects::{EntryKind, EntryView, Tree, TreeEntry, entry_views, tree_hash};
use crate::order::{str_lt, text_lt};
use crate::store::{ObjectStore, StoreView, insert_new};

verus! {

broadcast use vstd::string::group_string_axioms;

/// Index of the first `'/'` at or after `i` in `p`, or -1 when there is none.
pub open spec fn slash_from(p: Seq<char>, i: int) -> int
    decreases p.len() - i,
{
    if i < 0 || i >= p.len() {
        -1
    } else if p[i] == '/' {
        i
    } else {
        slash_from(p, i + 1)
    }
}

/// Index of the first `'/'` in `p`, or -1.
pub open spec fn first_slash(p: Seq<char>) -> int {
    slash_from(p, 0)
}

/// The first directory of a path that has one.
pub open spec fn head_dir(p: Seq<char>) -> Seq<char> {
    p.take(first_slash(p))
}

/// The rest of a path after its first directory.
pub open spec fn tail_path(p: Seq<char>) -> Seq<char> {
    p.skip(first_slash(p) + 1)
}

/// The entries for the paths without a directory, in order.
pub open spec fn files_of(s: Seq<FlatView>) -> Seq<EntryView>
    decreases s.len(),
{
    if s.len() == 0 {
        Seq::empty()
    } else if first_slash(s.last().path) < 0 {
        files_of(s.drop_last()).push(
            EntryView { name: s.last().path, kind: s.last().kind, hash: s.last().hash },
        )
    } else {
        files_of(s.drop_last())
    }
}

/// The first directories of the paths, each once, in order of first appearance.
pub open spec fn dirs_of(s: Seq<FlatView>) -> Seq<Seq<char>>
    decreases s.len(),
{
    if s.len() == 0 {
        Seq::empty()
    } else if first_slash(s.last().path) >= 0 && !dirs_of(s.drop_last()).contains(
        head_dir(s.last().path),
    ) {
        dirs_of(s.drop_last()).push(head_dir(s.last().path))
    } else {
        dirs_of(s.drop_last())
    }
}

/// The paths under directory `d`, relative to it, in order.
pub open spec fn sub_of(s: Seq<FlatView>, d: Seq<char>) -> Seq<FlatView>
    decreases s.len(),
{
    if s.len() == 0 {
        Seq::empty()
    } else if first_slash(s.last().path) >= 0 && head_dir(s.last().path) == d {
        sub_of(s.drop_last(), d).push(
            FlatView { path: tail_path(s.last().path), kind: s.last().kind, hash: s.last().hash },
        )
    } else {
        sub_of(s.drop_last(), d)
    }
}

/// `out` with `e` inserted after every entry whose name does not sort after `e`'s.
pub open spec fn ins_sorted(out: Seq<EntryView>, e: EntryView) -> Seq<EntryView>
    decreases out.len(),
{
    if out.len() == 0 {
        seq![e]
    } else if text_lt(e.name, out[0].name) {
        seq![e] + out
    } else {
        seq![out[0]] + ins_sorted(out.drop_first(), e)
    }
}

/// The entries stably sorted by name.
pub open spec fn sort_entries(es: Seq<EntryView>) -> Seq<EntryView>
    decreases es.len(),
{
    if es.len() == 0 {
        Seq::empty()
    } else {
        ins_sorted(sort_entries(es.drop_last()), es.last())
    }
}

/// A tree written to the store: its hash and its entries.
pub type TreeWrite = (Seq<char>, Seq<EntryView>);

/// The trees map after writing `ws` in order, each only where its hash is new.
pub open spec fn apply_writes(m: Map<Seq<char>, Seq<EntryView>>, ws: Seq<TreeWrite>) -> Map<
    Seq<char>,
    Seq<EntryView>,
>
    decreases ws.len(),
{
    if ws.len() == 0 {
        m
    } else {
        let m2 = apply_writes(m, ws.drop_last());
        insert_new(m2, ws.last().0, ws.last().1)
    }
}

/// The root hash of the tree built from the flat paths `s`, and the trees written, in order,
/// descending at most `fuel` levels.
pub open spec fn build(s: Seq<FlatView>, fuel: nat) -> (Seq<char>, Seq<TreeWrite>)
    decreases fuel, 0nat,
{
    if fuel == 0 {
        let es = sort_entries(files_of(s));
        (tree_hash(es), seq![(tree_hash(es), es)])
    } else {
        let (dir_es, ws) = build_dirs(s, dirs_of(s), dirs_of(s).len() as int, (fuel - 1) as nat);
        let es = sort_entries(files_of(s) + dir_es);
        (tree_hash(es), ws.push((tree_hash(es), es)))
    }
}

/// The entries and writes for the first `k` directories of `ds`.
pub open spec fn build_dirs(s: Seq<FlatView>, ds: Seq<Seq<char>>, k: int, fuel: nat) -> (Seq<
    EntryView,
>, Seq<TreeWrite>)
    decreases fuel, k + 1,
{
    if k <= 0 || k > ds.len() {
        (Seq::empty(), Seq::empty())
    } else {
        let (es, ws) = build_dirs(s, ds, k - 1, fuel);
        let (h, sub_ws) = build(sub_of(s, ds[k - 1]), fuel);
        (es.push(EntryView { name: ds[k - 1], kind: EntryKind::Tree, hash: h }), ws + sub_ws)
    }
}

/// The hash of the tree built from `s`, with as many levels as a machine stack allows.
pub open spec fn built_hash(s: Seq<FlatView>) -> Seq<char> {
    build(s, usize::MAX as nat).0
}

/// The trees written when building from `s`.
pub open spec fn built_writes(s: Seq<FlatView>) -> Seq<TreeWrite> {
    build(s, usize::MAX as nat).1
}

/// Inserting at the first position whose name sorts after `e`'s is `ins_sorted`.
proof fn lemma_ins_sorted(out: Seq<EntryView>, e: EntryView, k: int)
    requires
        0 <= k <= out.len(),
        forall|j: int| 0 <= j < k ==> !text_lt(e.name, #[trigger] out[j].name),
        k < out.len() ==> text_lt(e.name, out[k].name),
    ensures
        ins_sorted(out, e) == out.insert(k, e),
    decreases out.len(),
{
    if out.len() == 0 {
        assert(out.insert(k, e) =~= seq![e]);
    } else if k == 0 {
        assert(out.insert(k, e) =~= seq![e] + out);
    } else {
        let t = out.drop_first();
        assert forall|j: int| 0 <= j < k - 1 implies !text_lt(e.name, #[trigger] t[j].name) by {
            assert(t[j] == out[j + 1]);
        }
        lemma_ins_sorted(t, e, k - 1);
        assert(out.insert(k, e) =~= seq![out[0]] + t.insert(k - 1, e));
    }
}

/// Writing trees one after another applies them in order.
proof fn lemma_apply_writes_push(m: Map<Seq<char>, Seq<EntryView>>, ws: Seq<TreeWrite>, w: TreeWrite)
    ensures
        apply_writes(m, ws.push(w)) == insert_new(apply_writes(m, ws), w.0, w.1),
{
    assert(ws.push(w).drop_last() =~= ws);
}

/// Applying two lists of writes applies their concatenation.
proof fn lemma_apply_writes_concat(
    m: Map<Seq<char>, Seq<EntryView>>,
    a: Seq<TreeWrite>,
    b: Seq<TreeWrite>,
)
    ensures
        apply_writes(apply_writes(m, a), b) == apply_writes(m, a + b),
    decreases b.len(),
{
    if b.len() == 0 {
        assert(a + b =~= a);
    } else {
        lemma_apply_writes_concat(m, a, b.drop_last());
        assert((a + b).drop_last() =~= a + b.drop_last());
    }
}

/// The first directory and the rest of a path, when it has a `'/'`.
fn split_path(p: &str) -> (r: Option<(String, String)>)
    ensures
        match r {
            Some((d, rest)) => first_slash(p@) >= 0 && d@ == head_dir(p@) && rest@ == tail_path(p@),
            None => first_slash(p@) < 0,
        },
{
    let cs = crate::text::chars_vec(p);
    let mut i: usize = 0;
    while i < cs.len()
        invariant
            i <= cs@.len(),
            cs@ == p@,
            slash_from(p@, 0) == slash_from(p@, i as int),
        decreases cs.len() - i,
    {
        if cs[i] == '/' {
            let d = crate::text::substring(p, 0, i);
            let rest = crate::text::substring(p, i + 1, cs.len());
            return Some((d, rest));
        }
        i = i + 1;
    }
    None
}

/// A copy of a tree entry list.
fn copy_entries(v: &Vec<TreeEntry>) -> (r: Vec<TreeEntry>)
    ensures
        entry_views(r@) == entry_views(v@),
{
    let mut r: Vec<TreeEntry> = Vec::new();
    let mut i: usize = 0;
    while i < v.len()
        invariant
            i <= v@.len(),
            r@.len() == i,
            forall|j: int| 0 <= j < i ==> (#[trigger] r@[j])@ == v@[j]@,
        decreases v.len() - i,
    {
        r.push(v[i].duplicate());
        i = i + 1;
    }
    assert(entry_views(r@) =~= entry_views(v@));
    r
}

/// The entries stably sorted by name.
fn sort_by_name(es: Vec<TreeEntry>) -> (r: Vec<TreeEntry>)
    ensures
        entry_views(r@) == sort_entries(entry_views(es@)),
{
    let ghost ev = entry_views(es@);
    let mut out: Vec<TreeEntry> = Vec::new();
    let mut i: usize = 0;
    assert(ev.take(0) =~= Seq::<EntryView>::empty());
    while i < es.len()
        invariant
            i <= es@.len(),
            ev == entry_views(es@),
            entry_views(out@) == sort_entries(ev.take(i as int)),
        decreases es.len() - i,
    {
        let e = es[i].duplicate();
        let mut k: usize = 0;
        let mut stop = false;
        while k < out.len() && !stop
            invariant
                k <= out@.len(),
                i < es@.len(),
                e@ == es@[i as int]@,
                forall|j: int| 0 <= j < k ==> !text_lt(e@.name, #[trigger] out@[j]@.name),
                stop ==> k < out@.len() && text_lt(e@.name, out@[k as int]@.name),
            decreases out.len() - k, if stop { 0int } else { 1int },
        {
            if str_lt(e.name.as_str(), out[k].name.as_str()) {
                stop = true;
            } else {
                k = k + 1;
            }
        }
        let ghost before = entry_views(out@);
        proof {
            lemma_ins_sorted(before, e@, k as int);
            assert(ev.take(i + 1).drop_last() =~= ev.take(i as int));
            assert(ev.take(i + 1).last() == e@);
        }
        out.insert(k, e);
        assert(entry_views(out@) =~= before.insert(k as int, e@));
        i = i + 1;
    }
    assert(ev.take(es@.len() as int) =~= ev);
    out
}

/// The plain-file entries, the directories, and each directory's relative paths, of `s`.
fn group_paths(s: &Vec<FlatEntry>) -> (r: (Vec<TreeEntry>, Vec<String>, Vec<Vec<FlatEntry>>))
    ensures
        entry_views(r.0@) == files_of(flat_views(s@)),
        r.1@.map_values(|d: String| d@) == dirs_of(flat_views(s@)),
        r.2@.len() == r.1@.len(),
        forall|k: int|
            0 <= k < r.2@.len() ==> flat_views((#[trigger] r.2@[k])@) == sub_of(
                flat_views(s@),
                r.1@[k]@,
            ),
{
    let ghost sv = flat_views(s@);
    let mut files: Vec<TreeEntry> = Vec::new();
    let mut dirs: Vec<String> = Vec::new();
    let mut subs: Vec<Vec<FlatEntry>> = Vec::new();
    let mut i: usize = 0;
    assert(sv.take(0) =~= Seq::<FlatView>::empty());
    assert(dirs@.map_values(|d: String| d@) =~= Seq::<Seq<char>>::empty());
    while i < s.len()
        invariant
            i <= s@.len(),
            sv == flat_views(s@),
            entry_views(files@) == files_of(sv.take(i as int)),
            dirs@.map_values(|d: String| d@) == dirs_of(sv.take(i as int)),
            subs@.len() == dirs@.len(),
            forall|k: int|
                0 <= k < subs@.len() ==> flat_views((#[trigger] subs@[k])@) == sub_of(
                    sv.take(i as int),
                    dirs@[k]@,
                ),
        decreases s.len() - i,
    {
        let ghost pre = sv.take(i as int);
        let ghost cur = sv.take(i + 1);
        assert(cur.drop_last() =~= pre);
        assert(cur.last() == s@[i as int]@);
        let e = &s[i];
        match split_path(e.path.as_str()) {
            None => {
                let ghost fb = entry_views(files@);
                files.push(TreeEntry { name: e.path.clone(), kind: e.kind, hash: e.hash.clone() });
                assert(entry_views(files@) =~= fb.push(files@.last()@));
                assert forall|k: int| 0 <= k < subs@.len() implies flat_views(
                    (#[trigger] subs@[k])@,
                ) == sub_of(cur, dirs@[k]@) by {}
            },
            Some((d, rest)) => {
                let ghost dv = dirs@.map_values(|x: String| x@);
                let mut k: usize = 0;
                let mut found = false;
                while k < dirs.len() && !found
                    invariant
                        k <= dirs@.len(),
                        dv == dirs@.map_values(|x: String| x@),
                        forall|q: int| 0 <= q < k ==> dirs@[q]@ != d@,
                        found ==> k < dirs@.len() && dirs@[k as int]@ == d@,
                    decreases dirs.len() - k, if found { 0int } else { 1int },
                {
                    if dirs[k] == d {
                        found = true;
                    } else {
                        k = k + 1;
                    }
                }
                let fe = FlatEntry { path: rest, kind: e.kind, hash: e.hash.clone() };
                if k < dirs.len() {
                    assert(dv[k as int] == d@);
                    assert(dv.contains(d@));
                    let ghost sb = flat_views(subs@[k as int]@);
                    let mut g = subs.remove(k);
                    g.push(fe);
                    subs.insert(k, g);
                    assert(flat_views(subs@[k as int]@) =~= sb.push(subs@[k as int]@.last()@));
                    assert forall|q: int| 0 <= q < subs@.len() implies flat_views(
                        (#[trigger] subs@[q])@,
                    ) == sub_of(cur, dirs@[q]@) by {
                        if q != k {
                            assert(dirs@[q]@ != d@) by {
                                if q < k {
                                } else {
                                    assert(dv[q] == dirs@[q]@);
                                    assert(dv[k as int] == d@);
                                    // distinct directory names
                                    lemma_dirs_distinct(pre);
                                }
                            }
                        }
                    }
                } else {
                    assert(!dv.contains(d@)) by {
                        if dv.contains(d@) {
                            let q = choose|q: int| 0 <= q < dv.len() && dv[q] == d@;
                            assert(dirs@[q]@ == dv[q]);
                        }
                    }
                    let mut g: Vec<FlatEntry> = Vec::new();
                    g.push(fe);
                    dirs.push(d);
                    subs.push(g);
                    assert(dirs@.map_values(|x: String| x@) =~= dv.push(head_dir(cur.last().path)));
                    assert forall|q: int| 0 <= q < subs@.len() implies flat_views(
                        (#[trigger] subs@[q])@,
                    ) == sub_of(cur, dirs@[q]@) by {
                        if q == subs@.len() - 1 {
                            lemma_sub_of_absent(pre, dirs@[q]@);
                            assert(flat_views(subs@[q]@) =~= Seq::<FlatView>::empty().push(
                                subs@[q]@[0]@,
                            ));
                        }
                    }
                }
            },
        }
        i = i + 1;
    }
    assert(sv.take(s@.len() as int) =~= sv);
    (files, dirs, subs)
}

/// The directories listed are distinct.
proof fn lemma_dirs_distinct(s: Seq<FlatView>)
    ensures
        dirs_of(s).no_duplicates(),
    decreases s.len(),
{
    if s.len() > 0 {
        lemma_dirs_distinct(s.drop_last());
    }
}

/// A directory that no path has has no paths under it.
proof fn lemma_sub_of_absent(s: Seq<FlatView>, d: Seq<char>)
    requires
        !dirs_of(s).contains(d),
    ensures
        sub_of(s, d) == Seq::<FlatView>::empty(),
    decreases s.len(),
{
    if s.len() > 0 {
        let t = s.drop_last();
        if first_slash(s.last().path) >= 0 && !dirs_of(t).contains(head_dir(s.last().path)) {
            assert(dirs_of(s) == dirs_of(t).push(head_dir(s.last().path)));
            assert(dirs_of(s).last() == head_dir(s.last().path));
            assert(head_dir(s.last().path) != d);
            assert forall|q: int| 0 <= q < dirs_of(t).len() implies dirs_of(t)[q] != d by {
                assert(dirs_of(s)[q] == dirs_of(t)[q]);
            }
        } else if first_slash(s.last().path) >= 0 {
            assert(dirs_of(t).contains(head_dir(s.last().path)));
        }
        lemma_sub_of_absent(t, d);
    }
}

fn build_rec(store: &mut ObjectStore, s: &Vec<FlatEntry>, fuel: usize) -> (r: String)
    ensures
        final(store).commit_keys == old(store).commit_keys,
        old(store).recorded() ==> final(store).recorded(),
        r@ == build(flat_views(s@), fuel as nat).0,
        final(store)@ == (StoreView {
            trees: apply_writes(old(store)@.trees, build(flat_views(s@), fuel as nat).1),
            ..old(store)@
        }),
    decreases fuel,
{
    let (files, dirs, subs) = group_paths(s);
    let ghost sv = flat_views(s@);
    if fuel == 0 {
        let es = sort_by_name(files);
        let t = Tree { entries: es };
        let h = store.write_tree(&t);
        proof {
            lemma_apply_writes_push(old(store)@.trees, Seq::empty(), (h@, t@));
            assert(seq![(h@, t@)] =~= Seq::<TreeWrite>::empty().push((h@, t@)));
        }
        return h;
    }
    let ghost dv = dirs@.map_values(|d: String| d@);
    let mut entries: Vec<TreeEntry> = Vec::new();
    let ghost mut writes: Seq<TreeWrite> = Seq::empty();
    let mut k: usize = 0;
    while k < dirs.len()
        invariant
            k <= dirs@.len(),
            fuel > 0,
            sv == flat_views(s@),
            dv == dirs@.map_values(|d: String| d@),
            dv == dirs_of(sv),
            subs@.len() == dirs@.len(),
            forall|q: int|
                0 <= q < subs@.len() ==> flat_views((#[trigger] subs@[q])@) == sub_of(sv, dirs@[q]@),
            (entry_views(entries@), writes) == build_dirs(sv, dv, k as int, (fuel - 1) as nat),
            store@ == (StoreView { trees: apply_writes(old(store)@.trees, writes), ..old(store)@ }),
            store.commit_keys == old(store).commit_keys,
            old(store).recorded() ==> store.recorded(),
        decreases dirs.len() - k,
    {
        let ghost before = store@.trees;
        let h = build_rec(store, &subs[k], fuel - 1);
        assert(dv[k as int] == dirs@[k as int]@);
        let ghost sub_ws = build(sub_of(sv, dv[k as int]), (fuel - 1) as nat).1;
        proof {
            lemma_apply_writes_concat(old(store)@.trees, writes, sub_ws);
        }
        let ghost ev = entry_views(entries@);
        entries.push(TreeEntry { name: dirs[k].clone(), kind: EntryKind::Tree, hash: h });
        assert(entry_views(entries@) =~= ev.push(entries@.last()@));
        proof {
            writes = writes + sub_ws;
        }
        k = k + 1;
    }
    let mut all = files;
    let ghost fv = entry_views(all@);
    let mut q: usize = 0;
    while q < entries.len()
        invariant
            q <= entries@.len(),
            entry_views(all@) == fv + entry_views(entries@).take(q as int),
        decreases entries.len() - q,
    {
        let ghost prev = entry_views(all@);
        all.push(entries[q].duplicate());
        assert(entry_views(all@) =~= prev.push(entries@[q as int]@));
        assert(entry_views(entries@).take(q + 1) =~= entry_views(entries@).take(q as int).push(
            entries@[q as int]@,
        ));
        q = q + 1;
        assert(entry_views(all@) =~= fv + entry_views(entries@).take(q as int));
    }
    assert(entry_views(entries@).take(entries@.len() as int) =~= entry_views(entries@));
    let es = sort_by_name(all);
    let t = Tree { entries: es };
    let h = store.write_tree(&t);
    proof {
        lemma_apply_writes_push(old(store)@.trees, writes, (h@, t@));
    }
    h
}

/// Builds and stores the nested trees for the flat paths `s`, returning the root tree's hash.
pub fn build_tree_from_flat(store: &mut ObjectStore, s: &Vec<FlatEntry>) -> (r: String)
    ensures
        final(store).commit_keys == old(store).commit_keys,
        old(store).recorded() ==> final(store).recorded(),
        r@ == built_hash(flat_views(s@)),
        final(store)@ == (StoreView {
            trees: apply_writes(old(store)@.trees, built_writes(flat_views(s@))),
            ..old(store)@
        }),
{
    build_rec(store, s, usize::MAX)
}

/// The tree built from a file list sorted by path depends on the files alone: two sorted lists
/// of the same files give the same tree hash and the same tree writes, whatever order the
/// files were gathered in.
pub proof fn lemma_build_depends_on_files(s1: Seq<FlatView>, s2: Seq<FlatView>)
    requires
        crate::flat::sorted_paths(s1),
        crate::flat::sorted_paths(s2),
        crate::flat::seq_to_map(s1) == crate::flat::seq_to_map(s2),
    ensures
        built_hash(s1) == built_hash(s2),
        built_writes(s1) == built_writes(s2),
{
    crate::flat::lemma_sorted_unique(s1, s2);
}

/// No entry of `es` has a name that sorts before the name of an entry ahead of it.
pub open spec fn names_sorted(es: Seq<EntryView>) -> bool {
    forall|i: int, j: int| 0 <= i < j < es.len() ==> !text_lt(#[trigger] es[j].name, #[trigger] es[i].name)
}

/// Inserting into a sorted list keeps it sorted, and adds just the new entry.
proof fn lemma_ins_keeps_sorted(out: Seq<EntryView>, e: EntryView)
    requires
        names_sorted(out),
    ensures
        names_sorted(ins_sorted(out, e)),
        ins_sorted(out, e).len() == out.len() + 1,
        forall|k: int| 0 <= k < ins_sorted(out, e).len() ==> #[trigger] ins_sorted(out, e)[k] == e || out.contains(ins_sorted(out, e)[k]),
    decreases out.len(),
{
    let r = ins_sorted(out, e);
    if out.len() == 0 {
        assert(r =~= seq![e]);
    } else if text_lt(e.name, out[0].name) {
        assert(r =~= seq![e] + out);
        assert forall|i: int, j: int| 0 <= i < j < r.len() implies !text_lt(#[trigger] r[j].name, #[trigger] r[i].name) by {
            if i == 0 {
                assert(r[j] == out[j - 1]);
                if text_lt(out[j - 1].name, e.name) {
                    crate::order::lemma_lt_transitive(out[j - 1].name, e.name, out[0].name);
                    if j - 1 == 0 {
                        crate::order::lemma_lt_irreflexive(out[0].name);
                    } else {
                        assert(!text_lt(out[j - 1].name, out[0].name));
                    }
                }
            } else {
                assert(r[i] == out[i - 1] && r[j] == out[j - 1]);
            }
        }
        assert forall|k: int| 0 <= k < r.len() implies #[trigger] r[k] == e || out.contains(r[k]) by {
            if k > 0 {
                assert(r[k] == out[k - 1]);
            }
        }
    } else {
        let rest = out.drop_first();
        assert(names_sorted(rest)) by {
            assert forall|i: int, j: int| 0 <= i < j < rest.len() implies !text_lt(#[trigger] rest[j].name, #[trigger] rest[i].name) by {
                assert(rest[i] == out[i + 1] && rest[j] == out[j + 1]);
            }
        }
        lemma_ins_keeps_sorted(rest, e);
        let t = ins_sorted(rest, e);
        assert(r =~= seq![out[0]] + t);
        assert forall|i: int, j: int| 0 <= i < j < r.len() implies !text_lt(#[trigger] r[j].name, #[trigger] r[i].name) by {
            if i == 0 {
                assert(r[j] == t[j - 1]);
                if t[j - 1] != e {
                    assert(rest.contains(t[j - 1]));
                    let q = choose|q: int| 0 <= q < rest.len() && rest[q] == t[j - 1];
                    assert(out[q + 1] == rest[q]);
                }
            } else {
                assert(r[i] == t[i - 1] && r[j] == t[j - 1]);
            }
        }
        assert forall|k: int| 0 <= k < r.len() implies #[trigger] r[k] == e || out.contains(r[k]) by {
            if k == 0 {
                assert(out.contains(out[0]));
            } else {
                assert(r[k] == t[k - 1]);
                if t[k - 1] != e {
                    let q = choose|q: int| 0 <= q < rest.len() && rest[q] == t[k - 1];
                    assert(out[q + 1] == rest[q]);
                }
            }
        }
    }
}

/// Sorting entries gives them in name order.
proof fn lemma_sort_sorted(es: Seq<EntryView>)
    ensures
        names_sorted(sort_entries(es)),
    decreases es.len(),
{
    if es.len() > 0 {
        lemma_sort_sorted(es.drop_last());
        lemma_ins_keeps_sorted(sort_entries(es.drop_last()), es.last());
    }
}

/// Every tree the build writes lists its entries in name order.
proof fn lemma_build_sorted(s: Seq<FlatView>, fuel: nat)
    ensures
        forall|k: int| 0 <= k < build(s, fuel).1.len() ==> names_sorted(#[trigger] build(s, fuel).1[k].1),
    decreases fuel, 0nat,
{
    if fuel == 0 {
        lemma_sort_sorted(files_of(s));
    } else {
        let ds = dirs_of(s);
        lemma_build_dirs_sorted(s, ds, ds.len() as int, (fuel - 1) as nat);
        let (dir_es, ws) = build_dirs(s, ds, ds.len() as int, (fuel - 1) as nat);
        lemma_sort_sorted(files_of(s) + dir_es);
        let es = sort_entries(files_of(s) + dir_es);
        assert forall|k: int| 0 <= k < build(s, fuel).1.len() implies names_sorted(#[trigger] build(s, fuel).1[k].1) by {
            assert(build(s, fuel).1 == ws.push((tree_hash(es), es)));
            if k < ws.len() {
                assert(build(s, fuel).1[k] == ws[k]);
            }
        }
    }
}

/// Every tree written for the directories lists its entries in name order.
proof fn lemma_build_dirs_sorted(s: Seq<FlatView>, ds: Seq<Seq<char>>, k: int, fuel: nat)
    ensures
        forall|q: int| 0 <= q < build_dirs(s, ds, k, fuel).1.len() ==> names_sorted(#[trigger] build_dirs(s, ds, k, fuel).1[q].1),
    decreases fuel, k + 1,
{
    if k > 0 && k <= ds.len() {
        lemma_build_dirs_sorted(s, ds, k - 1, fuel);
        lemma_build_sorted(sub_of(s, ds[k - 1]), fuel);
        let (es, ws) = build_dirs(s, ds, k - 1, fuel);
        let (h, sub_ws) = build(sub_of(s, ds[k - 1]), fuel);
        assert forall|q: int| 0 <= q < build_dirs(s, ds, k, fuel).1.len() implies names_sorted(#[trigger] build_dirs(s, ds, k, fuel).1[q].1) by {
            assert(build_dirs(s, ds, k, fuel).1 == ws + sub_ws);
            if q < ws.len() {
                assert((ws + sub_ws)[q] == ws[q]);
            } else {
                assert((ws + sub_ws)[q] == sub_ws[q - ws.len()]);
            }
        }
    }
}

/// Every tree that building from a file list writes lists its entries in name order.
pub proof fn lemma_built_trees_sorted(s: Seq<FlatView>)
    ensures
        forall|k: int| 0 <= k < built_writes(s).len() ==> names_sorted(#[trigger] built_writes(s)[k].1),
{
    lemma_build_sorted(s, usize::MAX as nat);
}

} // verus!
