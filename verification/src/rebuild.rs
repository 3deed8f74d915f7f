//! Flattening a tree built from a list of files gives back those files.
use vstd::prelude::*;
use crate::diff::{flat_entries, flat_tree, join_path, tree_files, walk_depth};
use crate::flat::{FlatMap, FlatView, seq_to_map};
use crate::objects::{EntryKind, EntryView};
use crate::store::{StoreView, insert_new};
use crate::treebuild::{
    TreeWrite, apply_writes, build, build_dirs, built_hash, built_writes, dirs_of, files_of, first_slash,
    head_dir, ins_sorted, slash_from, sort_entries, sub_of, tail_path,
};

verus! {

/// Each tree written is the one that `trees` holds under its hash.
pub open spec fn writes_held(trees: Map<Seq<char>, Seq<EntryView>>, ws: Seq<TreeWrite>) -> bool {
    forall|i: int|
        0 <= i < ws.len() ==> trees.contains_key(#[trigger] ws[i].0) && trees[ws[i].0] == ws[i].1
}

/// Where the first `'/'` at or after `i` stands, if any.
pub proof fn lemma_slash_from(p: Seq<char>, i: int)
    requires
        0 <= i,
    ensures
        slash_from(p, i) == -1 || (i <= slash_from(p, i) < p.len() && p[slash_from(p, i)] == '/'),
        forall|k: int|
            i <= k < p.len() && (slash_from(p, i) == -1 || k < slash_from(p, i)) ==> p[k] != '/',
    decreases p.len() - i,
{
    if i < p.len() && p[i] != '/' {
        lemma_slash_from(p, i + 1);
    }
}

/// A path of non-empty names separated by single `'/'`s.
pub open spec fn path_ok(p: Seq<char>) -> bool
    decreases p.len(),
{
    if p.len() == 0 || first_slash(p) == 0 {
        false
    } else if first_slash(p) < 0 {
        true
    } else {
        proof {
            lemma_slash_from(p, 0);
        }
        path_ok(tail_path(p))
    }
}

/// Files to build a tree from: well-formed paths of at most `n` characters, each path once,
/// none of them a tree.
pub open spec fn files_ok(s: Seq<FlatView>, n: nat) -> bool {
    &&& forall|i: int|
        0 <= i < s.len() ==> path_ok(#[trigger] s[i].path) && s[i].path.len() <= n && !(s[i].kind is Tree)
    &&& forall|i: int, j: int| 0 <= i < j < s.len() ==> #[trigger] s[i].path != #[trigger] s[j].path
}

/// The files placed under the directory `prefix`.
pub open spec fn placed(s: Seq<FlatView>, prefix: Seq<char>) -> Seq<FlatView> {
    s.map_values(|v: FlatView| FlatView { path: join_path(prefix, v.path), ..v })
}

/// A list with each path once describes each of its entries.
proof fn lemma_map_of_distinct(s: Seq<FlatView>)
    requires
        forall|i: int, j: int| 0 <= i < j < s.len() ==> #[trigger] s[i].path != #[trigger] s[j].path,
    ensures
        forall|p: Seq<char>|
            #[trigger] seq_to_map(s).contains_key(p) <==> exists|i: int| 0 <= i < s.len() && s[i].path == p,
        forall|i: int| 0 <= i < s.len() ==> #[trigger] seq_to_map(s)[s[i].path] == (s[i].kind, s[i].hash),
    decreases s.len(),
{
    if s.len() > 0 {
        let t = s.drop_last();
        assert forall|i: int, j: int| 0 <= i < j < t.len() implies #[trigger] t[i].path != #[trigger] t[j].path by {
            assert(s[i] == t[i] && s[j] == t[j]);
        }
        lemma_map_of_distinct(t);
        let l = s.last();
        assert forall|p: Seq<char>| #[trigger] seq_to_map(s).contains_key(p) <==> exists|i: int|
            0 <= i < s.len() && s[i].path == p by {
            if seq_to_map(s).contains_key(p) {
                if p == l.path {
                    assert(s[s.len() - 1].path == p);
                } else {
                    assert(seq_to_map(t).contains_key(p));
                    let i = choose|i: int| 0 <= i < t.len() && t[i].path == p;
                    assert(s[i].path == p);
                }
            }
            if exists|i: int| 0 <= i < s.len() && s[i].path == p {
                let i = choose|i: int| 0 <= i < s.len() && s[i].path == p;
                if i < s.len() - 1 {
                    assert(t[i].path == p);
                    assert(seq_to_map(t).contains_key(p));
                }
            }
        }
        assert forall|i: int| 0 <= i < s.len() implies #[trigger] seq_to_map(s)[s[i].path] == (
            s[i].kind,
            s[i].hash,
        ) by {
            if i < s.len() - 1 {
                assert(t[i] == s[i]);
                assert(s[i].path != s[s.len() - 1].path);
                assert(seq_to_map(t)[t[i].path] == (t[i].kind, t[i].hash));
            }
        }
    }
}

/// Joining with the same directory keeps different names apart.
proof fn lemma_join_injective(prefix: Seq<char>, a: Seq<char>, b: Seq<char>)
    requires
        join_path(prefix, a) == join_path(prefix, b),
    ensures
        a == b,
{
    if prefix.len() > 0 {
        assert(join_path(prefix, a).skip(prefix.len() + 1int) =~= a);
        assert(join_path(prefix, b).skip(prefix.len() + 1int) =~= b);
    }
}

/// A path is its first directory, a `'/'` and the rest.
proof fn lemma_split_path(p: Seq<char>)
    requires
        first_slash(p) >= 0,
    ensures
        0 <= first_slash(p) < p.len(),
        head_dir(p) + seq!['/'] + tail_path(p) == p,
        tail_path(p).len() == p.len() - first_slash(p) - 1,
{
    lemma_slash_from(p, 0);
    assert(head_dir(p) + seq!['/'] + tail_path(p) =~= p);
}

/// Placing a path's rest under its first directory, itself under `prefix`, places the path
/// under `prefix`.
proof fn lemma_join_split(prefix: Seq<char>, p: Seq<char>)
    requires
        first_slash(p) > 0,
    ensures
        join_path(join_path(prefix, head_dir(p)), tail_path(p)) == join_path(prefix, p),
{
    lemma_split_path(p);
    if prefix.len() == 0 {
        assert(join_path(prefix, head_dir(p)) == head_dir(p));
    } else {
        assert(join_path(join_path(prefix, head_dir(p)), tail_path(p)) =~= prefix + seq!['/'] + (
        head_dir(p) + seq!['/'] + tail_path(p)));
    }
}


/// The entry that a path without a directory becomes.
pub open spec fn file_entry(v: FlatView) -> EntryView {
    EntryView { name: v.path, kind: v.kind, hash: v.hash }
}

/// The path relative to its first directory.
pub open spec fn rest_view(v: FlatView) -> FlatView {
    FlatView { path: tail_path(v.path), kind: v.kind, hash: v.hash }
}

/// The file entries are those of the paths without a directory.
proof fn lemma_files_of(s: Seq<FlatView>)
    ensures
        forall|e: EntryView|
            #[trigger] files_of(s).contains(e) <==> exists|i: int|
                0 <= i < s.len() && first_slash(s[i].path) < 0 && e == file_entry(s[i]),
    decreases s.len(),
{
    if s.len() > 0 {
        let t = s.drop_last();
        lemma_files_of(t);
        assert forall|e: EntryView| #[trigger] files_of(s).contains(e) <==> exists|i: int|
            0 <= i < s.len() && first_slash(s[i].path) < 0 && e == file_entry(s[i]) by {
            if files_of(s).contains(e) {
                if first_slash(s.last().path) < 0 && e == file_entry(s.last()) {
                    assert(first_slash(s[s.len() - 1].path) < 0 && e == file_entry(s[s.len() - 1]));
                } else {
                    let k = choose|k: int| 0 <= k < files_of(s).len() && files_of(s)[k] == e;
                    if first_slash(s.last().path) < 0 {
                        assert(files_of(s) == files_of(t).push(file_entry(s.last())));
                        assert(k < files_of(t).len());
                        assert(files_of(t)[k] == e);
                    } else {
                        assert(files_of(t)[k] == e);
                    }
                    assert(files_of(t).contains(e));
                    let i = choose|i: int| 0 <= i < t.len() && first_slash(t[i].path) < 0 && e == file_entry(t[i]);
                    assert(s[i] == t[i]);
                }
            }
            if exists|i: int| 0 <= i < s.len() && first_slash(s[i].path) < 0 && e == file_entry(s[i]) {
                let i = choose|i: int| 0 <= i < s.len() && first_slash(s[i].path) < 0 && e == file_entry(s[i]);
                if i == s.len() - 1 {
                    assert(files_of(s) == files_of(t).push(e));
                    assert(files_of(s)[files_of(t).len() as int] == e);
                } else {
                    assert(s[i] == t[i]);
                    assert(files_of(t).contains(e));
                    let k = choose|k: int| 0 <= k < files_of(t).len() && files_of(t)[k] == e;
                    if first_slash(s.last().path) < 0 {
                        assert(files_of(s)[k] == e);
                    } else {
                        assert(files_of(s)[k] == e);
                    }
                }
            }
        }
    }
}

/// The directories listed are the first directories of the paths that have one.
proof fn lemma_dirs_of(s: Seq<FlatView>)
    ensures
        forall|d: Seq<char>|
            #[trigger] dirs_of(s).contains(d) <==> exists|i: int|
                0 <= i < s.len() && first_slash(s[i].path) >= 0 && head_dir(s[i].path) == d,
    decreases s.len(),
{
    if s.len() > 0 {
        let t = s.drop_last();
        lemma_dirs_of(t);
        let l = s.last();
        assert forall|d: Seq<char>| #[trigger] dirs_of(s).contains(d) <==> exists|i: int|
            0 <= i < s.len() && first_slash(s[i].path) >= 0 && head_dir(s[i].path) == d by {
            let added = first_slash(l.path) >= 0 && !dirs_of(t).contains(head_dir(l.path));
            if dirs_of(s).contains(d) {
                let k = choose|k: int| 0 <= k < dirs_of(s).len() && dirs_of(s)[k] == d;
                if added && k == dirs_of(t).len() {
                    assert(first_slash(s[s.len() - 1].path) >= 0 && head_dir(s[s.len() - 1].path) == d);
                } else {
                    assert(dirs_of(t)[k] == d);
                    assert(dirs_of(t).contains(d));
                    let i = choose|i: int| 0 <= i < t.len() && first_slash(t[i].path) >= 0 && head_dir(t[i].path) == d;
                    assert(s[i] == t[i]);
                }
            }
            if exists|i: int| 0 <= i < s.len() && first_slash(s[i].path) >= 0 && head_dir(s[i].path) == d {
                let i = choose|i: int| 0 <= i < s.len() && first_slash(s[i].path) >= 0 && head_dir(s[i].path) == d;
                if i < s.len() - 1 {
                    assert(s[i] == t[i]);
                    assert(dirs_of(t).contains(d));
                    let k = choose|k: int| 0 <= k < dirs_of(t).len() && dirs_of(t)[k] == d;
                    assert(dirs_of(s)[k] == d);
                } else if added {
                    assert(dirs_of(s)[dirs_of(t).len() as int] == d);
                } else {
                    let k = choose|k: int| 0 <= k < dirs_of(t).len() && dirs_of(t)[k] == d;
                    assert(dirs_of(s)[k] == d);
                }
            }
        }
    }
}

/// The paths under a directory are the rests of the paths that start with it, and they
/// keep distinct paths distinct.
proof fn lemma_sub_of(s: Seq<FlatView>, d: Seq<char>)
    ensures
        forall|k: int|
            0 <= k < sub_of(s, d).len() ==> exists|i: int|
                0 <= i < s.len() && first_slash(s[i].path) >= 0 && head_dir(s[i].path) == d && #[trigger] sub_of(s, d)[k]
                    == rest_view(s[i]),
        forall|i: int|
            0 <= i < s.len() && first_slash(s[i].path) >= 0 && head_dir(s[i].path) == d ==> sub_of(s, d).contains(
                rest_view(#[trigger] s[i]),
            ),
        (forall|i: int, j: int| 0 <= i < j < s.len() ==> #[trigger] s[i].path != #[trigger] s[j].path) ==> (
        forall|i: int, j: int|
            0 <= i < j < sub_of(s, d).len() ==> #[trigger] sub_of(s, d)[i].path != #[trigger] sub_of(s, d)[j].path),
    decreases s.len(),
{
    if s.len() > 0 {
        let t = s.drop_last();
        lemma_sub_of(t, d);
        let l = s.last();
        let added = first_slash(l.path) >= 0 && head_dir(l.path) == d;
        if added {
            assert(sub_of(s, d) == sub_of(t, d).push(rest_view(l)));
        } else {
            assert(sub_of(s, d) == sub_of(t, d));
        }
        assert forall|k: int| 0 <= k < sub_of(s, d).len() implies exists|i: int|
            0 <= i < s.len() && first_slash(s[i].path) >= 0 && head_dir(s[i].path) == d && #[trigger] sub_of(s, d)[k]
                == rest_view(s[i]) by {
            if added && k == sub_of(t, d).len() {
                assert(s[s.len() - 1] == l);
            } else {
                assert(sub_of(s, d)[k] == sub_of(t, d)[k]);
                let i = choose|i: int|
                    0 <= i < t.len() && first_slash(t[i].path) >= 0 && head_dir(t[i].path) == d && sub_of(t, d)[k]
                        == rest_view(t[i]);
                assert(s[i] == t[i]);
            }
        }
        assert forall|i: int|
            0 <= i < s.len() && first_slash(s[i].path) >= 0 && head_dir(s[i].path) == d implies sub_of(s, d).contains(
                rest_view(#[trigger] s[i]),
            ) by {
            if i == s.len() - 1 {
                assert(sub_of(s, d)[sub_of(t, d).len() as int] == rest_view(s[i]));
            } else {
                assert(s[i] == t[i]);
                assert(sub_of(t, d).contains(rest_view(t[i])));
                let k = choose|k: int| 0 <= k < sub_of(t, d).len() && sub_of(t, d)[k] == rest_view(t[i]);
                assert(sub_of(s, d)[k] == rest_view(s[i]));
            }
        }
        if forall|i: int, j: int| 0 <= i < j < s.len() ==> #[trigger] s[i].path != #[trigger] s[j].path {
            assert forall|i: int, j: int| 0 <= i < j < t.len() implies #[trigger] t[i].path != #[trigger] t[j].path by {
                assert(s[i] == t[i] && s[j] == t[j]);
            }
            let u = sub_of(s, d);
            assert forall|i: int, j: int| 0 <= i < j < u.len() implies #[trigger] u[i].path != #[trigger] u[j].path by {
                if added && j == u.len() - 1 {
                    assert(u[i] == sub_of(t, d)[i]);
                    let a = choose|a: int|
                        0 <= a < t.len() && first_slash(t[a].path) >= 0 && head_dir(t[a].path) == d && sub_of(t, d)[i]
                            == rest_view(t[a]);
                    assert(s[a] == t[a]);
                    if u[i].path == u[j].path {
                        lemma_split_path(t[a].path);
                        lemma_split_path(l.path);
                        assert(t[a].path == l.path);
                        assert(s[a].path != s[s.len() - 1].path);
                    }
                } else {
                    assert(u[i] == sub_of(t, d)[i] && u[j] == sub_of(t, d)[j]);
                }
            }
        }
    }
}

/// What a sorted insertion holds.
proof fn lemma_ins_sorted_contains(out: Seq<EntryView>, e: EntryView)
    ensures
        forall|x: EntryView| #[trigger] ins_sorted(out, e).contains(x) <==> (out.contains(x) || x == e),
    decreases out.len(),
{
    let big = ins_sorted(out, e);
    if out.len() > 0 && !crate::order::text_lt(e.name, out[0].name) {
        let t = out.drop_first();
        let r = ins_sorted(t, e);
        lemma_ins_sorted_contains(t, e);
        assert(big =~= seq![out[0]] + r);
        assert(big.len() == r.len() + 1);
        assert forall|k: int| 0 <= k < r.len() implies big[k + 1] == #[trigger] r[k] by {}
        assert forall|k: int| 0 <= k < t.len() implies out[k + 1] == #[trigger] t[k] by {}
        assert forall|x: EntryView| #[trigger] big.contains(x) <==> (out.contains(x) || x == e) by {
            if big.contains(x) {
                let k = choose|k: int| 0 <= k < big.len() && big[k] == x;
                if k > 0 {
                    assert(r[k - 1] == x);
                    assert(r.contains(x));
                    if t.contains(x) {
                        let q = choose|q: int| 0 <= q < t.len() && t[q] == x;
                        assert(out[q + 1] == x);
                    }
                } else {
                    assert(out[0] == x);
                }
            }
            if out.contains(x) {
                let k = choose|k: int| 0 <= k < out.len() && out[k] == x;
                if k > 0 {
                    assert(t[k - 1] == x);
                    assert(t.contains(x));
                    assert(r.contains(x));
                    let q = choose|q: int| 0 <= q < r.len() && r[q] == x;
                    assert(big[q + 1] == x);
                } else {
                    assert(big[0] == x);
                }
            }
            if x == e {
                assert(r.contains(e));
                let q = choose|q: int| 0 <= q < r.len() && r[q] == e;
                assert(big[q + 1] == e);
            }
        }
    } else if out.len() > 0 {
        assert(big =~= seq![e] + out);
        assert forall|k: int| 0 <= k < out.len() implies big[k + 1] == #[trigger] out[k] by {}
        assert forall|x: EntryView| #[trigger] big.contains(x) <==> (out.contains(x) || x == e) by {
            if big.contains(x) {
                let k = choose|k: int| 0 <= k < big.len() && big[k] == x;
                if k > 0 {
                    assert(out[k - 1] == x);
                }
            }
            if out.contains(x) {
                let k = choose|k: int| 0 <= k < out.len() && out[k] == x;
                assert(big[k + 1] == x);
            }
            if x == e {
                assert(big[0] == e);
            }
        }
    } else {
        assert(big =~= seq![e]);
        assert forall|x: EntryView| #[trigger] big.contains(x) <==> (out.contains(x) || x == e) by {
            if x == e {
                assert(big[0] == e);
            }
        }
    }
}

/// Sorting keeps the entries.
proof fn lemma_sort_contains(es: Seq<EntryView>)
    ensures
        forall|x: EntryView| #[trigger] sort_entries(es).contains(x) <==> es.contains(x),
    decreases es.len(),
{
    if es.len() > 0 {
        let t = es.drop_last();
        lemma_sort_contains(t);
        lemma_ins_sorted_contains(sort_entries(t), es.last());
        assert forall|x: EntryView| #[trigger] sort_entries(es).contains(x) <==> es.contains(x) by {
            if t.contains(x) {
                let k = choose|k: int| 0 <= k < t.len() && t[k] == x;
                assert(es[k] == x);
            }
            if es.contains(x) {
                let k = choose|k: int| 0 <= k < es.len() && es[k] == x;
                if k < es.len() - 1 {
                    assert(t[k] == x);
                }
            }
        }
    }
}

/// Every part of a concatenation of held writes is held.
proof fn lemma_held_concat(trees: Map<Seq<char>, Seq<EntryView>>, a: Seq<TreeWrite>, b: Seq<TreeWrite>)
    requires
        writes_held(trees, a + b),
    ensures
        writes_held(trees, a),
        writes_held(trees, b),
{
    assert forall|i: int| 0 <= i < a.len() implies trees.contains_key(#[trigger] a[i].0) && trees[a[i].0] == a[i].1 by {
        assert((a + b)[i] == a[i]);
    }
    assert forall|i: int| 0 <= i < b.len() implies trees.contains_key(#[trigger] b[i].0) && trees[b[i].0] == b[i].1 by {
        assert((a + b)[a.len() + i] == b[i]);
    }
}

/// The directory entries built for the first `k` directories, and their writes.
proof fn lemma_build_dirs(
    trees: Map<Seq<char>, Seq<EntryView>>,
    s: Seq<FlatView>,
    ds: Seq<Seq<char>>,
    k: int,
    fuel: nat,
)
    requires
        0 <= k <= ds.len(),
    ensures
        build_dirs(s, ds, k, fuel).0.len() == k,
        forall|j: int|
            0 <= j < k ==> #[trigger] build_dirs(s, ds, k, fuel).0[j] == (EntryView {
                name: ds[j],
                kind: EntryKind::Tree,
                hash: build(sub_of(s, ds[j]), fuel).0,
            }),
        writes_held(trees, build_dirs(s, ds, k, fuel).1) ==> forall|j: int|
            0 <= j < k ==> writes_held(trees, #[trigger] build(sub_of(s, ds[j]), fuel).1),
    decreases k,
{
    if k > 0 {
        lemma_build_dirs(trees, s, ds, k - 1, fuel);
        let prev = build_dirs(s, ds, k - 1, fuel);
        let sub = build(sub_of(s, ds[k - 1]), fuel);
        assert(build_dirs(s, ds, k, fuel).1 == prev.1 + sub.1);
        if writes_held(trees, build_dirs(s, ds, k, fuel).1) {
            lemma_held_concat(trees, prev.1, sub.1);
        }
    }
}


/// The files that the entries `es` stand for, each entry's files `c(e)`, later ones first.
pub open spec fn union_of(es: Seq<EntryView>, c: spec_fn(EntryView) -> FlatMap) -> FlatMap
    decreases es.len(),
{
    if es.len() == 0 {
        Map::empty()
    } else {
        union_of(es.drop_last(), c).union_prefer_right(c(es.last()))
    }
}

/// Flattening the entry `e` of the directory `prefix` adds the files `c(e)`.
pub open spec fn adds(
    trees: Map<Seq<char>, Seq<EntryView>>,
    e: EntryView,
    prefix: Seq<char>,
    fuel: nat,
    c: spec_fn(EntryView) -> FlatMap,
) -> bool {
    if e.kind is Tree {
        forall|a: FlatMap|
            #[trigger] flat_tree(trees, e.hash, join_path(prefix, e.name), fuel, a) == Some(
                a.union_prefer_right(c(e)),
            )
    } else {
        c(e) == Map::<Seq<char>, (EntryKind, Seq<char>)>::empty().insert(
            join_path(prefix, e.name),
            (e.kind, e.hash),
        )
    }
}

/// Flattening a list of entries adds the files that each of them adds.
proof fn lemma_flat_entries_union(
    trees: Map<Seq<char>, Seq<EntryView>>,
    es: Seq<EntryView>,
    prefix: Seq<char>,
    fuel: nat,
    acc: FlatMap,
    c: spec_fn(EntryView) -> FlatMap,
)
    requires
        forall|k: int| 0 <= k < es.len() ==> adds(trees, #[trigger] es[k], prefix, fuel, c),
    ensures
        flat_entries(trees, es, prefix, fuel, acc) == Some(acc.union_prefer_right(union_of(es, c))),
    decreases es.len(),
{
    if es.len() == 0 {
        assert(acc.union_prefer_right(Map::empty()) =~= acc);
    } else {
        let t = es.drop_last();
        assert forall|k: int| 0 <= k < t.len() implies adds(trees, #[trigger] t[k], prefix, fuel, c) by {
            assert(t[k] == es[k]);
        }
        lemma_flat_entries_union(trees, t, prefix, fuel, acc, c);
        let m = acc.union_prefer_right(union_of(t, c));
        let e = es.last();
        assert(adds(trees, es[es.len() - 1], prefix, fuel, c));
        if e.kind is Tree {
            assert(flat_tree(trees, e.hash, join_path(prefix, e.name), fuel, m) == Some(
                m.union_prefer_right(c(e)),
            ));
        } else {
            assert(m.insert(join_path(prefix, e.name), (e.kind, e.hash)) =~= m.union_prefer_right(c(e)));
        }
        assert(m.union_prefer_right(c(e)) =~= acc.union_prefer_right(union_of(es, c)));
    }
}

/// When no two different entries add the same path, the union holds each entry's files.
proof fn lemma_union_of(es: Seq<EntryView>, c: spec_fn(EntryView) -> FlatMap)
    requires
        forall|i: int, j: int, q: Seq<char>|
            0 <= i < es.len() && 0 <= j < es.len() && #[trigger] c(es[i]).contains_key(q) && #[trigger] c(
                es[j],
            ).contains_key(q) ==> es[i] == es[j],
    ensures
        forall|q: Seq<char>|
            #[trigger] union_of(es, c).contains_key(q) <==> exists|i: int|
                0 <= i < es.len() && c(es[i]).contains_key(q),
        forall|i: int, q: Seq<char>|
            0 <= i < es.len() && #[trigger] c(es[i]).contains_key(q) ==> union_of(es, c)[q] == c(es[i])[q],
    decreases es.len(),
{
    if es.len() > 0 {
        let t = es.drop_last();
        assert forall|i: int, j: int, q: Seq<char>|
            0 <= i < t.len() && 0 <= j < t.len() && #[trigger] c(t[i]).contains_key(q) && #[trigger] c(
                t[j],
            ).contains_key(q) implies t[i] == t[j] by {
            assert(t[i] == es[i] && t[j] == es[j]);
        }
        lemma_union_of(t, c);
        let l = es.last();
        assert forall|q: Seq<char>| #[trigger] union_of(es, c).contains_key(q) <==> exists|i: int|
            0 <= i < es.len() && c(es[i]).contains_key(q) by {
            if union_of(es, c).contains_key(q) {
                if c(l).contains_key(q) {
                    assert(c(es[es.len() - 1]).contains_key(q));
                } else {
                    assert(union_of(t, c).contains_key(q));
                    let i = choose|i: int| 0 <= i < t.len() && c(t[i]).contains_key(q);
                    assert(es[i] == t[i]);
                }
            }
            if exists|i: int| 0 <= i < es.len() && c(es[i]).contains_key(q) {
                let i = choose|i: int| 0 <= i < es.len() && c(es[i]).contains_key(q);
                if i < es.len() - 1 {
                    assert(t[i] == es[i]);
                    assert(c(t[i]).contains_key(q));
                    assert(union_of(t, c).contains_key(q));
                }
            }
        }
        assert forall|i: int, q: Seq<char>|
            0 <= i < es.len() && #[trigger] c(es[i]).contains_key(q) implies union_of(es, c)[q] == c(
                es[i],
            )[q] by {
            if c(l).contains_key(q) {
                assert(c(es[es.len() - 1]).contains_key(q));
                assert(es[i] == es[es.len() - 1]);
            } else {
                assert(i < es.len() - 1);
                assert(t[i] == es[i]);
                assert(c(t[i]).contains_key(q));
            }
        }
    }
}

/// The paths under a directory of well-formed files are well-formed files, two characters
/// shorter at least.
proof fn lemma_sub_ok(s: Seq<FlatView>, d: Seq<char>, n: nat)
    requires
        files_ok(s, n),
        n >= 2,
    ensures
        files_ok(sub_of(s, d), (n - 2) as nat),
{
    lemma_sub_of(s, d);
    let u = sub_of(s, d);
    assert forall|k: int| 0 <= k < u.len() implies path_ok(#[trigger] u[k].path) && u[k].path.len() <= (n
        - 2) as nat && !(u[k].kind is Tree) by {
        let i = choose|i: int|
            0 <= i < s.len() && first_slash(s[i].path) >= 0 && head_dir(s[i].path) == d && u[k] == rest_view(s[i]);
        assert(path_ok(s[i].path));
        lemma_split_path(s[i].path);
    }
}

/// The files placed under `prefix`: each path placed, and distinct paths kept distinct.
proof fn lemma_placed(s: Seq<FlatView>, prefix: Seq<char>)
    requires
        forall|i: int, j: int| 0 <= i < j < s.len() ==> #[trigger] s[i].path != #[trigger] s[j].path,
    ensures
        placed(s, prefix).len() == s.len(),
        forall|i: int|
            0 <= i < s.len() ==> #[trigger] placed(s, prefix)[i] == (FlatView {
                path: join_path(prefix, s[i].path),
                ..s[i]
            }),
        forall|i: int, j: int|
            0 <= i < j < s.len() ==> #[trigger] placed(s, prefix)[i].path != #[trigger] placed(s, prefix)[j].path,
{
    assert forall|i: int, j: int| 0 <= i < j < s.len() implies #[trigger] placed(s, prefix)[i].path
        != #[trigger] placed(s, prefix)[j].path by {
        if placed(s, prefix)[i].path == placed(s, prefix)[j].path {
            lemma_join_injective(prefix, s[i].path, s[j].path);
        }
    }
}


/// The files that flattening an entry of the tree built from `s`, in the directory `prefix`,
/// adds: the file itself, or the files under the directory.
pub open spec fn built_part(s: Seq<FlatView>, prefix: Seq<char>) -> spec_fn(EntryView) -> FlatMap {
    |e: EntryView|
        if e.kind is Tree {
            seq_to_map(placed(sub_of(s, e.name), join_path(prefix, e.name)))
        } else {
            Map::<Seq<char>, (EntryKind, Seq<char>)>::empty().insert(
                join_path(prefix, e.name),
                (e.kind, e.hash),
            )
        }
}

/// The entries of the tree built from `s`, before they are sorted.
pub open spec fn built_entries(s: Seq<FlatView>, fuel: nat) -> Seq<EntryView> {
    if fuel == 0 {
        files_of(s)
    } else {
        files_of(s) + build_dirs(s, dirs_of(s), dirs_of(s).len() as int, (fuel - 1) as nat).0
    }
}

/// The entry of the directory `d` in the tree built from `s`.
pub open spec fn dir_entry(s: Seq<FlatView>, d: Seq<char>, fuel: nat) -> EntryView {
    EntryView { name: d, kind: EntryKind::Tree, hash: build(sub_of(s, d), (fuel - 1) as nat).0 }
}

/// The entry of `s`'s tree that the file `s[i]` is found under.
pub open spec fn owner(s: Seq<FlatView>, e: EntryView, i: int) -> bool {
    ||| first_slash(s[i].path) < 0 && e == file_entry(s[i])
    ||| first_slash(s[i].path) >= 0 && e.kind is Tree && e.name == head_dir(s[i].path)
}

/// The entries of the tree built from `s`: its file entries, and with fuel left an entry for
/// each directory.
proof fn lemma_built_members(s: Seq<FlatView>, fuel: nat)
    ensures
        forall|e: EntryView|
            #[trigger] built_entries(s, fuel).contains(e) ==> files_of(s).contains(e) || (fuel > 0
                && dirs_of(s).contains(e.name) && e == dir_entry(s, e.name, fuel)),
        forall|e: EntryView| #[trigger] files_of(s).contains(e) ==> built_entries(s, fuel).contains(e),
        forall|d: Seq<char>|
            fuel > 0 && #[trigger] dirs_of(s).contains(d) ==> built_entries(s, fuel).contains(
                dir_entry(s, d, fuel),
            ),
{
    let x = built_entries(s, fuel);
    let ds = dirs_of(s);
    let fs = files_of(s);
    if fuel > 0 {
        lemma_build_dirs(Map::empty(), s, ds, ds.len() as int, (fuel - 1) as nat);
    }
    let dir_es = build_dirs(s, ds, ds.len() as int, (fuel - 1) as nat).0;
    assert forall|e: EntryView| #[trigger] x.contains(e) implies fs.contains(e) || (fuel > 0
        && ds.contains(e.name) && e == dir_entry(s, e.name, fuel)) by {
        let m = choose|m: int| 0 <= m < x.len() && x[m] == e;
        if m < fs.len() {
            assert(fs[m] == e);
        } else {
            assert(fuel > 0);
            assert(dir_es[m - fs.len()] == e);
            assert(ds[m - fs.len()] == e.name);
        }
    }
    assert forall|e: EntryView| #[trigger] fs.contains(e) implies x.contains(e) by {
        let m = choose|m: int| 0 <= m < fs.len() && fs[m] == e;
        assert(x[m] == e);
    }
    assert forall|d: Seq<char>| fuel > 0 && #[trigger] ds.contains(d) implies x.contains(dir_entry(s, d, fuel)) by {
        let j = choose|j: int| 0 <= j < ds.len() && ds[j] == d;
        assert(x[fs.len() + j] == dir_entry(s, d, fuel));
    }
}

/// The files a directory entry adds are those of the paths under it, placed.
proof fn lemma_dir_part(s: Seq<FlatView>, n: nat, d: Seq<char>, prefix: Seq<char>, q: Seq<char>)
    requires
        files_ok(s, n),
        seq_to_map(placed(sub_of(s, d), join_path(prefix, d))).contains_key(q),
    ensures
        exists|i: int|
            0 <= i < s.len() && first_slash(s[i].path) > 0 && head_dir(s[i].path) == d && q == join_path(
                prefix,
                s[i].path,
            ) && seq_to_map(placed(sub_of(s, d), join_path(prefix, d)))[q] == (s[i].kind, s[i].hash),
{
    let jp = join_path(prefix, d);
    let u = sub_of(s, d);
    lemma_sub_of(s, d);
    lemma_placed(u, jp);
    lemma_map_of_distinct(placed(u, jp));
    let m = choose|m: int| 0 <= m < placed(u, jp).len() && placed(u, jp)[m].path == q;
    let i = choose|i: int|
        0 <= i < s.len() && first_slash(s[i].path) >= 0 && head_dir(s[i].path) == d && #[trigger] u[m]
            == rest_view(s[i]);
    assert(path_ok(s[i].path));
    lemma_join_split(prefix, s[i].path);
    assert(seq_to_map(placed(u, jp))[placed(u, jp)[m].path] == (placed(u, jp)[m].kind, placed(u, jp)[m].hash));
}

/// A path under a directory is among the files its entry adds.
proof fn lemma_dir_part_has(s: Seq<FlatView>, n: nat, i: int, prefix: Seq<char>)
    requires
        files_ok(s, n),
        0 <= i < s.len(),
        first_slash(s[i].path) >= 0,
    ensures
        seq_to_map(placed(sub_of(s, head_dir(s[i].path)), join_path(prefix, head_dir(s[i].path)))).contains_key(
            join_path(prefix, s[i].path),
        ),
{
    let d = head_dir(s[i].path);
    let jp = join_path(prefix, d);
    let u = sub_of(s, d);
    lemma_sub_of(s, d);
    lemma_placed(u, jp);
    lemma_map_of_distinct(placed(u, jp));
    assert(u.contains(rest_view(s[i])));
    let m = choose|m: int| 0 <= m < u.len() && u[m] == rest_view(s[i]);
    assert(path_ok(s[i].path));
    lemma_join_split(prefix, s[i].path);
    assert(placed(u, jp)[m].path == join_path(prefix, s[i].path));
}

/// Each file adds only paths of `s`, each with that file's kind and hash.
proof fn lemma_parts_keys(s: Seq<FlatView>, n: nat, fuel: nat, prefix: Seq<char>, e: EntryView, q: Seq<char>)
    requires
        files_ok(s, n),
        built_entries(s, fuel).contains(e),
        built_part(s, prefix)(e).contains_key(q),
    ensures
        exists|i: int|
            0 <= i < s.len() && owner(s, e, i) && q == join_path(prefix, s[i].path)
                && built_part(s, prefix)(e)[q] == (s[i].kind, s[i].hash),
{
    lemma_built_members(s, fuel);
    lemma_files_of(s);
    if files_of(s).contains(e) {
        let i = choose|i: int| 0 <= i < s.len() && first_slash(s[i].path) < 0 && e == file_entry(s[i]);
        assert(!(s[i].kind is Tree));
        assert(owner(s, e, i));
    } else {
        let d = e.name;
        lemma_dir_part(s, n, d, prefix, q);
        let i = choose|i: int|
            0 <= i < s.len() && first_slash(s[i].path) > 0 && head_dir(s[i].path) == d && q == join_path(
                prefix,
                s[i].path,
            ) && seq_to_map(placed(sub_of(s, d), join_path(prefix, d)))[q] == (s[i].kind, s[i].hash);
        assert(owner(s, e, i));
    }
}

/// Each file of `s` is added by an entry that it belongs to.
proof fn lemma_parts_cover(s: Seq<FlatView>, n: nat, fuel: nat, prefix: Seq<char>, i: int)
    requires
        files_ok(s, n),
        n <= fuel + 1,
        0 <= i < s.len(),
    ensures
        exists|e: EntryView|
            built_entries(s, fuel).contains(e) && owner(s, e, i) && #[trigger] built_part(s, prefix)(
                e,
            ).contains_key(join_path(prefix, s[i].path)),
{
    lemma_built_members(s, fuel);
    lemma_files_of(s);
    lemma_dirs_of(s);
    assert(path_ok(s[i].path));
    if first_slash(s[i].path) < 0 {
        let e = file_entry(s[i]);
        assert(files_of(s).contains(e));
        assert(!(e.kind is Tree));
        assert(built_part(s, prefix)(e).contains_key(join_path(prefix, s[i].path)));
        assert(owner(s, e, i));
    } else {
        lemma_split_path(s[i].path);
        assert(fuel > 0);
        let d = head_dir(s[i].path);
        assert(dirs_of(s).contains(d));
        let e = dir_entry(s, d, fuel);
        lemma_dir_part_has(s, n, i, prefix);
        assert(owner(s, e, i));
        assert(built_part(s, prefix)(e).contains_key(join_path(prefix, s[i].path)));
    }
}

/// A file belongs to one entry only.
proof fn lemma_owner_unique(s: Seq<FlatView>, n: nat, fuel: nat, e1: EntryView, e2: EntryView, i: int)
    requires
        files_ok(s, n),
        0 <= i < s.len(),
        built_entries(s, fuel).contains(e1),
        built_entries(s, fuel).contains(e2),
        owner(s, e1, i),
        owner(s, e2, i),
    ensures
        e1 == e2,
{
    lemma_built_members(s, fuel);
    lemma_files_of(s);
    if first_slash(s[i].path) >= 0 {
        if files_of(s).contains(e1) {
            let a = choose|a: int| 0 <= a < s.len() && first_slash(s[a].path) < 0 && e1 == file_entry(s[a]);
            assert(!(s[a].kind is Tree));
        }
        if files_of(s).contains(e2) {
            let a = choose|a: int| 0 <= a < s.len() && first_slash(s[a].path) < 0 && e2 == file_entry(s[a]);
            assert(!(s[a].kind is Tree));
        }
    }
}

/// The root tree built from `s` is held, and so are the trees built for its directories.
proof fn lemma_root_held(trees: Map<Seq<char>, Seq<EntryView>>, s: Seq<FlatView>, bf: nat)
    requires
        writes_held(trees, build(s, bf).1),
    ensures
        build(s, bf).0 == crate::objects::tree_hash(sort_entries(built_entries(s, bf))),
        trees.contains_key(build(s, bf).0),
        trees[build(s, bf).0] == sort_entries(built_entries(s, bf)),
        bf > 0 ==> forall|d: Seq<char>|
            #[trigger] dirs_of(s).contains(d) ==> writes_held(trees, build(sub_of(s, d), (bf - 1) as nat).1),
{
    let es = sort_entries(built_entries(s, bf));
    let ds = dirs_of(s);
    let ws = build(s, bf).1;
    let h = crate::objects::tree_hash(es);
    if bf > 0 {
        let dws = build_dirs(s, ds, ds.len() as int, (bf - 1) as nat).1;
        assert(ws == dws.push((h, es)));
        assert(dws.push((h, es)) =~= dws + seq![(h, es)]);
        lemma_held_concat(trees, dws, seq![(h, es)]);
        lemma_build_dirs(trees, s, ds, ds.len() as int, (bf - 1) as nat);
        assert forall|d: Seq<char>| #[trigger] ds.contains(d) implies writes_held(
            trees,
            build(sub_of(s, d), (bf - 1) as nat).1,
        ) by {
            let j = choose|j: int| 0 <= j < ds.len() && ds[j] == d;
            assert(writes_held(trees, build(sub_of(s, ds[j]), (bf - 1) as nat).1));
        }
    }
    assert(ws.len() > 0 && ws[ws.len() - 1] == (h, es));
    assert(ws[ws.len() - 1].0 == h);
}

/// The files that the entries of the tree built from `s` add are the files of `s`, placed
/// under `prefix`.
proof fn lemma_union_is_placed(s: Seq<FlatView>, n: nat, bf: nat, prefix: Seq<char>)
    requires
        files_ok(s, n),
        n <= bf + 1,
    ensures
        union_of(sort_entries(built_entries(s, bf)), built_part(s, prefix)) == seq_to_map(placed(s, prefix)),
{
    let x = built_entries(s, bf);
    let es = sort_entries(x);
    let c = built_part(s, prefix);
    lemma_sort_contains(x);
    assert forall|i: int, j: int, q: Seq<char>|
        0 <= i < es.len() && 0 <= j < es.len() && #[trigger] c(es[i]).contains_key(q) && #[trigger] c(
            es[j],
        ).contains_key(q) implies es[i] == es[j] by {
        assert(es.contains(es[i]) && es.contains(es[j]));
        lemma_parts_keys(s, n, bf, prefix, es[i], q);
        lemma_parts_keys(s, n, bf, prefix, es[j], q);
        let a = choose|a: int|
            0 <= a < s.len() && owner(s, es[i], a) && q == join_path(prefix, s[a].path) && c(es[i])[q] == (
                s[a].kind,
                s[a].hash,
            );
        let b = choose|b: int|
            0 <= b < s.len() && owner(s, es[j], b) && q == join_path(prefix, s[b].path) && c(es[j])[q] == (
                s[b].kind,
                s[b].hash,
            );
        lemma_join_injective(prefix, s[a].path, s[b].path);
        if a != b {
            if a < b {
                assert(s[a].path != s[b].path);
            } else {
                assert(s[b].path != s[a].path);
            }
        }
        lemma_owner_unique(s, n, bf, es[i], es[j], a);
    }
    lemma_union_of(es, c);
    let target = seq_to_map(placed(s, prefix));
    lemma_placed(s, prefix);
    lemma_map_of_distinct(placed(s, prefix));
    let u = union_of(es, c);
    assert forall|q: Seq<char>| #[trigger] u.contains_key(q) == target.contains_key(q) by {
        if u.contains_key(q) {
            let k = choose|k: int| 0 <= k < es.len() && c(es[k]).contains_key(q);
            assert(es.contains(es[k]));
            lemma_parts_keys(s, n, bf, prefix, es[k], q);
            let a = choose|a: int|
                0 <= a < s.len() && owner(s, es[k], a) && q == join_path(prefix, s[a].path) && c(es[k])[q] == (
                    s[a].kind,
                    s[a].hash,
                );
            assert(placed(s, prefix)[a].path == q);
        }
        if target.contains_key(q) {
            let a = choose|a: int| 0 <= a < placed(s, prefix).len() && placed(s, prefix)[a].path == q;
            lemma_parts_cover(s, n, bf, prefix, a);
            let e = choose|e: EntryView|
                x.contains(e) && owner(s, e, a) && #[trigger] c(e).contains_key(join_path(prefix, s[a].path));
            assert(es.contains(e));
            let k = choose|k: int| 0 <= k < es.len() && es[k] == e;
            assert(c(es[k]).contains_key(q));
        }
    }
    assert forall|q: Seq<char>| u.contains_key(q) implies #[trigger] u[q] == target[q] by {
        let k = choose|k: int| 0 <= k < es.len() && c(es[k]).contains_key(q);
        assert(es.contains(es[k]));
        lemma_parts_keys(s, n, bf, prefix, es[k], q);
        let a = choose|a: int|
            0 <= a < s.len() && owner(s, es[k], a) && q == join_path(prefix, s[a].path) && c(es[k])[q] == (
                s[a].kind,
                s[a].hash,
            );
        assert(placed(s, prefix)[a].path == q);
        assert(target[placed(s, prefix)[a].path] == (placed(s, prefix)[a].kind, placed(s, prefix)[a].hash));
    }
    assert(u =~= target);
}

/// The entry of a directory of `s` adds, when flattened, the files under that directory.
proof fn lemma_dir_adds(
    trees: Map<Seq<char>, Seq<EntryView>>,
    s: Seq<FlatView>,
    n: nat,
    bf: nat,
    ff: nat,
    prefix: Seq<char>,
    d: Seq<char>,
)
    requires
        files_ok(s, n),
        n <= ff,
        n <= bf + 1,
        ff > 0,
        bf > 0,
        dirs_of(s).contains(d),
        writes_held(trees, build(sub_of(s, d), (bf - 1) as nat).1),
    ensures
        adds(trees, dir_entry(s, d, bf), prefix, (ff - 1) as nat, built_part(s, prefix)),
    decreases bf, 0nat,
{
    let f = (ff - 1) as nat;
    lemma_dirs_of(s);
    let i = choose|i: int| 0 <= i < s.len() && first_slash(s[i].path) >= 0 && head_dir(s[i].path) == d;
    assert(path_ok(s[i].path));
    lemma_split_path(s[i].path);
    assert(path_ok(tail_path(s[i].path)));
    assert(tail_path(s[i].path).len() > 0);
    assert(n >= 3);
    lemma_sub_ok(s, d, n);
    let jp = join_path(prefix, d);
    let h = build(sub_of(s, d), (bf - 1) as nat).0;
    assert forall|a: FlatMap| #[trigger] flat_tree(trees, h, jp, f, a) == Some(
        a.union_prefer_right(seq_to_map(placed(sub_of(s, d), jp))),
    ) by {
        lemma_flatten_build(trees, sub_of(s, d), (n - 2) as nat, (bf - 1) as nat, f, jp, a);
    }
}

/// The tree built from `s`, flattened under `prefix` on top of `acc`, adds exactly the files
/// of `s`, placed under `prefix`.
proof fn lemma_flatten_build(
    trees: Map<Seq<char>, Seq<EntryView>>,
    s: Seq<FlatView>,
    n: nat,
    bf: nat,
    ff: nat,
    prefix: Seq<char>,
    acc: FlatMap,
)
    requires
        files_ok(s, n),
        n <= ff,
        n <= bf + 1,
        ff > 0,
        writes_held(trees, build(s, bf).1),
    ensures
        flat_tree(trees, build(s, bf).0, prefix, ff, acc) == Some(
            acc.union_prefer_right(seq_to_map(placed(s, prefix))),
        ),
    decreases bf, 1nat,
{
    let x = built_entries(s, bf);
    let es = sort_entries(x);
    let c = built_part(s, prefix);
    let f = (ff - 1) as nat;
    lemma_root_held(trees, s, bf);
    lemma_sort_contains(x);
    lemma_built_members(s, bf);
    lemma_files_of(s);
    assert forall|k: int| 0 <= k < es.len() implies adds(trees, #[trigger] es[k], prefix, f, c) by {
        let e = es[k];
        assert(es.contains(e));
        if files_of(s).contains(e) {
            let i = choose|i: int| 0 <= i < s.len() && first_slash(s[i].path) < 0 && e == file_entry(s[i]);
            assert(!(s[i].kind is Tree));
        } else {
            lemma_dir_adds(trees, s, n, bf, ff, prefix, e.name);
        }
    }
    lemma_flat_entries_union(trees, es, prefix, f, acc, c);
    lemma_union_is_placed(s, n, bf, prefix);
}

/// Flattening the tree built from a list of files gives back exactly those files, when their
/// paths are names separated by single `/`s, each path once and none of them a tree, and each
/// tree built is the one the store holds under its hash.
pub proof fn lemma_flatten_of_built(v: StoreView, s: Seq<FlatView>)
    requires
        files_ok(s, usize::MAX as nat),
        writes_held(v.trees, built_writes(s)),
    ensures
        tree_files(v, built_hash(s)) == Some(seq_to_map(s)),
{
    lemma_flatten_build(
        v.trees,
        s,
        usize::MAX as nat,
        usize::MAX as nat,
        walk_depth(),
        Seq::empty(),
        Map::empty(),
    );
    assert(placed(s, Seq::empty()) =~= s);
    assert(Map::<Seq<char>, (EntryKind, Seq<char>)>::empty().union_prefer_right(seq_to_map(s)) =~= seq_to_map(s));
}

/// Writing trees into `m` keeps every one of them, when no tree that `m` holds, or that is
/// written, under one of their hashes differs from it.
pub proof fn lemma_writes_kept(m: Map<Seq<char>, Seq<EntryView>>, ws: Seq<TreeWrite>)
    requires
        forall|i: int| 0 <= i < ws.len() && m.contains_key(#[trigger] ws[i].0) ==> m[ws[i].0] == ws[i].1,
        forall|i: int, j: int|
            0 <= i < ws.len() && 0 <= j < ws.len() && #[trigger] ws[i].0 == #[trigger] ws[j].0 ==> ws[i].1 == ws[j].1,
    ensures
        writes_held(apply_writes(m, ws), ws),
    decreases ws.len(),
{
    if ws.len() > 0 {
        let t = ws.drop_last();
        assert forall|i: int| 0 <= i < t.len() && m.contains_key(#[trigger] t[i].0) implies m[t[i].0] == t[i].1 by {
            assert(t[i] == ws[i]);
        }
        assert forall|i: int, j: int|
            0 <= i < t.len() && 0 <= j < t.len() && #[trigger] t[i].0 == #[trigger] t[j].0 implies t[i].1 == t[j].1 by {
            assert(t[i] == ws[i] && t[j] == ws[j]);
        }
        lemma_writes_kept(m, t);
        let m2 = apply_writes(m, t);
        let l = ws.last();
        assert(apply_writes(m, ws) == insert_new(m2, l.0, l.1));
        assert forall|i: int| 0 <= i < ws.len() implies apply_writes(m, ws).contains_key(#[trigger] ws[i].0)
            && apply_writes(m, ws)[ws[i].0] == ws[i].1 by {
            if i < ws.len() - 1 {
                assert(t[i] == ws[i]);
                assert(m2.contains_key(t[i].0));
            } else if m2.contains_key(l.0) {
                lemma_apply_writes_source(m, t, l.0);
                if !(m.contains_key(l.0) && m2[l.0] == m[l.0]) {
                    let j = choose|j: int| 0 <= j < t.len() && t[j].0 == l.0 && m2[l.0] == t[j].1;
                    assert(ws[j] == t[j]);
                    assert(ws[j].0 == ws[ws.len() - 1].0);
                } else {
                    assert(ws[ws.len() - 1].0 == l.0);
                }
            }
        }
    }
}

/// What a tree written into `m` holds comes from `m` or from one of the writes.
proof fn lemma_apply_writes_source(m: Map<Seq<char>, Seq<EntryView>>, ws: Seq<TreeWrite>, h: Seq<char>)
    requires
        apply_writes(m, ws).contains_key(h),
    ensures
        (m.contains_key(h) && apply_writes(m, ws)[h] == m[h]) || exists|j: int|
            0 <= j < ws.len() && ws[j].0 == h && apply_writes(m, ws)[h] == ws[j].1,
    decreases ws.len(),
{
    if ws.len() > 0 {
        let t = ws.drop_last();
        let m2 = apply_writes(m, t);
        let l = ws.last();
        if m2.contains_key(h) {
            lemma_apply_writes_source(m, t, h);
            if !(m.contains_key(h) && m2[h] == m[h]) {
                let j = choose|j: int| 0 <= j < t.len() && t[j].0 == h && m2[h] == t[j].1;
                assert(ws[j] == t[j]);
            }
        } else {
            assert(ws[ws.len() - 1] == l);
        }
    }
}

} // verus!
