//! Restoring the tree of a snapshot of the working directory gives the working directory back.
use vstd::prelude::*;
use crate::checkout::{
    cleaned, entry_fits, hidden, item_of, kept, layout_entries, layout_tree, restorable, restored,
    tree_layout, under,
};
use crate::diff::{join_path, walk_depth};
use crate::flat::{FlatMap, FlatView, lemma_seq_to_map, seq_to_map, sorted_paths};
use crate::hashing::spec_blake3_hex;
use crate::ignore::spec_ignored;
use crate::objects::{EntryKind, EntryView, tree_hash};
use crate::repo::{restore_outcome, work_patterns, work_snapshot};
use crate::store::StoreView;
use crate::workdir::{WorkDir, WorkItem};
use crate::worktree::{SnapWrite, child_of, children, content_of, name_of, rel_of, snap_dir, snap_entries};

verus! {

/// The write `x` is what `v` holds under its hash.
pub open spec fn held_in(v: StoreView, x: SnapWrite) -> bool {
    match x {
        SnapWrite::Blob(c) => v.blobs.contains_key(spec_blake3_hex(c)) && v.blobs[spec_blake3_hex(c)] == c,
        SnapWrite::Tree(es) => v.trees.contains_key(tree_hash(es)) && v.trees[tree_hash(es)] == es,
    }
}

/// Each object that a snapshot wrote is the one that `v` holds under its hash.
pub open spec fn snap_held(v: StoreView, ws: Seq<SnapWrite>) -> bool {
    forall|i: int| 0 <= i < ws.len() ==> held_in(v, #[trigger] ws[i])
}

/// `p` lies inside the directory `d`, or anywhere when `d` is the root.
pub open spec fn inside(p: Seq<char>, d: Seq<char>) -> bool {
    if d.len() == 0 {
        p.len() > 0
    } else {
        under(p, d)
    }
}

/// A working directory as a walk of a file system finds it: each path made of non-empty names
/// separated by single `/`s, shorter than `usize::MAX`, with each directory above it present.
pub open spec fn walkable(m: Map<Seq<char>, WorkItem>) -> bool {
    forall|p: Seq<char>|
        #[trigger] m.contains_key(p) ==> {
            &&& 0 < p.len() < usize::MAX
            &&& p[0] != '/'
            &&& p.last() != '/'
            &&& forall|k: int|
                0 < k < p.len() && p[k] == '/' ==> p[k - 1] != '/' && m.contains_key(#[trigger] p.take(k))
                    && m[p.take(k)] is Dir
        }
}

/// The sorted paths `s` list the working directory `m`, directories as trees.
pub open spec fn listing(s: Seq<FlatView>, m: Map<Seq<char>, WorkItem>) -> bool {
    &&& sorted_paths(s)
    &&& forall|i: int|
        0 <= i < s.len() ==> m.contains_key(#[trigger] s[i].path) && (m[s[i].path] is Dir <==> s[i].kind is Tree)
    &&& forall|p: Seq<char>| #[trigger] m.contains_key(p) ==> exists|i: int| 0 <= i < s.len() && s[i].path == p
}

/// `p` is a path of `m` inside `d` that a walk of the working directory reaches.
pub open spec fn shown(m: Map<Seq<char>, WorkItem>, pats: Seq<Seq<char>>, d: Seq<char>, p: Seq<char>) -> bool {
    m.contains_key(p) && inside(p, d) && !hidden(p, pats)
}

/// `p` is reached through one of the entries `cs`: it is one of them that is not ignored, or
/// lies inside one such directory and is reached.
pub open spec fn shown_via(
    m: Map<Seq<char>, WorkItem>,
    pats: Seq<Seq<char>>,
    cs: Seq<FlatView>,
    p: Seq<char>,
) -> bool {
    exists|j: int|
        0 <= j < cs.len() && !spec_ignored(rel_of(cs[j].path), pats) && (p == #[trigger] cs[j].path || (
        cs[j].kind is Tree && shown(m, pats, cs[j].path, p)))
}

/// The layout entries `y` say what `m` holds: directories as trees, files as blobs that `v`
/// holds with their content.
pub open spec fn values_ok(y: FlatMap, m: Map<Seq<char>, WorkItem>, v: StoreView) -> bool {
    forall|p: Seq<char>|
        #[trigger] y.contains_key(p) ==> m.contains_key(p) && (y[p].0 is Tree <==> m[p] is Dir) && (m[p] is File
            ==> y[p].0 is Blob && v.blobs.contains_key(y[p].1) && v.blobs[y[p].1] == content_of(m, p))
}

/// A child of a directory lies inside it.
proof fn lemma_child_inside(d: Seq<char>, c: Seq<char>)
    requires
        child_of(d, c),
    ensures
        inside(c, d),
        c.len() >= d.len() + 1,
        join_path(d, name_of(d, c)) == c,
{
    if d.len() > 0 {
        assert(join_path(d, name_of(d, c)) =~= c);
    }
}

/// What lies inside a child of `d` lies inside `d`, and is deeper by the child's length.
proof fn lemma_inside_child(d: Seq<char>, c: Seq<char>, p: Seq<char>)
    requires
        child_of(d, c),
        under(p, c),
    ensures
        inside(p, d),
        c.len() >= d.len() + 1,
{
    if d.len() > 0 {
        assert(p.take(d.len() as int) =~= p.take(c.len() as int).take(d.len() as int));
        assert(p[d.len() as int] == p.take(c.len() as int)[d.len() as int]);
    }
}

/// A child that is not ignored, of a directory that a walk reaches, is reached.
proof fn lemma_child_shown(d: Seq<char>, c: Seq<char>, pats: Seq<Seq<char>>)
    requires
        child_of(d, c),
        d.len() == 0 || !hidden(d, pats),
        !spec_ignored(rel_of(c), pats),
    ensures
        !hidden(c, pats),
{
    if hidden(c, pats) {
        let k = choose|k: int|
            0 < k <= c.len() && (k == c.len() || c[k] == '/') && #[trigger] spec_ignored(rel_of(c.take(k)), pats);
        if k == c.len() {
            assert(c.take(k) =~= c);
        } else if d.len() == 0 {
            assert(c.contains(c[k]));
        } else if k > d.len() {
            assert(c.skip(d.len() + 1int)[k - d.len() - 1] == c[k]);
            assert(c.skip(d.len() + 1int).contains('/'));
        } else {
            assert(c.take(k) =~= d.take(k));
            if k < d.len() {
                assert(d[k] == c[k]);
            }
            assert(hidden(d, pats));
        }
    }
}

/// The children of `d` are the entries of `s` directly inside it.
proof fn lemma_children(s: Seq<FlatView>, d: Seq<char>)
    ensures
        forall|x: FlatView| #[trigger] children(s, d).contains(x) <==> s.contains(x) && child_of(d, x.path),
    decreases s.len(),
{
    if s.len() > 0 {
        let t = s.drop_last();
        lemma_children(t, d);
        let l = s.last();
        assert forall|x: FlatView| #[trigger] children(s, d).contains(x) <==> s.contains(x) && child_of(d, x.path) by {
            if children(s, d).contains(x) {
                let k = choose|k: int| 0 <= k < children(s, d).len() && children(s, d)[k] == x;
                if child_of(d, l.path) && k == children(t, d).len() {
                    assert(s[s.len() - 1] == x);
                } else {
                    assert(children(t, d)[k] == x);
                    assert(children(t, d).contains(x));
                    let q = choose|q: int| 0 <= q < t.len() && t[q] == x;
                    assert(s[q] == x);
                }
            }
            if s.contains(x) && child_of(d, x.path) {
                let q = choose|q: int| 0 <= q < s.len() && s[q] == x;
                if q == s.len() - 1 {
                    assert(children(s, d)[children(t, d).len() as int] == x);
                } else {
                    assert(t[q] == x);
                    assert(children(t, d).contains(x));
                    let k = choose|k: int| 0 <= k < children(t, d).len() && children(t, d)[k] == x;
                    assert(children(s, d)[k] == x);
                }
            }
        }
    }
}


/// Where the child of `d` on the way to `p` ends: the first `/` of `p` after `d`, or its end.
pub open spec fn toward_end(d: Seq<char>, p: Seq<char>) -> int {
    let start: int = if d.len() == 0 { 0int } else { d.len() + 1int };
    if crate::treebuild::slash_from(p, start) < 0 {
        p.len() as int
    } else {
        crate::treebuild::slash_from(p, start)
    }
}

/// The path that a walk reaches through the entries of `d` is a reached path inside `d`, and
/// the other way round.
proof fn lemma_shown_via_children(
    s: Seq<FlatView>,
    m: Map<Seq<char>, WorkItem>,
    pats: Seq<Seq<char>>,
    d: Seq<char>,
    p: Seq<char>,
)
    requires
        walkable(m),
        listing(s, m),
        d.len() == 0 || !hidden(d, pats),
    ensures
        shown_via(m, pats, children(s, d), p) <==> shown(m, pats, d, p),
{
    let cs = children(s, d);
    lemma_children(s, d);
    if shown_via(m, pats, cs, p) {
        let j = choose|j: int|
            0 <= j < cs.len() && !spec_ignored(rel_of(cs[j].path), pats) && (p == #[trigger] cs[j].path || (
            cs[j].kind is Tree && shown(m, pats, cs[j].path, p)));
        let c = cs[j];
        assert(cs.contains(c));
        assert(s.contains(c) && child_of(d, c.path));
        let i = choose|i: int| 0 <= i < s.len() && s[i] == c;
        assert(m.contains_key(s[i].path));
        lemma_child_inside(d, c.path);
        lemma_child_shown(d, c.path, pats);
        if p != c.path {
            lemma_inside_child(d, c.path, p);
        }
    }
    if shown(m, pats, d, p) {
        let start: int = if d.len() == 0 { 0int } else { d.len() + 1int };
        assert(p[0] != '/' && p.last() != '/');
        if d.len() > 0 {
            assert(p[d.len() as int] == '/');
            assert(d.len() + 1 < p.len());
            assert(p[d.len() + 1int] != '/') by {
                if p[d.len() + 1int] == '/' {
                    assert(m.contains_key(p.take(d.len() + 1int)));
                }
            }
        }
        crate::rebuild::lemma_slash_from(p, start);
        let k = toward_end(d, p);
        assert(start < k <= p.len());
        let cp = p.take(k);
        // the child on the way is in the working directory
        if k < p.len() {
            assert(p[k] == '/');
            assert(m.contains_key(p.take(k)) && m[p.take(k)] is Dir);
        } else {
            assert(cp =~= p);
        }
        assert(m.contains_key(cp));
        // it is a child of `d`
        assert(child_of(d, cp)) by {
            if d.len() == 0 {
                if cp.contains('/') {
                    let q = choose|q: int| 0 <= q < cp.len() && cp[q] == '/';
                    assert(p[q] == '/');
                }
            } else {
                assert(cp.take(d.len() as int) =~= p.take(d.len() as int));
                let tail = cp.skip(d.len() + 1int);
                if tail.contains('/') {
                    let q = choose|q: int| 0 <= q < tail.len() && tail[q] == '/';
                    assert(p[d.len() + 1int + q] == '/');
                }
            }
        }
        // it is not ignored, as the walk reaches `p`
        assert(!spec_ignored(rel_of(cp), pats)) by {
            if spec_ignored(rel_of(cp), pats) {
                assert(0 < k <= p.len() && (k == p.len() || p[k] == '/') && spec_ignored(rel_of(p.take(k)), pats));
                assert(hidden(p, pats));
            }
        }
        let i = choose|i: int| 0 <= i < s.len() && s[i].path == cp;
        let c = s[i];
        assert(s.contains(c));
        assert(cs.contains(c));
        let j = choose|j: int| 0 <= j < cs.len() && cs[j] == c;
        if k < p.len() {
            assert(m[cp] is Dir);
            assert(c.kind is Tree);
            assert(under(p, cp)) by {
                assert(p.take(cp.len() as int) =~= cp);
            }
            assert(shown(m, pats, cp, p));
        }
        assert(!spec_ignored(rel_of(cs[j].path), pats) && (p == cs[j].path || (cs[j].kind is Tree && shown(
            m,
            pats,
            cs[j].path,
            p,
        ))));
    }
}


/// Every part of a concatenation of held writes is held.
proof fn lemma_held_parts(v: StoreView, a: Seq<SnapWrite>, b: Seq<SnapWrite>)
    requires
        snap_held(v, a + b),
    ensures
        snap_held(v, a),
        snap_held(v, b),
{
    assert forall|i: int| 0 <= i < a.len() implies held_in(v, #[trigger] a[i]) by {
        assert((a + b)[i] == a[i]);
    }
    assert forall|i: int| 0 <= i < b.len() implies held_in(v, #[trigger] b[i]) by {
        assert((a + b)[a.len() + i] == b[i]);
    }
}

/// The layout of the tree a snapshot recorded for the directory `d`: what a walk reaches
/// inside `d`, as `m` holds it.
proof fn lemma_dir_layout(
    s: Seq<FlatView>,
    m: Map<Seq<char>, WorkItem>,
    pats: Seq<Seq<char>>,
    v: StoreView,
    d: Seq<char>,
    f: nat,
    g: nat,
    acc: FlatMap,
)
    requires
        walkable(m),
        listing(s, m),
        d.len() == 0 || (m.contains_key(d) && m[d] is Dir && !hidden(d, pats)),
        snap_held(v, snap_dir(s, m, pats, d, f).1),
        f > 0,
        g > 0,
        forall|p: Seq<char>|
            #[trigger] m.contains_key(p) && inside(p, d) ==> p.len() - d.len() < f && p.len() - d.len() < g,
    ensures
        exists|y: FlatMap|
            layout_tree(v.trees, snap_dir(s, m, pats, d, f).0, d, g, acc) == Some(acc.union_prefer_right(y))
                && values_ok(y, m, v) && forall|p: Seq<char>| #[trigger] y.contains_key(p) <==> shown(m, pats, d, p),
    decreases f, 0nat,
{
    let cs = children(s, d);
    let r = snap_entries(s, m, pats, d, cs, (f - 1) as nat);
    let ws = r.1.push(SnapWrite::Tree(r.0));
    assert(snap_dir(s, m, pats, d, f) == (tree_hash(r.0), ws));
    assert(ws =~= r.1 + seq![SnapWrite::Tree(r.0)]);
    lemma_held_parts(v, r.1, seq![SnapWrite::Tree(r.0)]);
    assert(seq![SnapWrite::Tree(r.0)][0] == SnapWrite::Tree(r.0));
    assert(v.trees.contains_key(tree_hash(r.0)) && v.trees[tree_hash(r.0)] == r.0);
    lemma_children(s, d);
    assert forall|j: int| 0 <= j < cs.len() implies s.contains(#[trigger] cs[j]) && child_of(d, cs[j].path) by {
        assert(cs.contains(cs[j]));
    }
    lemma_entries_layout(s, m, pats, v, d, cs, (f - 1) as nat, (g - 1) as nat, acc);
    let y = choose|y: FlatMap|
        layout_entries(v.trees, r.0, d, (g - 1) as nat, acc) == Some(acc.union_prefer_right(y)) && values_ok(y, m, v)
            && forall|p: Seq<char>| #[trigger] y.contains_key(p) <==> shown_via(m, pats, cs, p);
    assert forall|p: Seq<char>| #[trigger] y.contains_key(p) <==> shown(m, pats, d, p) by {
        lemma_shown_via_children(s, m, pats, d, p);
    }
}

/// The layout of the entries that a snapshot recorded for the children `cs` of `d`: what a
/// walk reaches through them, as `m` holds it.
proof fn lemma_entries_layout(
    s: Seq<FlatView>,
    m: Map<Seq<char>, WorkItem>,
    pats: Seq<Seq<char>>,
    v: StoreView,
    d: Seq<char>,
    cs: Seq<FlatView>,
    f: nat,
    g: nat,
    acc: FlatMap,
)
    requires
        walkable(m),
        listing(s, m),
        d.len() == 0 || (m.contains_key(d) && m[d] is Dir && !hidden(d, pats)),
        forall|j: int| 0 <= j < cs.len() ==> s.contains(#[trigger] cs[j]) && child_of(d, cs[j].path),
        snap_held(v, snap_entries(s, m, pats, d, cs, f).1),
        forall|p: Seq<char>|
            #[trigger] m.contains_key(p) && inside(p, d) ==> p.len() - d.len() <= f && p.len() - d.len() <= g,
    ensures
        exists|y: FlatMap|
            layout_entries(v.trees, snap_entries(s, m, pats, d, cs, f).0, d, g, acc) == Some(
                acc.union_prefer_right(y),
            ) && values_ok(y, m, v) && forall|p: Seq<char>|
                #[trigger] y.contains_key(p) <==> shown_via(m, pats, cs, p),
    decreases f, cs.len() + 1,
{
    let t = v.trees;
    if cs.len() == 0 {
        let y = Map::<Seq<char>, (EntryKind, Seq<char>)>::empty();
        assert(acc.union_prefer_right(y) =~= acc);
        assert(layout_entries(t, snap_entries(s, m, pats, d, cs, f).0, d, g, acc) == Some(acc.union_prefer_right(y)));
        assert(forall|p: Seq<char>| #[trigger] y.contains_key(p) <==> shown_via(m, pats, cs, p));
        assert(values_ok(y, m, v));
        assert(layout_entries(t, snap_entries(s, m, pats, d, cs, f).0, d, g, acc) == Some(acc.union_prefer_right(y))
            && values_ok(y, m, v) && forall|p: Seq<char>| #[trigger] y.contains_key(p) <==> shown_via(m, pats, cs, p));
    } else {
        let cs0 = cs.drop_last();
        let c = cs.last();
        let r = snap_entries(s, m, pats, d, cs0, f);
        assert forall|j: int| 0 <= j < cs0.len() implies s.contains(#[trigger] cs0[j]) && child_of(d, cs0[j].path) by {
            assert(cs0[j] == cs[j]);
        }
        assert(s.contains(cs[cs.len() - 1]) && child_of(d, cs[cs.len() - 1].path));
        let i = choose|i: int| 0 <= i < s.len() && s[i] == c;
        assert(m.contains_key(s[i].path));
        lemma_child_inside(d, c.path);
        if spec_ignored(rel_of(c.path), pats) {
            lemma_entries_layout(s, m, pats, v, d, cs0, f, g, acc);
            let y = choose|y: FlatMap|
                layout_entries(t, r.0, d, g, acc) == Some(acc.union_prefer_right(y)) && values_ok(y, m, v)
                    && forall|p: Seq<char>| #[trigger] y.contains_key(p) <==> shown_via(m, pats, cs0, p);
            assert forall|p: Seq<char>| #[trigger] y.contains_key(p) <==> shown_via(m, pats, cs, p) by {
                if shown_via(m, pats, cs0, p) {
                    let j = choose|j: int|
                        0 <= j < cs0.len() && !spec_ignored(rel_of(cs0[j].path), pats) && (p == #[trigger] cs0[j].path
                            || (cs0[j].kind is Tree && shown(m, pats, cs0[j].path, p)));
                    assert(cs[j] == cs0[j]);
                }
                if shown_via(m, pats, cs, p) {
                    let j = choose|j: int|
                        0 <= j < cs.len() && !spec_ignored(rel_of(cs[j].path), pats) && (p == #[trigger] cs[j].path
                            || (cs[j].kind is Tree && shown(m, pats, cs[j].path, p)));
                    assert(j < cs0.len());
                    assert(cs[j] == cs0[j]);
                }
            }
            assert(snap_entries(s, m, pats, d, cs, f) == r);
            assert(layout_entries(t, snap_entries(s, m, pats, d, cs, f).0, d, g, acc) == Some(acc.union_prefer_right(y))
                && values_ok(y, m, v) && forall|p: Seq<char>| #[trigger] y.contains_key(p) <==> shown_via(m, pats, cs, p));
        } else if c.kind is Tree {
            let sub = snap_dir(s, m, pats, c.path, f);
            let e = EntryView { name: name_of(d, c.path), kind: EntryKind::Tree, hash: sub.0 };
            assert(snap_entries(s, m, pats, d, cs, f) == (r.0.push(e), r.1 + sub.1));
            lemma_held_parts(v, r.1, sub.1);
            lemma_entries_layout(s, m, pats, v, d, cs0, f, g, acc);
            let y0 = choose|y: FlatMap|
                layout_entries(t, r.0, d, g, acc) == Some(acc.union_prefer_right(y)) && values_ok(y, m, v)
                    && forall|p: Seq<char>| #[trigger] y.contains_key(p) <==> shown_via(m, pats, cs0, p);
            let acc2 = acc.union_prefer_right(y0).insert(c.path, (EntryKind::Tree, sub.0));
            assert(r.0.push(e).drop_last() =~= r.0);
            assert(layout_entries(t, r.0.push(e), d, g, acc) == layout_tree(t, sub.0, c.path, g, acc2));
            assert(m[c.path] is Dir);
            lemma_child_shown(d, c.path, pats);
            assert forall|p: Seq<char>| #[trigger] m.contains_key(p) && inside(p, c.path) implies p.len() - c.path.len()
                < f && p.len() - c.path.len() < g by {
                lemma_inside_child(d, c.path, p);
            }
            lemma_dir_layout(s, m, pats, v, c.path, f, g, acc2);
            let yc = choose|y: FlatMap|
                layout_tree(t, sub.0, c.path, g, acc2) == Some(acc2.union_prefer_right(y)) && values_ok(y, m, v)
                    && forall|p: Seq<char>| #[trigger] y.contains_key(p) <==> shown(m, pats, c.path, p);
            let y = y0.insert(c.path, (EntryKind::Tree, sub.0)).union_prefer_right(yc);
            assert(acc2.union_prefer_right(yc) =~= acc.union_prefer_right(y));
            assert forall|p: Seq<char>| #[trigger] y.contains_key(p) <==> shown_via(m, pats, cs, p) by {
                if shown_via(m, pats, cs0, p) {
                    let j = choose|j: int|
                        0 <= j < cs0.len() && !spec_ignored(rel_of(cs0[j].path), pats) && (p == #[trigger] cs0[j].path
                            || (cs0[j].kind is Tree && shown(m, pats, cs0[j].path, p)));
                    assert(cs[j] == cs0[j]);
                }
                if p == c.path || shown(m, pats, c.path, p) {
                    assert(cs[cs.len() - 1] == c);
                }
                if shown_via(m, pats, cs, p) {
                    let j = choose|j: int|
                        0 <= j < cs.len() && !spec_ignored(rel_of(cs[j].path), pats) && (p == #[trigger] cs[j].path
                            || (cs[j].kind is Tree && shown(m, pats, cs[j].path, p)));
                    if j < cs0.len() {
                        assert(cs[j] == cs0[j]);
                    }
                }
            }
            assert(values_ok(y, m, v));
            assert(layout_entries(t, snap_entries(s, m, pats, d, cs, f).0, d, g, acc) == Some(acc.union_prefer_right(y))
                && values_ok(y, m, v) && forall|p: Seq<char>| #[trigger] y.contains_key(p) <==> shown_via(m, pats, cs, p));
        } else {
            let content = content_of(m, c.path);
            let hb = spec_blake3_hex(content);
            let e = EntryView { name: name_of(d, c.path), kind: EntryKind::Blob, hash: hb };
            assert(snap_entries(s, m, pats, d, cs, f) == (r.0.push(e), r.1.push(SnapWrite::Blob(content))));
            assert(r.1.push(SnapWrite::Blob(content)) =~= r.1 + seq![SnapWrite::Blob(content)]);
            lemma_held_parts(v, r.1, seq![SnapWrite::Blob(content)]);
            assert(seq![SnapWrite::Blob(content)][0] == SnapWrite::Blob(content));
            lemma_entries_layout(s, m, pats, v, d, cs0, f, g, acc);
            let y0 = choose|y: FlatMap|
                layout_entries(t, r.0, d, g, acc) == Some(acc.union_prefer_right(y)) && values_ok(y, m, v)
                    && forall|p: Seq<char>| #[trigger] y.contains_key(p) <==> shown_via(m, pats, cs0, p);
            assert(r.0.push(e).drop_last() =~= r.0);
            let y = y0.insert(c.path, (EntryKind::Blob, hb));
            assert(acc.union_prefer_right(y0).insert(c.path, (EntryKind::Blob, hb)) =~= acc.union_prefer_right(y));
            assert(m[c.path] is File);
            assert forall|p: Seq<char>| #[trigger] y.contains_key(p) <==> shown_via(m, pats, cs, p) by {
                if shown_via(m, pats, cs0, p) {
                    let j = choose|j: int|
                        0 <= j < cs0.len() && !spec_ignored(rel_of(cs0[j].path), pats) && (p == #[trigger] cs0[j].path
                            || (cs0[j].kind is Tree && shown(m, pats, cs0[j].path, p)));
                    assert(cs[j] == cs0[j]);
                }
                if p == c.path {
                    assert(cs[cs.len() - 1] == c);
                }
                if shown_via(m, pats, cs, p) {
                    let j = choose|j: int|
                        0 <= j < cs.len() && !spec_ignored(rel_of(cs[j].path), pats) && (p == #[trigger] cs[j].path
                            || (cs[j].kind is Tree && shown(m, pats, cs[j].path, p)));
                    if j < cs0.len() {
                        assert(cs[j] == cs0[j]);
                    }
                }
            }
            assert(values_ok(y, m, v));
            assert(layout_entries(t, snap_entries(s, m, pats, d, cs, f).0, d, g, acc) == Some(acc.union_prefer_right(y))
                && values_ok(y, m, v) && forall|p: Seq<char>| #[trigger] y.contains_key(p) <==> shown_via(m, pats, cs, p));
        }
    }
}


/// Restoring the tree of a snapshot of the working directory gives back the working
/// directory: what the walk reached is written back and what it did not reach was kept, when
/// the working directory is as a walk of a file system finds it and each object the snapshot
/// wrote is the one the store holds under its hash.
pub proof fn lemma_snapshot_restores(w: WorkDir, v: StoreView)
    requires
        w.wf(),
        walkable(w@),
        snap_held(v, work_snapshot(w).1),
    ensures
        restore_outcome(v, w@, work_snapshot(w).0) == (true, w@),
{
    let s = w.paths.seqv();
    let m = w@;
    let pats = work_patterns(m);
    let root = Seq::<char>::empty();
    lemma_seq_to_map(s);
    assert(listing(s, m)) by {
        assert forall|i: int| 0 <= i < s.len() implies m.contains_key(#[trigger] s[i].path) && (m[s[i].path] is Dir
            <==> s[i].kind is Tree) by {
            assert(seq_to_map(s)[s[i].path] == (s[i].kind, s[i].hash));
        }
        assert forall|p: Seq<char>| #[trigger] m.contains_key(p) implies exists|i: int|
            0 <= i < s.len() && s[i].path == p by {
            assert(seq_to_map(s).contains_key(p));
        }
    }
    let empty = Map::<Seq<char>, (EntryKind, Seq<char>)>::empty();
    assert forall|p: Seq<char>| #[trigger] m.contains_key(p) && inside(p, root) implies p.len() - root.len() < walk_depth()
        && p.len() - root.len() < walk_depth() by {}
    lemma_dir_layout(s, m, pats, v, root, walk_depth(), walk_depth(), empty);
    let h = work_snapshot(w).0;
    let y = choose|y: FlatMap|
        layout_tree(v.trees, snap_dir(s, m, pats, root, walk_depth()).0, root, walk_depth(), empty) == Some(
            empty.union_prefer_right(y),
        ) && values_ok(y, m, v) && forall|p: Seq<char>| #[trigger] y.contains_key(p) <==> shown(m, pats, root, p);
    assert(empty.union_prefer_right(y) =~= y);
    assert(tree_layout(v, h) == Some(y));
    let c = cleaned(m, pats);
    assert(restorable(v, c, y)) by {
        assert forall|p: Seq<char>| #[trigger] y.contains_key(p) implies entry_fits(v, c, p, y[p]) by {
            if m[p] is Dir {
                assert(y[p].0 is Tree);
            } else {
                assert(y[p].0 is Blob);
            }
        }
    }
    assert(restored(v, c, y) =~= m) by {
        assert forall|p: Seq<char>| #[trigger] m.contains_key(p) implies c.contains_key(p) || y.contains_key(p) by {
            if hidden(p, pats) {
                assert(kept(m, pats, p));
            } else {
                assert(shown(m, pats, root, p));
            }
        }
        assert forall|p: Seq<char>| #[trigger] restored(v, c, y).contains_key(p) implies restored(v, c, y)[p] == m[p] by {
            if y.contains_key(p) {
                if m[p] is Dir {
                    assert(y[p].0 is Tree);
                } else {
                    assert(y[p].0 is Blob);
                }
            }
        }
    }
}


/// The hash under which a snapshot write is stored, and whether two writes store the same
/// kind of object under the same hash.
pub open spec fn write_key(x: SnapWrite) -> (bool, Seq<char>) {
    match x {
        SnapWrite::Blob(c) => (true, spec_blake3_hex(c)),
        SnapWrite::Tree(es) => (false, tree_hash(es)),
    }
}

/// `v` holds nothing else than `x` under the hash of `x`.
pub open spec fn agrees(v: StoreView, x: SnapWrite) -> bool {
    match x {
        SnapWrite::Blob(c) => v.blobs.contains_key(spec_blake3_hex(c)) ==> v.blobs[spec_blake3_hex(c)] == c,
        SnapWrite::Tree(es) => v.trees.contains_key(tree_hash(es)) ==> v.trees[tree_hash(es)] == es,
    }
}

/// Writing a snapshot's objects into `v` keeps every one of them, when no object that `v`
/// holds, or that is written, under one of their hashes differs from it.
pub proof fn lemma_snap_kept(v: StoreView, ws: Seq<SnapWrite>)
    requires
        forall|i: int| 0 <= i < ws.len() ==> agrees(v, #[trigger] ws[i]),
        forall|i: int, j: int|
            0 <= i < ws.len() && 0 <= j < ws.len() && write_key(#[trigger] ws[i]) == write_key(#[trigger] ws[j])
                ==> ws[i] == ws[j],
    ensures
        snap_held(crate::worktree::apply_snap(v, ws), ws),
    decreases ws.len(),
{
    let v2 = crate::worktree::apply_snap(v, ws);
    if ws.len() > 0 {
        let t = ws.drop_last();
        assert forall|i: int| 0 <= i < t.len() implies agrees(v, #[trigger] t[i]) by {
            assert(t[i] == ws[i]);
        }
        assert forall|i: int, j: int|
            0 <= i < t.len() && 0 <= j < t.len() && write_key(#[trigger] t[i]) == write_key(#[trigger] t[j]) implies t[i]
                == t[j] by {
            assert(t[i] == ws[i] && t[j] == ws[j]);
        }
        lemma_snap_kept(v, t);
        let v1 = crate::worktree::apply_snap(v, t);
        let l = ws.last();
        assert forall|i: int| 0 <= i < ws.len() implies held_in(v2, #[trigger] ws[i]) by {
            if i < ws.len() - 1 {
                assert(t[i] == ws[i]);
                assert(held_in(v1, t[i]));
            } else {
                lemma_snap_source(v, t, l);
                if !agrees(v1, l) {
                    assert(false);
                }
            }
        }
    }
}

/// After writes `ws`, the object under the hash of `x` is the one `v` held or one written,
/// so it agrees with `x` when those do.
proof fn lemma_snap_source(v: StoreView, ws: Seq<SnapWrite>, x: SnapWrite)
    requires
        agrees(v, x),
        forall|j: int| 0 <= j < ws.len() && write_key(#[trigger] ws[j]) == write_key(x) ==> ws[j] == x,
    ensures
        agrees(crate::worktree::apply_snap(v, ws), x),
    decreases ws.len(),
{
    if ws.len() > 0 {
        let t = ws.drop_last();
        assert forall|j: int| 0 <= j < t.len() && write_key(#[trigger] t[j]) == write_key(x) implies t[j] == x by {
            assert(t[j] == ws[j]);
        }
        lemma_snap_source(v, t, x);
        assert(ws[ws.len() - 1] == ws.last());
    }
}

/// Snapshotting the working directory that restoring a snapshot's tree gave back gives the
/// snapshot's hash again (under the premises of `lemma_snapshot_restores`).
pub proof fn lemma_restore_then_snapshot(w0: WorkDir, w1: WorkDir, v: StoreView)
    requires
        w0.wf(),
        w1.wf(),
        walkable(w0@),
        snap_held(v, work_snapshot(w0).1),
        w1@ == restore_outcome(v, w0@, work_snapshot(w0).0).1,
    ensures
        work_snapshot(w1).0 == work_snapshot(w0).0,
{
    lemma_snapshot_restores(w0, v);
    crate::worktree::lemma_snapshot_of_view(w1, w0, crate::repo::work_patterns(w1@), Seq::empty(), crate::diff::walk_depth());
}

} // verus!
