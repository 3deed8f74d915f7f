//! Three-way merging of trees.
use vstd::prelude::*;
use crate::diff::{flatten, tree_files};
use crate::error::VaultError;
use crate::flat::{FlatMap, FlatTree, FlatView, flat_seq_of, lemma_seq_to_map, seq_to_map, sorted_paths};
use crate::objects::{ConflictObject, ConflictView, EntryKind, conflict_hash};
use crate::store::{ObjectStore, StoreView, insert_new};
use crate::treebuild::{apply_writes, build_tree_from_flat, built_hash, built_writes};

verus! {

/// The result of merging two trees.
#[derive(Debug)]
pub struct MergeResult {
    pub tree_hash: String,
    pub had_conflicts: bool,
    pub conflict_paths: Vec<String>,
}

/// How one path is resolved, by the blob hashes of its two sides and of the ancestor.
pub enum Resolved {
    Unchanged,
    Take(Seq<char>),
    Conflict(Seq<char>, Seq<char>, Seq<char>),
}

/// The resolution of a path: a side that alone changed or alone holds the file wins; a file
/// that one side deleted and the other left as the ancestor had it stays deleted; a file
/// that neither side holds is dropped; two different changes conflict, a change against a
/// deletion too (the deleted side then shows no content).
pub open spec fn resolve_spec(o: Option<Seq<char>>, t: Option<Seq<char>>, a: Option<Seq<char>>) -> Resolved {
    match (o, t) {
        (None, None) => Resolved::Unchanged,
        (Some(oh), None) => match a {
            None => Resolved::Take(oh),
            Some(ah) => if oh == ah {
                Resolved::Unchanged
            } else {
                Resolved::Conflict(oh, Seq::empty(), ah)
            },
        },
        (None, Some(th)) => match a {
            None => Resolved::Take(th),
            Some(ah) => if th == ah {
                Resolved::Unchanged
            } else {
                Resolved::Conflict(Seq::empty(), th, ah)
            },
        },
        (Some(oh), Some(th)) => {
            let ah = match a {
                Some(x) => x,
                None => Seq::empty(),
            };
            if oh == th {
                Resolved::Take(oh)
            } else if oh == ah {
                Resolved::Take(th)
            } else if th == ah {
                Resolved::Take(oh)
            } else {
                Resolved::Conflict(oh, th, ah)
            }
        },
    }
}

/// Resolving the path needs no blob, or finds both sides' blobs stored: they are read when
/// both sides hold the file and changed it differently.
pub open spec fn resolve_ok(v: StoreView, o: Option<Seq<char>>, t: Option<Seq<char>>, a: Option<Seq<char>>) -> bool {
    o is Some && t is Some ==> (resolve_spec(o, t, a) matches Resolved::Conflict(oh, th, _)
        ==> v.blobs.contains_key(oh) && v.blobs.contains_key(th))
}

/// The conflict object for a conflicting resolution.
pub open spec fn conflict_of(r: Resolved) -> ConflictView {
    match r {
        Resolved::Conflict(oh, th, ah) => ConflictView { ours: oh, theirs: th, ancestor: ah },
        _ => ConflictView { ours: Seq::empty(), theirs: Seq::empty(), ancestor: Seq::empty() },
    }
}

/// The merged entry of a path: a blob for a resolved side, a conflict object for a conflict.
pub open spec fn merged_entry(r: Resolved) -> Option<(EntryKind, Seq<char>)> {
    match r {
        Resolved::Unchanged => None,
        Resolved::Take(h) => Some((EntryKind::Blob, h)),
        Resolved::Conflict(_, _, _) => Some((EntryKind::Conflict, conflict_hash(conflict_of(r)))),
    }
}

/// The hash `m` holds for `p`.
pub open spec fn hash_at(m: FlatMap, p: Seq<char>) -> Option<Seq<char>> {
    if m.contains_key(p) {
        Some(m[p].1)
    } else {
        None
    }
}

/// The resolution of `p` between our files, their files and the ancestor's.
pub open spec fn res_at(om: FlatMap, tm: FlatMap, am: FlatMap, p: Seq<char>) -> Resolved {
    resolve_spec(hash_at(om, p), hash_at(tm, p), hash_at(am, p))
}

/// Some side or the ancestor has `p`.
pub open spec fn in_union(om: FlatMap, tm: FlatMap, am: FlatMap, p: Seq<char>) -> bool {
    om.contains_key(p) || tm.contains_key(p) || am.contains_key(p)
}

/// The merged files.
pub open spec fn merged_map(om: FlatMap, tm: FlatMap, am: FlatMap) -> FlatMap {
    Map::new(
        |p: Seq<char>| in_union(om, tm, am, p) && merged_entry(res_at(om, tm, am, p)) is Some,
        |p: Seq<char>| merged_entry(res_at(om, tm, am, p))->0,
    )
}

/// Every path can be resolved.
pub open spec fn merge_ok(v: StoreView, om: FlatMap, tm: FlatMap, am: FlatMap) -> bool {
    forall|p: Seq<char>|
        in_union(om, tm, am, p) ==> #[trigger] resolve_ok(
            v,
            hash_at(om, p),
            hash_at(tm, p),
            hash_at(am, p),
        )
}

/// `cs` lists, in path order, exactly the conflicting paths.
pub open spec fn conflicts_exact(om: FlatMap, tm: FlatMap, am: FlatMap, cs: Seq<Seq<char>>) -> bool {
    &&& forall|a: int, b: int| 0 <= a < b < cs.len() ==> crate::order::text_lt(cs[a], cs[b])
    &&& forall|k: int|
        0 <= k < cs.len() ==> in_union(om, tm, am, #[trigger] cs[k]) && res_at(om, tm, am, cs[k]) is Conflict
    &&& forall|p: Seq<char>|
        in_union(om, tm, am, p) && (#[trigger] res_at(om, tm, am, p)) is Conflict ==> cs.contains(p)
}

/// The conflict objects written for the conflicting paths `cs`, in order.
pub open spec fn conflict_writes(om: FlatMap, tm: FlatMap, am: FlatMap, cs: Seq<Seq<char>>) -> Seq<
    (Seq<char>, ConflictView),
> {
    cs.map_values(
        |p: Seq<char>|
            (conflict_hash(conflict_of(res_at(om, tm, am, p))), conflict_of(res_at(om, tm, am, p))),
    )
}

/// The conflicts map after writing `ws` in order, each only where its hash is new.
pub open spec fn apply_conflicts(m: Map<Seq<char>, ConflictView>, ws: Seq<(Seq<char>, ConflictView)>) -> Map<
    Seq<char>,
    ConflictView,
>
    decreases ws.len(),
{
    if ws.len() == 0 {
        m
    } else {
        insert_new(apply_conflicts(m, ws.drop_last()), ws.last().0, ws.last().1)
    }
}

/// The files of an optional ancestor tree: none when there is no ancestor.
pub open spec fn ancestor_files(v: StoreView, h: Option<Seq<char>>) -> Option<FlatMap> {
    match h {
        None => Some(Map::empty()),
        Some(x) => tree_files(v, x),
    }
}

enum FileResolution {
    Unchanged,
    TakeOurs(String),
    TakeTheirs(String),
    AutoMerged(String),
    Conflict { ours: String, theirs: String, ancestor: String },
}

/// The optional text's value.
pub open spec fn opt_text(x: Option<&str>) -> Option<Seq<char>> {
    match x {
        Some(s) => Some(s@),
        None => None,
    }
}

/// A merge of two file versions without an ancestor; none is attempted.
fn try_auto_merge(_ours: &str, _theirs: &str) -> (r: Option<String>)
    ensures
        r is None,
{
    None
}

fn resolve_file(
    store: &mut ObjectStore,
    ours: Option<&str>,
    theirs: Option<&str>,
    ancestor: Option<&str>,
) -> (r: Result<FileResolution, VaultError>)
    ensures
        final(store).commit_keys == old(store).commit_keys,
        old(store).recorded() ==> final(store).recorded(),
        final(store)@ == old(store)@,
        match r {
            Ok(fr) => resolve_ok(old(store)@, opt_text(ours), opt_text(theirs), opt_text(ancestor))
                && match (fr, resolve_spec(opt_text(ours), opt_text(theirs), opt_text(ancestor))) {
                (FileResolution::Unchanged, Resolved::Unchanged) => true,
                (FileResolution::TakeOurs(h), Resolved::Take(x)) => h@ == x,
                (FileResolution::TakeTheirs(h), Resolved::Take(x)) => h@ == x,
                (FileResolution::Conflict { ours: a, theirs: b, ancestor: c }, Resolved::Conflict(x, y, z)) =>
                    a@ == x && b@ == y && c@ == z,
                _ => false,
            },
            Err(e) => !resolve_ok(old(store)@, opt_text(ours), opt_text(theirs), opt_text(ancestor))
                && e is ObjectNotFound,
        },
{
    match (ours, theirs) {
        (None, None) => Ok(FileResolution::Unchanged),
        (Some(o), None) => match ancestor {
            None => Ok(FileResolution::TakeOurs(crate::text::owned(o))),
            Some(a) => {
                let os = crate::text::owned(o);
                let anc = crate::text::owned(a);
                if os == anc {
                    Ok(FileResolution::Unchanged)
                } else {
                    Ok(FileResolution::Conflict { ours: os, theirs: String::new(), ancestor: anc })
                }
            },
        },
        (None, Some(t)) => match ancestor {
            None => Ok(FileResolution::TakeTheirs(crate::text::owned(t))),
            Some(a) => {
                let ts = crate::text::owned(t);
                let anc = crate::text::owned(a);
                if ts == anc {
                    Ok(FileResolution::Unchanged)
                } else {
                    Ok(FileResolution::Conflict { ours: String::new(), theirs: ts, ancestor: anc })
                }
            },
        },
        (Some(o), Some(t)) => {
            let os = crate::text::owned(o);
            let ts = crate::text::owned(t);
            if os == ts {
                return Ok(FileResolution::TakeOurs(os));
            }
            let anc = match ancestor {
                Some(a) => crate::text::owned(a),
                None => String::new(),
            };
            if os == anc {
                return Ok(FileResolution::TakeTheirs(ts));
            }
            if ts == anc {
                return Ok(FileResolution::TakeOurs(os));
            }
            let ours_bytes = store.read_blob(o)?;
            let theirs_bytes = store.read_blob(t)?;
            let ours_text = crate::text::utf8_lossy(ours_bytes.as_slice());
            let theirs_text = crate::text::utf8_lossy(theirs_bytes.as_slice());
            if let Some(merged) = try_auto_merge(ours_text.as_str(), theirs_text.as_str()) {
                let hash = store.write_blob(merged.as_str().as_bytes());
                return Ok(FileResolution::AutoMerged(hash));
            }
            Ok(FileResolution::Conflict { ours: os, theirs: ts, ancestor: anc })
        },
    }
}

/// Adds every path of `src` to `all`.
fn add_paths(all: &mut FlatTree, src: &FlatTree)
    requires
        old(all).wf(),
        src.wf(),
    ensures
        final(all).wf(),
        forall|p: Seq<char>|
            #[trigger] final(all).view().contains_key(p) <==> old(all).view().contains_key(p)
                || src.view().contains_key(p),
{
    let ghost s = src.seqv();
    let mut i: usize = 0;
    while i < src.entries.len()
        invariant
            i <= s.len(),
            s == src.seqv(),
            src.wf(),
            all.wf(),
            forall|p: Seq<char>|
                #[trigger] all.view().contains_key(p) <==> old(all).view().contains_key(p) || (exists|
                    k: int,
                | 0 <= k < i && s[k].path == p),
        decreases src.entries.len() - i,
    {
        let ghost before = all.view();
        assert(s[i as int] == src.entries@[i as int]@);
        all.insert(src.entries[i].path.clone(), EntryKind::Blob, String::new());
        assert forall|p: Seq<char>| #[trigger] all.view().contains_key(p) <==> old(
            all,
        ).view().contains_key(p) || (exists|k: int| 0 <= k < i + 1 && s[k].path == p) by {
            if p == s[i as int].path {
            } else if exists|k: int| 0 <= k < i + 1 && s[k].path == p {
                let k = choose|k: int| 0 <= k < i + 1 && s[k].path == p;
                assert(k < i);
            }
        }
        i = i + 1;
    }
    proof {
        lemma_seq_to_map(s);
    }
}

/// The merged entries for the first `i` paths of `u`.
pub open spec fn merged_upto(om: FlatMap, tm: FlatMap, am: FlatMap, u: Seq<FlatView>, i: int) -> FlatMap {
    Map::new(
        |p: Seq<char>|
            (exists|k: int| 0 <= k < i && u[k].path == p) && merged_entry(res_at(om, tm, am, p)) is Some,
        |p: Seq<char>| merged_entry(res_at(om, tm, am, p))->0,
    )
}

/// The conflicting paths among the first `i` paths of `u`, in order.
pub open spec fn conflicts_upto(om: FlatMap, tm: FlatMap, am: FlatMap, u: Seq<FlatView>, i: int) -> Seq<
    Seq<char>,
>
    decreases i,
{
    if i <= 0 {
        Seq::empty()
    } else if res_at(om, tm, am, u[i - 1].path) is Conflict {
        conflicts_upto(om, tm, am, u, i - 1).push(u[i - 1].path)
    } else {
        conflicts_upto(om, tm, am, u, i - 1)
    }
}

/// The conflicts found so far are in order and are exactly the conflicting paths seen.
proof fn lemma_conflicts_upto(om: FlatMap, tm: FlatMap, am: FlatMap, u: Seq<FlatView>, i: int)
    requires
        sorted_paths(u),
        0 <= i <= u.len(),
    ensures
        ({
            let cs = conflicts_upto(om, tm, am, u, i);
            &&& forall|a: int, b: int| 0 <= a < b < cs.len() ==> crate::order::text_lt(cs[a], cs[b])
            &&& forall|k: int|
                0 <= k < cs.len() ==> (exists|q: int| 0 <= q < i && u[q].path == #[trigger] cs[k])
                    && res_at(om, tm, am, cs[k]) is Conflict
            &&& forall|q: int|
                0 <= q < i && (#[trigger] res_at(om, tm, am, u[q].path)) is Conflict ==> cs.contains(
                    u[q].path,
                )
            &&& cs.len() > 0 ==> exists|q: int| 0 <= q < i && u[q].path == cs.last()
        }),
    decreases i,
{
    if i > 0 {
        lemma_conflicts_upto(om, tm, am, u, i - 1);
        let prev = conflicts_upto(om, tm, am, u, i - 1);
        let cs = conflicts_upto(om, tm, am, u, i);
        if res_at(om, tm, am, u[i - 1].path) is Conflict {
            assert forall|a: int, b: int| 0 <= a < b < cs.len() implies crate::order::text_lt(
                cs[a],
                cs[b],
            ) by {
                if b == cs.len() - 1 {
                    let q = choose|q: int| 0 <= q < i - 1 && u[q].path == #[trigger] prev[a];
                    assert(crate::order::text_lt(u[q].path, u[i - 1].path));
                } else {
                    assert(cs[a] == prev[a] && cs[b] == prev[b]);
                }
            }
            assert forall|k: int| 0 <= k < cs.len() implies (exists|q: int|
                0 <= q < i && u[q].path == #[trigger] cs[k]) && res_at(om, tm, am, cs[k]) is Conflict by {
                if k < prev.len() {
                    assert(cs[k] == prev[k]);
                    let q = choose|q: int| 0 <= q < i - 1 && u[q].path == #[trigger] prev[k];
                } else {
                    assert(u[i - 1].path == cs[k]);
                }
            }
            assert forall|q: int|
                0 <= q < i && (#[trigger] res_at(om, tm, am, u[q].path)) is Conflict implies cs.contains(
                u[q].path,
            ) by {
                if q < i - 1 {
                    let k = choose|k: int| 0 <= k < prev.len() && prev[k] == u[q].path;
                    assert(cs[k] == prev[k]);
                } else {
                    assert(cs[cs.len() - 1] == u[q].path);
                }
            }
            assert(cs.last() == u[i - 1].path);
        } else {
            assert forall|k: int| 0 <= k < cs.len() implies (exists|q: int|
                0 <= q < i && u[q].path == #[trigger] cs[k]) && res_at(om, tm, am, cs[k]) is Conflict by {
                let q = choose|q: int| 0 <= q < i - 1 && u[q].path == #[trigger] prev[k];
            }
            if cs.len() > 0 {
                let q = choose|q: int| 0 <= q < i - 1 && u[q].path == prev.last();
            }
        }
    }
}

pub(crate) fn opt_hash(e: Option<&crate::flat::FlatEntry>) -> (r: Option<&str>)
    ensures
        opt_text(r) == match e {
            Some(x) => Some(x.hash@),
            None => None::<Seq<char>>,
        },
{
    match e {
        Some(x) => Some(x.hash.as_str()),
        None => None,
    }
}

/// After one more path, the merged entries extend by that path's entry.
proof fn lemma_merged_step(om: FlatMap, tm: FlatMap, am: FlatMap, u: Seq<FlatView>, i: int)
    requires
        sorted_paths(u),
        0 <= i < u.len(),
    ensures
        merged_upto(om, tm, am, u, i + 1) == match merged_entry(res_at(om, tm, am, u[i].path)) {
            Some(x) => merged_upto(om, tm, am, u, i).insert(u[i].path, x),
            None => merged_upto(om, tm, am, u, i),
        },
{
    let p = u[i].path;
    let prev = merged_upto(om, tm, am, u, i);
    let next = merged_upto(om, tm, am, u, i + 1);
    match merged_entry(res_at(om, tm, am, p)) {
        Some(x) => {
            assert forall|q: Seq<char>| next.contains_key(q) implies prev.insert(p, x).contains_key(q) by {
                if q != p {
                    let k = choose|k: int| 0 <= k < i + 1 && u[k].path == q;
                    assert(k < i);
                }
            }
            assert forall|q: Seq<char>| prev.insert(p, x).contains_key(q) implies next.contains_key(q) by {
                if q != p {
                    let k = choose|k: int| 0 <= k < i && u[k].path == q;
                    assert(0 <= k < i + 1 && u[k].path == q);
                }
            }
            assert(next =~= prev.insert(p, x));
        },
        None => {
            assert forall|q: Seq<char>| next.contains_key(q) implies prev.contains_key(q) by {
                let k = choose|k: int| 0 <= k < i + 1 && u[k].path == q;
                if k == i {
                    assert(q == p);
                }
            }
            assert forall|q: Seq<char>| prev.contains_key(q) implies next.contains_key(q) by {
                let k = choose|k: int| 0 <= k < i && u[k].path == q;
                assert(0 <= k < i + 1 && u[k].path == q);
            }
            assert(next =~= prev);
        },
    }
}

/// Resolves every path of `all` (the union of the three sides), storing conflict objects.
fn merge_paths(
    store: &mut ObjectStore,
    all: &FlatTree,
    ours_flat: &FlatTree,
    theirs_flat: &FlatTree,
    ancestor_flat: &FlatTree,
) -> (r: Result<(FlatTree, Vec<String>), VaultError>)
    requires
        all.wf(),
        ours_flat.wf(),
        theirs_flat.wf(),
        ancestor_flat.wf(),
        forall|p: Seq<char>|
            #[trigger] all.view().contains_key(p) <==> in_union(
                ours_flat.view(),
                theirs_flat.view(),
                ancestor_flat.view(),
                p,
            ),
    ensures
        final(store).commit_keys == old(store).commit_keys,
        old(store).recorded() ==> final(store).recorded(),
        final(store)@ == (StoreView { conflicts: final(store)@.conflicts, ..old(store)@ }),
        ({
            let om = ours_flat.view();
            let tm = theirs_flat.view();
            let am = ancestor_flat.view();
            match r {
                Ok((res, cs)) => {
                    &&& res.wf()
                    &&& res.view() == merged_map(om, tm, am)
                    &&& cs@.map_values(|p: String| p@) == conflicts_upto(
                        om,
                        tm,
                        am,
                        all.seqv(),
                        all.seqv().len() as int,
                    )
                    &&& merge_ok(old(store)@, om, tm, am)
                    &&& final(store)@.conflicts == apply_conflicts(
                        old(store)@.conflicts,
                        conflict_writes(om, tm, am, cs@.map_values(|p: String| p@)),
                    )
                },
                Err(e) => !merge_ok(old(store)@, om, tm, am),
            }
        }),
{
    let ghost om = ours_flat.view();
    let ghost tm = theirs_flat.view();
    let ghost am = ancestor_flat.view();
    let ghost v0 = store@;
    let ghost u = all.seqv();
    let mut result = FlatTree::new();
    let mut conflict_paths: Vec<String> = Vec::new();
    let mut i: usize = 0;
    assert(result.view() =~= merged_upto(om, tm, am, u, 0));
    assert(conflict_paths@.map_values(|p: String| p@) =~= conflicts_upto(om, tm, am, u, 0));
    while i < all.entries.len()
        invariant
            i <= u.len(),
            u == all.seqv(),
            v0 == old(store)@,
            store.commit_keys == old(store).commit_keys,
            old(store).recorded() ==> store.recorded(),
            all.wf(),
            ours_flat.wf(),
            theirs_flat.wf(),
            ancestor_flat.wf(),
            om == ours_flat.view(),
            tm == theirs_flat.view(),
            am == ancestor_flat.view(),
            forall|p: Seq<char>| #[trigger] all.view().contains_key(p) <==> in_union(om, tm, am, p),
            result.wf(),
            result.view() == merged_upto(om, tm, am, u, i as int),
            conflict_paths@.map_values(|p: String| p@) == conflicts_upto(om, tm, am, u, i as int),
            store@ == (StoreView {
                conflicts: apply_conflicts(
                    v0.conflicts,
                    conflict_writes(om, tm, am, conflicts_upto(om, tm, am, u, i as int)),
                ),
                ..v0
            }),
            forall|k: int|
                0 <= k < i ==> #[trigger] resolve_ok(
                    v0,
                    hash_at(om, u[k].path),
                    hash_at(tm, u[k].path),
                    hash_at(am, u[k].path),
                ),
        decreases all.entries.len() - i,
    {
        proof {
            lemma_seq_to_map(u);
        }
        let path = all.entries[i].path.clone();
        let ghost p = u[i as int].path;
        assert(u[i as int] == all.entries@[i as int]@);
        assert(all.view().contains_key(p));
        assert(in_union(om, tm, am, p));
        let oe = ours_flat.get(path.as_str());
        let te = theirs_flat.get(path.as_str());
        let ae = ancestor_flat.get(path.as_str());
        let oh = opt_hash(oe);
        let th = opt_hash(te);
        let ah = opt_hash(ae);
        assert(opt_text(oh) == hash_at(om, p));
        assert(opt_text(th) == hash_at(tm, p));
        assert(opt_text(ah) == hash_at(am, p));
        let resolved = resolve_file(store, oh, th, ah);
        let ghost pre_cs = conflicts_upto(om, tm, am, u, i as int);
        proof {
            lemma_merged_step(om, tm, am, u, i as int);
        }
        match resolved {
            Err(e) => {
                proof {
                    if merge_ok(v0, om, tm, am) {
                        assert(resolve_ok(v0, hash_at(om, p), hash_at(tm, p), hash_at(am, p)));
                    }
                }
                return Err(e);
            },
            Ok(FileResolution::Unchanged) => {},
            Ok(FileResolution::TakeOurs(h)) => {
                result.insert(path, EntryKind::Blob, h);
            },
            Ok(FileResolution::TakeTheirs(h)) => {
                result.insert(path, EntryKind::Blob, h);
            },
            Ok(FileResolution::AutoMerged(h)) => {
                result.insert(path, EntryKind::Blob, h);
            },
            Ok(FileResolution::Conflict { ours, theirs, ancestor }) => {
                let conflict = ConflictObject { ours, theirs, ancestor };
                let h = store.write_conflict(&conflict);
                result.insert(path.clone(), EntryKind::Conflict, h);
                conflict_paths.push(path);
            },
        }
        proof {
            let cs1 = conflicts_upto(om, tm, am, u, i + 1);
            if res_at(om, tm, am, p) is Conflict {
                assert(cs1 == pre_cs.push(p));
                assert(conflict_paths@.map_values(|x: String| x@) =~= cs1);
                let ws0 = conflict_writes(om, tm, am, pre_cs);
                let ws1 = conflict_writes(om, tm, am, cs1);
                assert(ws1.drop_last() =~= ws0);
            } else {
                assert(cs1 == pre_cs);
            }
        }
        i = i + 1;
    }
    proof {
        lemma_seq_to_map(u);
        let mm = merged_map(om, tm, am);
        assert(result.view() =~= mm) by {
            assert forall|q: Seq<char>| mm.contains_key(q) implies result.view().contains_key(q) by {
                assert(all.view().contains_key(q));
            }
            assert forall|q: Seq<char>| result.view().contains_key(q) implies mm.contains_key(q) by {
                let k = choose|k: int| 0 <= k < u.len() && u[k].path == q;
                assert(all.view().contains_key(u[k].path));
            }
        }
        assert forall|q: Seq<char>| in_union(om, tm, am, q) implies #[trigger] resolve_ok(
            v0,
            hash_at(om, q),
            hash_at(tm, q),
            hash_at(am, q),
        ) by {
            assert(all.view().contains_key(q));
            let k = choose|k: int| 0 <= k < u.len() && u[k].path == q;
            assert(resolve_ok(v0, hash_at(om, u[k].path), hash_at(tm, u[k].path), hash_at(am, u[k].path)));
        }
    }
    Ok((result, conflict_paths))
}

/// The conflict list of a whole walk is exact.
proof fn lemma_conflicts_exact(om: FlatMap, tm: FlatMap, am: FlatMap, all: &FlatTree)
    requires
        all.wf(),
        forall|p: Seq<char>| #[trigger] all.view().contains_key(p) <==> in_union(om, tm, am, p),
    ensures
        conflicts_exact(om, tm, am, conflicts_upto(om, tm, am, all.seqv(), all.seqv().len() as int)),
{
    let u = all.seqv();
    lemma_seq_to_map(u);
    lemma_conflicts_upto(om, tm, am, u, u.len() as int);
    let cs = conflicts_upto(om, tm, am, u, u.len() as int);
    assert forall|k: int| 0 <= k < cs.len() implies in_union(om, tm, am, #[trigger] cs[k]) && res_at(
        om,
        tm,
        am,
        cs[k],
    ) is Conflict by {
        let q = choose|q: int| 0 <= q < u.len() && u[q].path == #[trigger] cs[k];
        assert(all.view().contains_key(u[q].path));
    }
    assert forall|q: Seq<char>|
        in_union(om, tm, am, q) && (#[trigger] res_at(om, tm, am, q)) is Conflict implies cs.contains(q) by {
        assert(all.view().contains_key(q));
        let k = choose|k: int| 0 <= k < u.len() && u[k].path == q;
        assert(res_at(om, tm, am, u[k].path) is Conflict);
    }
}

/// Merges our tree and their tree against an optional common ancestor tree: each path is
/// resolved, conflicts are stored as conflict objects, and the merged tree is built and
/// stored.
pub fn three_way_merge(
    store: &mut ObjectStore,
    ours_tree: &str,
    theirs_tree: &str,
    ancestor_tree: Option<&str>,
) -> (r: Result<MergeResult, VaultError>)
    ensures
        final(store).commit_keys == old(store).commit_keys,
        old(store).recorded() ==> final(store).recorded(),
        final(store)@.blobs == old(store)@.blobs,
        final(store)@.commits == old(store)@.commits,
        final(store)@.branches == old(store)@.branches,
        final(store)@.head == old(store)@.head,
        match (
            tree_files(old(store)@, ours_tree@),
            tree_files(old(store)@, theirs_tree@),
            ancestor_files(old(store)@, opt_text(ancestor_tree)),
        ) {
            (Some(om), Some(tm), Some(am)) => match r {
                Ok(res) => {
                    let mm = merged_map(om, tm, am);
                    let cs = res.conflict_paths@.map_values(|p: String| p@);
                    &&& merge_ok(old(store)@, om, tm, am)
                    &&& conflicts_exact(om, tm, am, cs)
                    &&& res.had_conflicts == (cs.len() > 0)
                    &&& res.tree_hash@ == built_hash(flat_seq_of(mm))
                    &&& final(store)@.conflicts == apply_conflicts(
                        old(store)@.conflicts,
                        conflict_writes(om, tm, am, cs),
                    )
                    &&& final(store)@.trees == apply_writes(
                        old(store)@.trees,
                        built_writes(flat_seq_of(mm)),
                    )
                },
                Err(e) => !merge_ok(old(store)@, om, tm, am) && final(store)@.trees == old(store)@.trees,
            },
            _ => r matches Err(VaultError::ObjectNotFound(_)) && final(store)@ == old(store)@,
        },
{
    let ours_flat = flatten(store, ours_tree)?;
    let theirs_flat = flatten(store, theirs_tree)?;
    let ancestor_flat = match ancestor_tree {
        Some(a) => flatten(store, a)?,
        None => {
            let f = FlatTree::new();
            assert(f.view() =~= Map::empty());
            f
        },
    };
    let mut all = FlatTree::new();
    add_paths(&mut all, &ours_flat);
    add_paths(&mut all, &theirs_flat);
    add_paths(&mut all, &ancestor_flat);
    let (result, conflict_paths) = merge_paths(store, &all, &ours_flat, &theirs_flat, &ancestor_flat)?;
    proof {
        lemma_conflicts_exact(ours_flat.view(), theirs_flat.view(), ancestor_flat.view(), &all);
        crate::flat::lemma_flat_seq_of(&result);
    }
    let tree_hash = build_tree_from_flat(store, &result.entries);
    let had_conflicts = conflict_paths.len() > 0;
    Ok(MergeResult { tree_hash, had_conflicts, conflict_paths })
}

/// Merging a tree with itself, over any ancestor, gives back its files, without conflicts.
pub proof fn lemma_merge_with_itself(m: FlatMap, a: FlatMap)
    ensures
        merged_map(m, m, a) =~= Map::new(
            |p: Seq<char>| m.contains_key(p),
            |p: Seq<char>| (EntryKind::Blob, m[p].1),
        ),
        forall|p: Seq<char>| !(#[trigger] res_at(m, m, a, p) is Conflict),
{
}

/// A three-way merge keeps every change that one side alone made: where our entry for `p` is
/// the ancestor's (both missing counts as the same) and theirs differs, the merged files hold
/// their version of `p`, or no `p` when they deleted it, and `p` is no conflict; the same with
/// the two sides swapped. Where both sides hold the same version, the merge holds it too.
pub proof fn lemma_one_sided_change_kept(om: FlatMap, tm: FlatMap, am: FlatMap, p: Seq<char>)
    requires
        in_union(om, tm, am, p),
    ensures
        hash_at(om, p) == hash_at(am, p) && hash_at(tm, p) != hash_at(am, p) ==> {
            &&& !(res_at(om, tm, am, p) is Conflict)
            &&& match hash_at(tm, p) {
                Some(h) => merged_map(om, tm, am).contains_key(p) && merged_map(om, tm, am)[p] == (EntryKind::Blob, h),
                None => !merged_map(om, tm, am).contains_key(p),
            }
        },
        hash_at(tm, p) == hash_at(am, p) && hash_at(om, p) != hash_at(am, p) ==> {
            &&& !(res_at(om, tm, am, p) is Conflict)
            &&& match hash_at(om, p) {
                Some(h) => merged_map(om, tm, am).contains_key(p) && merged_map(om, tm, am)[p] == (EntryKind::Blob, h),
                None => !merged_map(om, tm, am).contains_key(p),
            }
        },
        hash_at(om, p) == hash_at(tm, p) ==> {
            &&& !(res_at(om, tm, am, p) is Conflict)
            &&& match hash_at(om, p) {
                Some(h) => merged_map(om, tm, am).contains_key(p) && merged_map(om, tm, am)[p] == (EntryKind::Blob, h),
                None => !merged_map(om, tm, am).contains_key(p),
            }
        },
{
}

/// Two different changes to one path conflict: when both sides changed `p` from the ancestor,
/// each in its own way (a deletion included), `p` is a conflict that records both versions
/// and the ancestor's, and the merged files hold a conflict entry for it. (A missing ancestor
/// counts as the empty hash, so a side's version must not be the empty hash.)
pub proof fn lemma_two_changes_conflict(om: FlatMap, tm: FlatMap, am: FlatMap, p: Seq<char>)
    requires
        in_union(om, tm, am, p),
        hash_at(om, p) != hash_at(am, p),
        hash_at(tm, p) != hash_at(am, p),
        hash_at(om, p) != hash_at(tm, p),
        hash_at(om, p) != Some(Seq::<char>::empty()),
        hash_at(tm, p) != Some(Seq::<char>::empty()),
    ensures
        res_at(om, tm, am, p) == Resolved::Conflict(
            match hash_at(om, p) { Some(h) => h, None => Seq::empty() },
            match hash_at(tm, p) { Some(h) => h, None => Seq::empty() },
            match hash_at(am, p) { Some(h) => h, None => Seq::empty() },
        ),
        merged_map(om, tm, am).contains_key(p),
        merged_map(om, tm, am)[p].0 is Conflict,
{
}

} // verus!
