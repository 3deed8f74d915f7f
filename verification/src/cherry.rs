//! Applying the change one commit made, relative to its first parent, onto another tree.
use vstd::prelude::*;
use crate::diff::{
    DiffKind, FileDiffView, all_paths_ok, diff_trees, diffs_exact, entry_diff, entry_pair,
    file_diff_views, flatten, lookup, tree_files,
};
use crate::error::VaultError;
use crate::flat::{FlatEntry, FlatMap, FlatTree, flat_seq_of};
use crate::merge::{apply_conflicts, hash_at, opt_hash, opt_text};
use crate::objects::{ConflictObject, ConflictView, EntryKind, conflict_hash};
use crate::order::text_lt;
use crate::store::{ObjectStore, StoreView};
use crate::treebuild::{apply_writes, build_tree_from_flat, built_hash, built_writes};

verus! {

/// What picking one changed path does to the target tree.
pub enum CherryStep {
    Keep,
    Put(EntryKind, Seq<char>),
    Remove,
    Conflict(ConflictView),
}

/// The hash of an optional entry, or the empty text.
pub open spec fn hash_or_empty(e: Option<(EntryKind, Seq<char>)>) -> Seq<char> {
    match e {
        Some(x) => x.1,
        None => Seq::empty(),
    }
}

/// An optional hash, or the empty text.
pub open spec fn or_empty(h: Option<Seq<char>>) -> Seq<char> {
    match h {
        Some(x) => x,
        None => Seq::empty(),
    }
}

/// The step for a path that the picked commit changed in the way `kind`, where `ph` is the
/// parent's blob hash, `oe` the target's entry and `ce` the picked commit's entry.
/// An added file that the target already holds conflicts; a deleted file is removed when the
/// target holds the parent's version and conflicts when it holds another; a modified file is
/// taken when the target holds the parent's version, kept when it already holds the new
/// one, and conflicts otherwise.
pub open spec fn cherry_step(
    kind: DiffKind,
    ph: Option<Seq<char>>,
    oe: Option<(EntryKind, Seq<char>)>,
    ce: Option<(EntryKind, Seq<char>)>,
) -> CherryStep {
    match kind {
        DiffKind::Added => match oe {
            Some(o) => if ph is None {
                CherryStep::Conflict(
                    ConflictView { ours: o.1, theirs: hash_or_empty(ce), ancestor: Seq::empty() },
                )
            } else {
                match ce {
                    Some(c) => CherryStep::Put(c.0, c.1),
                    None => CherryStep::Keep,
                }
            },
            None => match ce {
                Some(c) => CherryStep::Put(c.0, c.1),
                None => CherryStep::Keep,
            },
        },
        DiffKind::Deleted => match oe {
            None => CherryStep::Keep,
            Some(o) => if ph == Some(o.1) {
                CherryStep::Remove
            } else {
                CherryStep::Conflict(
                    ConflictView { ours: o.1, theirs: Seq::empty(), ancestor: or_empty(ph) },
                )
            },
        },
        DiffKind::Modified => match (ph, oe, ce) {
            (Some(p), Some(o), Some(c)) => if o.1 == p {
                CherryStep::Put(EntryKind::Blob, c.1)
            } else if o.1 == c.1 {
                CherryStep::Keep
            } else {
                CherryStep::Conflict(ConflictView { ours: o.1, theirs: c.1, ancestor: p })
            },
            _ => CherryStep::Conflict(
                ConflictView {
                    ours: hash_or_empty(oe),
                    theirs: hash_or_empty(ce),
                    ancestor: or_empty(ph),
                },
            ),
        },
    }
}

/// The target's entry after the step.
pub open spec fn step_entry(s: CherryStep, oe: Option<(EntryKind, Seq<char>)>) -> Option<
    (EntryKind, Seq<char>),
> {
    match s {
        CherryStep::Keep => oe,
        CherryStep::Put(k, h) => Some((k, h)),
        CherryStep::Remove => None,
        CherryStep::Conflict(c) => Some((EntryKind::Conflict, conflict_hash(c))),
    }
}

/// The conflict object of a conflicting step.
pub open spec fn step_conflict(s: CherryStep) -> ConflictView {
    match s {
        CherryStep::Conflict(c) => c,
        _ => ConflictView { ours: Seq::empty(), theirs: Seq::empty(), ancestor: Seq::empty() },
    }
}

/// How the picked commit changed `p`, between its parent's files `pm` and its own `cm`.
pub open spec fn picked_kind(v: StoreView, pm: FlatMap, cm: FlatMap, p: Seq<char>) -> Option<DiffKind> {
    match entry_diff(v, lookup(pm, p), lookup(cm, p)) {
        Some(d) => Some(d.0),
        None => None,
    }
}

/// The step for `p` when the change from `pm` to `cm` is picked onto the files `om`.
pub open spec fn step_at(v: StoreView, om: FlatMap, pm: FlatMap, cm: FlatMap, p: Seq<char>) -> CherryStep {
    match picked_kind(v, pm, cm, p) {
        Some(k) => cherry_step(k, hash_at(pm, p), lookup(om, p), lookup(cm, p)),
        None => CherryStep::Keep,
    }
}

/// The target's files after the change from `pm` to `cm` is picked onto `om`.
pub open spec fn picked_files(v: StoreView, om: FlatMap, pm: FlatMap, cm: FlatMap) -> FlatMap {
    Map::new(
        |p: Seq<char>| step_entry(step_at(v, om, pm, cm, p), lookup(om, p)) is Some,
        |p: Seq<char>| step_entry(step_at(v, om, pm, cm, p), lookup(om, p))->0,
    )
}

/// `cs` lists, in path order, exactly the paths whose step conflicts.
pub open spec fn pick_conflicts_exact(v: StoreView, om: FlatMap, pm: FlatMap, cm: FlatMap, cs: Seq<Seq<char>>) -> bool {
    &&& forall|a: int, b: int| 0 <= a < b < cs.len() ==> crate::order::text_lt(cs[a], cs[b])
    &&& forall|k: int| 0 <= k < cs.len() ==> (#[trigger] step_at(v, om, pm, cm, cs[k])) is Conflict
    &&& forall|p: Seq<char>| (#[trigger] step_at(v, om, pm, cm, p)) is Conflict ==> cs.contains(p)
}

/// The conflict objects written for the conflicting paths `cs`, in order.
pub open spec fn pick_writes(v: StoreView, om: FlatMap, pm: FlatMap, cm: FlatMap, cs: Seq<Seq<char>>) -> Seq<
    (Seq<char>, ConflictView),
> {
    cs.map_values(
        |p: Seq<char>|
            (
                conflict_hash(step_conflict(step_at(v, om, pm, cm, p))),
                step_conflict(step_at(v, om, pm, cm, p)),
            ),
    )
}

/// A step as the program holds it.
enum Pick {
    Keep,
    Put(EntryKind, String),
    Remove,
    Conflict(ConflictObject),
}

/// The value of a step.
spec fn pick_view(p: Pick) -> CherryStep {
    match p {
        Pick::Keep => CherryStep::Keep,
        Pick::Put(k, h) => CherryStep::Put(k, h@),
        Pick::Remove => CherryStep::Remove,
        Pick::Conflict(c) => CherryStep::Conflict(c@),
    }
}

/// The hash of an optional entry, or the empty text.
fn entry_hash_or_empty(e: Option<&FlatEntry>) -> (r: String)
    ensures
        r@ == hash_or_empty(entry_pair(e)),
{
    match e {
        Some(x) => x.hash.clone(),
        None => String::new(),
    }
}

/// An optional hash, or the empty text.
fn text_or_empty(h: Option<&str>) -> (r: String)
    ensures
        r@ == or_empty(crate::merge::opt_text(h)),
{
    match h {
        Some(x) => crate::text::owned(x),
        None => String::new(),
    }
}

/// The step for one changed path.
fn pick_step(kind: DiffKind, ph: Option<&str>, oe: Option<&FlatEntry>, ce: Option<&FlatEntry>) -> (r: Pick)
    ensures
        pick_view(r) == cherry_step(kind, crate::merge::opt_text(ph), entry_pair(oe), entry_pair(ce)),
{
    match kind {
        DiffKind::Added => match oe {
            Some(o) => if ph.is_none() {
                Pick::Conflict(
                    ConflictObject {
                        ours: o.hash.clone(),
                        theirs: entry_hash_or_empty(ce),
                        ancestor: String::new(),
                    },
                )
            } else {
                match ce {
                    Some(c) => Pick::Put(c.kind, c.hash.clone()),
                    None => Pick::Keep,
                }
            },
            None => match ce {
                Some(c) => Pick::Put(c.kind, c.hash.clone()),
                None => Pick::Keep,
            },
        },
        DiffKind::Deleted => match oe {
            None => Pick::Keep,
            Some(o) => {
                let same = match ph {
                    Some(p) => crate::text::owned(p) == o.hash,
                    None => false,
                };
                if same {
                    Pick::Remove
                } else {
                    Pick::Conflict(
                        ConflictObject {
                            ours: o.hash.clone(),
                            theirs: String::new(),
                            ancestor: text_or_empty(ph),
                        },
                    )
                }
            },
        },
        DiffKind::Modified => match (ph, oe, ce) {
            (Some(p), Some(o), Some(c)) => {
                let ps = crate::text::owned(p);
                if o.hash == ps {
                    Pick::Put(EntryKind::Blob, c.hash.clone())
                } else if o.hash == c.hash {
                    Pick::Keep
                } else {
                    Pick::Conflict(
                        ConflictObject { ours: o.hash.clone(), theirs: c.hash.clone(), ancestor: ps },
                    )
                }
            },
            _ => Pick::Conflict(
                ConflictObject {
                    ours: entry_hash_or_empty(oe),
                    theirs: entry_hash_or_empty(ce),
                    ancestor: text_or_empty(ph),
                },
            ),
        },
    }
}

/// The trees of the parent and of the picked commit `c`: none unless `c` is a stored commit
/// whose first parent is a stored commit.
pub open spec fn pick_sides(v: StoreView, c: Seq<char>) -> Option<(Seq<char>, Seq<char>)> {
    if v.commits.contains_key(c) && v.commits[c].parents.len() > 0 && v.commits.contains_key(
        v.commits[c].parents[0],
    ) {
        Some((v.commits[v.commits[c].parents[0]].tree, v.commits[c].tree))
    } else {
        None
    }
}

/// The message of the refusal to pick a commit without parents.
pub open spec fn initial_pick_message() -> Seq<char> {
    "cherry-pick: cannot pick an initial commit (No parent diff)"@
}

/// Some of the first `i` diffs is for `p`.
spec fn seen(ds: Seq<FileDiffView>, i: int, p: Seq<char>) -> bool {
    exists|k: int| 0 <= k < i && ds[k].path == p
}

/// The target's files once the paths of the first `i` diffs are picked.
spec fn files_upto(v: StoreView, om: FlatMap, pm: FlatMap, cm: FlatMap, ds: Seq<FileDiffView>, i: int) -> FlatMap {
    Map::new(
        |p: Seq<char>|
            if seen(ds, i, p) {
                step_entry(step_at(v, om, pm, cm, p), lookup(om, p)) is Some
            } else {
                om.contains_key(p)
            },
        |p: Seq<char>|
            if seen(ds, i, p) {
                step_entry(step_at(v, om, pm, cm, p), lookup(om, p))->0
            } else {
                om[p]
            },
    )
}

/// The conflicting paths among the first `i` diffs, in order.
spec fn conflicts_upto(v: StoreView, om: FlatMap, pm: FlatMap, cm: FlatMap, ds: Seq<FileDiffView>, i: int) -> Seq<
    Seq<char>,
>
    decreases i,
{
    if i <= 0 {
        Seq::empty()
    } else if step_at(v, om, pm, cm, ds[i - 1].path) is Conflict {
        conflicts_upto(v, om, pm, cm, ds, i - 1).push(ds[i - 1].path)
    } else {
        conflicts_upto(v, om, pm, cm, ds, i - 1)
    }
}

/// The diffs' paths are in strictly increasing order.
spec fn diff_paths_sorted(ds: Seq<FileDiffView>) -> bool {
    forall|a: int, b: int| 0 <= a < b < ds.len() ==> text_lt(ds[a].path, ds[b].path)
}

/// Picking the next diff changes only its own path, which no earlier diff touched.
proof fn lemma_files_step(v: StoreView, om: FlatMap, pm: FlatMap, cm: FlatMap, ds: Seq<FileDiffView>, i: int)
    requires
        diff_paths_sorted(ds),
        0 <= i < ds.len(),
    ensures
        !seen(ds, i, ds[i].path),
        lookup(files_upto(v, om, pm, cm, ds, i), ds[i].path) == lookup(om, ds[i].path),
        files_upto(v, om, pm, cm, ds, i + 1) == match step_entry(
            step_at(v, om, pm, cm, ds[i].path),
            lookup(om, ds[i].path),
        ) {
            Some(x) => files_upto(v, om, pm, cm, ds, i).insert(ds[i].path, x),
            None => files_upto(v, om, pm, cm, ds, i).remove(ds[i].path),
        },
{
    let p = ds[i].path;
    if seen(ds, i, p) {
        let k = choose|k: int| 0 <= k < i && ds[k].path == p;
        assert(text_lt(ds[k].path, ds[i].path));
        crate::order::lemma_lt_irreflexive(p);
    }
    let prev = files_upto(v, om, pm, cm, ds, i);
    let next = files_upto(v, om, pm, cm, ds, i + 1);
    assert forall|q: Seq<char>| q != p implies seen(ds, i + 1, q) == seen(ds, i, q) by {
        if seen(ds, i + 1, q) {
            let k = choose|k: int| 0 <= k < i + 1 && ds[k].path == q;
            assert(k < i);
        }
        if seen(ds, i, q) {
            let k = choose|k: int| 0 <= k < i && ds[k].path == q;
            assert(0 <= k < i + 1 && ds[k].path == q);
        }
    }
    assert(seen(ds, i + 1, p));
    match step_entry(step_at(v, om, pm, cm, p), lookup(om, p)) {
        Some(x) => {
            assert(next =~= prev.insert(p, x));
        },
        None => {
            assert(next =~= prev.remove(p));
        },
    }
}

/// The conflicts found so far are in order and are exactly the conflicting paths seen.
proof fn lemma_conflicts_upto(v: StoreView, om: FlatMap, pm: FlatMap, cm: FlatMap, ds: Seq<FileDiffView>, i: int)
    requires
        diff_paths_sorted(ds),
        0 <= i <= ds.len(),
    ensures
        ({
            let cs = conflicts_upto(v, om, pm, cm, ds, i);
            &&& forall|a: int, b: int| 0 <= a < b < cs.len() ==> text_lt(cs[a], cs[b])
            &&& forall|k: int|
                0 <= k < cs.len() ==> seen(ds, i, cs[k]) && (#[trigger] step_at(
                    v,
                    om,
                    pm,
                    cm,
                    cs[k],
                )) is Conflict
            &&& forall|q: int|
                0 <= q < i && (#[trigger] step_at(v, om, pm, cm, ds[q].path)) is Conflict ==> cs.contains(
                    ds[q].path,
                )
        }),
    decreases i,
{
    if i > 0 {
        lemma_conflicts_upto(v, om, pm, cm, ds, i - 1);
        let prev = conflicts_upto(v, om, pm, cm, ds, i - 1);
        let cs = conflicts_upto(v, om, pm, cm, ds, i);
        assert forall|k: int| 0 <= k < prev.len() implies seen(ds, i, prev[k]) by {
            assert(step_at(v, om, pm, cm, prev[k]) is Conflict);
            assert(seen(ds, i - 1, prev[k]));
            let q = choose|q: int| 0 <= q < i - 1 && ds[q].path == prev[k];
            assert(0 <= q < i && ds[q].path == prev[k]);
        }
        if step_at(v, om, pm, cm, ds[i - 1].path) is Conflict {
            assert forall|a: int, b: int| 0 <= a < b < cs.len() implies text_lt(cs[a], cs[b]) by {
                if b == cs.len() - 1 {
                    assert(step_at(v, om, pm, cm, prev[a]) is Conflict);
                    assert(seen(ds, i - 1, prev[a]));
                    let q = choose|q: int| 0 <= q < i - 1 && ds[q].path == prev[a];
                    assert(text_lt(ds[q].path, ds[i - 1].path));
                } else {
                    assert(cs[a] == prev[a] && cs[b] == prev[b]);
                }
            }
            assert forall|k: int| 0 <= k < cs.len() implies seen(ds, i, cs[k]) && (#[trigger] step_at(
                v,
                om,
                pm,
                cm,
                cs[k],
            )) is Conflict by {
                if k < prev.len() {
                    assert(cs[k] == prev[k]);
                } else {
                    assert(cs[k] == ds[i - 1].path);
                    assert(0 <= i - 1 < i && ds[i - 1].path == cs[k]);
                }
            }
            assert forall|q: int|
                0 <= q < i && (#[trigger] step_at(v, om, pm, cm, ds[q].path)) is Conflict implies cs.contains(
                ds[q].path,
            ) by {
                if q < i - 1 {
                    let k = choose|k: int| 0 <= k < prev.len() && prev[k] == ds[q].path;
                    assert(cs[k] == prev[k]);
                } else {
                    assert(cs[cs.len() - 1] == ds[q].path);
                }
            }
        } else {
            assert forall|q: int|
                0 <= q < i && (#[trigger] step_at(v, om, pm, cm, ds[q].path)) is Conflict implies cs.contains(
                ds[q].path,
            ) by {
                assert(q < i - 1);
            }
        }
    }
}

/// Once every diff is picked, the target holds the picked files and the conflict list is
/// exact.
proof fn lemma_pick_done(v: StoreView, om: FlatMap, pm: FlatMap, cm: FlatMap, ds: Seq<FileDiffView>)
    requires
        diffs_exact(v, pm, cm, ds),
    ensures
        files_upto(v, om, pm, cm, ds, ds.len() as int) == picked_files(v, om, pm, cm),
        pick_conflicts_exact(v, om, pm, cm, conflicts_upto(v, om, pm, cm, ds, ds.len() as int)),
{
    let n = ds.len() as int;
    let f = files_upto(v, om, pm, cm, ds, n);
    let g = picked_files(v, om, pm, cm);
    assert forall|p: Seq<char>| !seen(ds, n, p) implies step_at(v, om, pm, cm, p) is Keep by {
        if picked_kind(v, pm, cm, p) is Some {
            assert(pm.contains_key(p) || cm.contains_key(p));
            assert(entry_diff(v, lookup(pm, p), lookup(cm, p)) is Some);
        }
    }
    assert(f =~= g);
    lemma_conflicts_upto(v, om, pm, cm, ds, n);
    let cs = conflicts_upto(v, om, pm, cm, ds, n);
    assert forall|p: Seq<char>| (#[trigger] step_at(v, om, pm, cm, p)) is Conflict implies cs.contains(p) by {
        assert(seen(ds, n, p));
        let q = choose|q: int| 0 <= q < n && ds[q].path == p;
        assert(step_at(v, om, pm, cm, ds[q].path) is Conflict);
    }
}

/// How picking commit `c` onto the tree `onto` ends: the store `v` before and `v2` after, and
/// the result `r`. Without a stored commit with a stored first parent, or when a tree is
/// missing, nothing changes; when the change cannot be compared, the pick fails; otherwise
/// every changed path is picked as `cherry_step` says, the conflicts are stored, and the new
/// tree is built.
pub open spec fn pick_ok(
    v: StoreView,
    c: Seq<char>,
    onto: Seq<char>,
    v2: StoreView,
    r: Result<CherryResult, VaultError>,
) -> bool {
    match pick_sides(v, c) {
        None => v2 == v && (r matches Err(VaultError::ObjectNotFound(m)) && m@ == if !v.commits.contains_key(c) {
            c
        } else if v.commits[c].parents.len() == 0 {
            initial_pick_message()
        } else {
            v.commits[c].parents[0]
        }),
        Some((pt, ct)) => match (tree_files(v, pt), tree_files(v, ct)) {
            (Some(pm), Some(cm)) => if !all_paths_ok(v, pm, cm) {
                r is Err && v2 == v
            } else {
                match tree_files(v, onto) {
                    None => r matches Err(VaultError::ObjectNotFound(_)) && v2 == v,
                    Some(om) => r matches Ok(res) && {
                        let cs = res.conflicts@.map_values(|p: String| p@);
                        let files = picked_files(v, om, pm, cm);
                        &&& pick_conflicts_exact(v, om, pm, cm, cs)
                        &&& res.new_tree_hash@ == built_hash(flat_seq_of(files))
                        &&& v2.conflicts == apply_conflicts(
                            v.conflicts,
                            pick_writes(v, om, pm, cm, cs),
                        )
                        &&& v2.trees == apply_writes(
                            v.trees,
                            built_writes(flat_seq_of(files)),
                        )
                    },
                }
            },
            _ => r matches Err(VaultError::ObjectNotFound(_)) && v2 == v,
        },
    }
}

/// The outcome of picking a commit: the hash of the new tree and the conflicting paths.
pub struct CherryResult {
    pub new_tree_hash: String,
    pub conflicts: Vec<String>,
}

/// Applies the change that commit `commit_hash` made, relative to its first parent, onto the
/// tree `onto_tree`: each changed path is picked as `cherry_step` says, conflicts are stored
/// as conflict objects, and the new tree is built and stored.
pub fn compute_cherry(store: &mut ObjectStore, commit_hash: &str, onto_tree: &str) -> (r: Result<
    CherryResult,
    VaultError,
>)
    ensures
        final(store).commit_keys == old(store).commit_keys,
        old(store).recorded() ==> final(store).recorded(),
        final(store)@ == (StoreView {
            conflicts: final(store)@.conflicts,
            trees: final(store)@.trees,
            ..old(store)@
        }),
        pick_ok(old(store)@, commit_hash@, onto_tree@, final(store)@, r),
{
    let commit = store.read_commit(commit_hash)?;
    proof {
        reveal_strlit("cherry-pick: cannot pick an initial commit (No parent diff)");
    }
    if commit.parents.len() == 0 {
        return Err(
            VaultError::ObjectNotFound(
                crate::text::owned("cherry-pick: cannot pick an initial commit (No parent diff)"),
            ),
        );
    }
    let parent_commit = store.read_commit(commit.parents[0].as_str())?;
    let diffs = diff_trees(store, Some(parent_commit.tree.as_str()), Some(commit.tree.as_str()))?;
    let mut onto_flat = flatten(store, onto_tree)?;
    let parent_flat = flatten(store, parent_commit.tree.as_str())?;
    let commit_flat = flatten(store, commit.tree.as_str())?;
    let conflicts = pick_paths(store, &diffs, &mut onto_flat, &parent_flat, &commit_flat);
    proof {
        crate::flat::lemma_flat_seq_of(&onto_flat);
    }
    let new_tree_hash = build_tree_from_flat(store, &onto_flat.entries);
    Ok(CherryResult { new_tree_hash, conflicts })
}

/// Picks every changed path of `diffs` onto `onto_flat`, storing the conflict objects, and
/// returns the conflicting paths.
fn pick_paths(
    store: &mut ObjectStore,
    diffs: &Vec<crate::diff::FileDiff>,
    onto_flat: &mut FlatTree,
    parent_flat: &FlatTree,
    commit_flat: &FlatTree,
) -> (conflicts: Vec<String>)
    requires
        old(onto_flat).wf(),
        parent_flat.wf(),
        commit_flat.wf(),
        diffs_exact(old(store)@, parent_flat.view(), commit_flat.view(), file_diff_views(diffs@)),
    ensures
        final(store).commit_keys == old(store).commit_keys,
        old(store).recorded() ==> final(store).recorded(),
        final(onto_flat).wf(),
        ({
            let v = old(store)@;
            let om = old(onto_flat).view();
            let pm = parent_flat.view();
            let cm = commit_flat.view();
            let cs = conflicts@.map_values(|p: String| p@);
            &&& final(onto_flat).view() == picked_files(v, om, pm, cm)
            &&& pick_conflicts_exact(v, om, pm, cm, cs)
            &&& final(store)@ == (StoreView {
                conflicts: apply_conflicts(v.conflicts, pick_writes(v, om, pm, cm, cs)),
                ..v
            })
        }),
{
    let ghost v0 = store@;
    let ghost om = onto_flat.view();
    let ghost pm = parent_flat.view();
    let ghost cm = commit_flat.view();
    let ghost dv = file_diff_views(diffs@);
    let mut conflicts: Vec<String> = Vec::new();
    let mut i: usize = 0;
    assert(onto_flat.view() =~= files_upto(v0, om, pm, cm, dv, 0));
    assert(conflicts@.map_values(|p: String| p@) =~= conflicts_upto(v0, om, pm, cm, dv, 0));
    assert(pick_writes(v0, om, pm, cm, Seq::empty()) =~= Seq::empty());
    while i < diffs.len()
        invariant
            i <= dv.len(),
            dv == file_diff_views(diffs@),
            v0 == old(store)@,
            store.commit_keys == old(store).commit_keys,
            old(store).recorded() ==> store.recorded(),
            diffs_exact(v0, pm, cm, dv),
            onto_flat.wf(),
            parent_flat.wf(),
            commit_flat.wf(),
            parent_flat.view() == pm,
            commit_flat.view() == cm,
            onto_flat.view() == files_upto(v0, om, pm, cm, dv, i as int),
            conflicts@.map_values(|p: String| p@) == conflicts_upto(v0, om, pm, cm, dv, i as int),
            store@ == (StoreView {
                conflicts: apply_conflicts(
                    v0.conflicts,
                    pick_writes(v0, om, pm, cm, conflicts_upto(v0, om, pm, cm, dv, i as int)),
                ),
                ..v0
            }),
        decreases diffs.len() - i,
    {
        let path = diffs[i].path.clone();
        let kind = diffs[i].kind;
        let ghost p = dv[i as int].path;
        assert(dv[i as int] == diffs@[i as int]@);
        proof {
            lemma_files_step(v0, om, pm, cm, dv, i as int);
            assert(entry_diff(v0, lookup(pm, p), lookup(cm, p)) == Some((dv[i as int].kind, dv[i as int].hunks)));
        }
        let ph = opt_hash(parent_flat.get(path.as_str()));
        let oe = onto_flat.get(path.as_str());
        let ce = commit_flat.get(path.as_str());
        assert(opt_text(ph) == hash_at(pm, p));
        assert(entry_pair(oe) == lookup(om, p));
        assert(entry_pair(ce) == lookup(cm, p));
        let step = pick_step(kind, ph, oe, ce);
        assert(pick_view(step) == step_at(v0, om, pm, cm, p));
        let ghost pre_cs = conflicts_upto(v0, om, pm, cm, dv, i as int);
        match step {
            Pick::Keep => {},
            Pick::Put(k, h) => {
                onto_flat.insert(path, k, h);
            },
            Pick::Remove => {
                onto_flat.remove(path.as_str());
            },
            Pick::Conflict(c) => {
                let h = store.write_conflict(&c);
                onto_flat.insert(path.clone(), EntryKind::Conflict, h);
                conflicts.push(path);
            },
        }
        proof {
            let cs1 = conflicts_upto(v0, om, pm, cm, dv, i + 1);
            if step_at(v0, om, pm, cm, p) is Conflict {
                assert(cs1 == pre_cs.push(p));
                assert(conflicts@.map_values(|x: String| x@) =~= cs1);
                let ws0 = pick_writes(v0, om, pm, cm, pre_cs);
                let ws1 = pick_writes(v0, om, pm, cm, cs1);
                assert(ws1.drop_last() =~= ws0);
            } else {
                assert(cs1 == pre_cs);
            }
            assert(onto_flat.view() =~= files_upto(v0, om, pm, cm, dv, i + 1));
        }
        i = i + 1;
    }
    proof {
        lemma_pick_done(v0, om, pm, cm, dv);
    }
    conflicts
}

/// Picking a commit onto its own parent's files reproduces the commit's entry on every path
/// that the change reports (the commit's files holding blobs and conflicts only).
pub proof fn lemma_pick_onto_parent(v: StoreView, pm: FlatMap, cm: FlatMap, p: Seq<char>)
    requires
        forall|q: Seq<char>| #[trigger] cm.contains_key(q) ==> !(cm[q].0 is Tree),
        picked_kind(v, pm, cm, p) is Some,
    ensures
        lookup(picked_files(v, pm, pm, cm), p) == lookup(cm, p),
{
    let f = picked_files(v, pm, pm, cm);
    if cm.contains_key(p) {
        assert(!(cm[p].0 is Tree));
    }
}

/// Picking a commit onto its own parent's files conflicts on no path; and when the change
/// reports every path on which the parent's and the commit's entries differ, the picked files
/// are exactly the commit's (the commit's files holding blobs and conflicts only).
pub proof fn lemma_pick_onto_parent_files(v: StoreView, pm: FlatMap, cm: FlatMap)
    requires
        forall|q: Seq<char>| #[trigger] cm.contains_key(q) ==> !(cm[q].0 is Tree),
    ensures
        forall|p: Seq<char>| !(#[trigger] step_at(v, pm, pm, cm, p) is Conflict),
        (forall|p: Seq<char>| #[trigger] picked_kind(v, pm, cm, p) is None ==> lookup(pm, p) == lookup(cm, p))
            ==> picked_files(v, pm, pm, cm) == cm,
{
    assert forall|p: Seq<char>| !(#[trigger] step_at(v, pm, pm, cm, p) is Conflict) by {
        if cm.contains_key(p) {
            assert(!(cm[p].0 is Tree));
        }
    }
    if forall|p: Seq<char>| #[trigger] picked_kind(v, pm, cm, p) is None ==> lookup(pm, p) == lookup(cm, p) {
        let f = picked_files(v, pm, pm, cm);
        assert forall|p: Seq<char>| lookup(f, p) == lookup(cm, p) by {
            if picked_kind(v, pm, cm, p) is Some {
                lemma_pick_onto_parent(v, pm, cm, p);
            } else {
                assert(lookup(pm, p) == lookup(cm, p));
            }
        }
        assert forall|p: Seq<char>| #[trigger] f.contains_key(p) <==> cm.contains_key(p) by {
            assert(lookup(f, p) == lookup(cm, p));
        }
        assert forall|p: Seq<char>| #[trigger] f.contains_key(p) implies f[p] == cm[p] by {
            assert(lookup(f, p) == lookup(cm, p));
        }
        assert(f =~= cm);
    }
}

/// Picking a commit onto its own parent's tree succeeds without conflicts and gives the tree
/// built from the commit's own files, when the commit's files hold blobs and conflicts only
/// and its change reports every path whose entry differs from the parent's. That tree then
/// flattens back to the commit's files when they are well-formed paths that some sorted list
/// describes, and the store holds each built tree under its hash (no two trees share a hash).
pub proof fn lemma_pick_onto_parent_result(
    v: StoreView,
    c: Seq<char>,
    v2: StoreView,
    r: Result<CherryResult, VaultError>,
    pm: FlatMap,
    cm: FlatMap,
)
    requires
        pick_sides(v, c) matches Some((pt, ct)) && tree_files(v, pt) == Some(pm) && tree_files(v, ct)
            == Some(cm) && pick_ok(v, c, pt, v2, r),
        all_paths_ok(v, pm, cm),
        forall|q: Seq<char>| #[trigger] cm.contains_key(q) ==> !(cm[q].0 is Tree),
        forall|p: Seq<char>| #[trigger] picked_kind(v, pm, cm, p) is None ==> lookup(pm, p) == lookup(cm, p),
    ensures
        r matches Ok(res) && res.conflicts@.len() == 0 && res.new_tree_hash@ == built_hash(flat_seq_of(cm)),
        (exists|s: Seq<crate::flat::FlatView>| crate::flat::sorted_paths(s) && crate::flat::seq_to_map(s) == cm)
            && crate::rebuild::files_ok(flat_seq_of(cm), usize::MAX as nat)
            && crate::rebuild::writes_held(v2.trees, built_writes(flat_seq_of(cm)))
            ==> tree_files(v2, built_hash(flat_seq_of(cm))) == Some(cm),
{
    lemma_pick_onto_parent_files(v, pm, cm);
    let res = r->Ok_0;
    let cs = res.conflicts@.map_values(|p: String| p@);
    if cs.len() > 0 {
        assert(step_at(v, pm, pm, cm, cs[0]) is Conflict);
    }
    if (exists|s: Seq<crate::flat::FlatView>| crate::flat::sorted_paths(s) && crate::flat::seq_to_map(s) == cm)
        && crate::rebuild::files_ok(flat_seq_of(cm), usize::MAX as nat)
        && crate::rebuild::writes_held(v2.trees, built_writes(flat_seq_of(cm))) {
        crate::rebuild::lemma_flatten_of_built(v2, flat_seq_of(cm));
    }
}

/// Picking a commit that deleted `p` (its parent held `p`, it does not): when the target holds
/// a version of `p` other than the parent's, `p` is a conflict, kept in the target as a
/// conflict entry; `p` is removed only when the target holds exactly the parent's version, and
/// stays absent when the target has no `p`.
pub proof fn lemma_pick_deletion(v: StoreView, om: FlatMap, pm: FlatMap, cm: FlatMap, p: Seq<char>)
    requires
        pm.contains_key(p),
        !cm.contains_key(p),
    ensures
        om.contains_key(p) && om[p].1 != pm[p].1 ==> step_at(v, om, pm, cm, p) is Conflict
            && picked_files(v, om, pm, cm).contains_key(p) && picked_files(v, om, pm, cm)[p].0 is Conflict,
        om.contains_key(p) && om[p].1 == pm[p].1 ==> !picked_files(v, om, pm, cm).contains_key(p),
        !om.contains_key(p) ==> !picked_files(v, om, pm, cm).contains_key(p),
{
}

/// So when a commit that deleted `p` is picked onto a tree holding another version of `p`,
/// the pick reports `p` among its conflicts.
pub proof fn lemma_pick_deletion_reported(
    v: StoreView,
    c: Seq<char>,
    onto: Seq<char>,
    v2: StoreView,
    r: Result<CherryResult, VaultError>,
    om: FlatMap,
    pm: FlatMap,
    cm: FlatMap,
    p: Seq<char>,
)
    requires
        pick_sides(v, c) matches Some((pt, ct)) && tree_files(v, pt) == Some(pm) && tree_files(v, ct)
            == Some(cm),
        tree_files(v, onto) == Some(om),
        all_paths_ok(v, pm, cm),
        pick_ok(v, c, onto, v2, r),
        pm.contains_key(p),
        !cm.contains_key(p),
        om.contains_key(p),
        om[p].1 != pm[p].1,
    ensures
        r matches Ok(res) && res.conflicts@.map_values(|s: String| s@).contains(p),
{
    lemma_pick_deletion(v, om, pm, cm, p);
}

/// Picking a commit that added `p` (its parent lacked `p`, it holds a file there): a target
/// without `p` gets the commit's entry; a target that already holds `p` conflicts at `p`.
pub proof fn lemma_pick_addition(v: StoreView, om: FlatMap, pm: FlatMap, cm: FlatMap, p: Seq<char>)
    requires
        !pm.contains_key(p),
        cm.contains_key(p),
        !(cm[p].0 is Conflict),
    ensures
        !om.contains_key(p) ==> picked_files(v, om, pm, cm).contains_key(p) && picked_files(v, om, pm, cm)[p]
            == cm[p],
        om.contains_key(p) ==> step_at(v, om, pm, cm, p) is Conflict && picked_files(v, om, pm, cm).contains_key(p)
            && picked_files(v, om, pm, cm)[p].0 is Conflict,
{
}

/// Picking a commit that changed the file `p`: a target holding the parent's version gets the
/// commit's version; a target that already holds the commit's version keeps it; a target with
/// any other version of `p`, or none, conflicts at `p`.
pub proof fn lemma_pick_change(v: StoreView, om: FlatMap, pm: FlatMap, cm: FlatMap, p: Seq<char>)
    requires
        picked_kind(v, pm, cm, p) == Some(DiffKind::Modified),
    ensures
        pm.contains_key(p) && cm.contains_key(p),
        om.contains_key(p) && om[p].1 == pm[p].1 ==> picked_files(v, om, pm, cm).contains_key(p)
            && picked_files(v, om, pm, cm)[p] == (EntryKind::Blob, cm[p].1),
        om.contains_key(p) && om[p].1 == cm[p].1 ==> picked_files(v, om, pm, cm).contains_key(p)
            && picked_files(v, om, pm, cm)[p] == om[p],
        om.contains_key(p) && om[p].1 != pm[p].1 && om[p].1 != cm[p].1 ==> step_at(v, om, pm, cm, p) is Conflict,
        !om.contains_key(p) ==> step_at(v, om, pm, cm, p) is Conflict,
{
}

} // verus!
