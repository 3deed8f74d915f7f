//! The operations that record history: saving, amending, branching, merging, undoing,
//! squashing, splitting and picking commits.
use vstd::prelude::*;
use crate::error::VaultError;
use crate::objects::{AuthorView, Commit, CommitView, FileStatus, StatusEntry, commit_hash, str_views};
use crate::oplog::{OpEntry, OpView, op_views};
use crate::diff::{DiffKind, FileDiff, FileDiffView, all_paths_ok, diffs_exact, file_diff_views, side_files};
use crate::oplog::last_undoable;
use crate::checkout::{blocked, with_parents};
use crate::diff::{lookup, tree_files};
use crate::flat::{FlatMap, FlatTree, flat_seq_of};
use crate::merge::{ancestor_files, apply_conflicts, conflict_writes, conflicts_exact, merge_ok, merged_map};
use crate::treebuild::{apply_writes, built_hash, built_writes};
use crate::repo::{Repo, restore_outcome, spec_author, work_snapshot};
use crate::stash::{StashEntry, first_stash, stash_views};
use crate::workdir::{WorkDir, WorkItem};
use crate::store::{ObjectStore, StoreView, branch_del, branch_lookup, branch_set, current_branch_of, insert_new, resolve_head_of};
use crate::text::spec_trim;
use crate::worktree::apply_snap;

verus! {

/// The branch that moves when HEAD's commit changes: the current branch, or `main`.
pub open spec fn moving_branch(v: StoreView) -> Seq<char> {
    match current_branch_of(v) {
        Some(b) => b,
        None => "main"@,
    }
}

/// `c` is a commit of `tree` with these parents, author and message, and a UTC time from the
/// clock (its text ends with `Z`).
pub open spec fn commit_of(
    c: CommitView,
    tree: Seq<char>,
    parents: Seq<Seq<char>>,
    author: AuthorView,
    message: Seq<char>,
) -> bool {
    &&& c.tree == tree
    &&& c.parents == parents
    &&& c.author == author
    &&& c.message == message
    &&& c.timestamp.len() > 0
    &&& c.timestamp.last() == 'Z'
}

/// `c` is a new commit as `commit_of` says, with a fresh change id in hyphenated form.
pub open spec fn fresh_commit_of(
    c: CommitView,
    tree: Seq<char>,
    parents: Seq<Seq<char>>,
    author: AuthorView,
    message: Seq<char>,
) -> bool {
    commit_of(c, tree, parents, author, message) && crate::clock::is_hyphenated_id(c.change_id)
}

/// `v2` is `v` with the commit `c` stored and the moving branch pointed at it.
pub open spec fn committed(v: StoreView, c: CommitView, v2: StoreView) -> bool {
    v2 == StoreView {
        commits: insert_new(v.commits, commit_hash(c), c),
        branches: branch_set(v.branches, moving_branch(v), commit_hash(c)),
        ..v
    }
}

/// `after` is `before` with one entry added: the operation `op` with these fields, not undone.
pub open spec fn logged(
    before: Seq<OpView>,
    after: Seq<OpView>,
    op: Seq<char>,
    head_before: Option<Seq<char>>,
    head_after: Option<Seq<char>>,
    branch: Option<Seq<char>>,
    message: Option<Seq<char>>,
    extra: Option<Seq<char>>,
) -> bool {
    &&& after.len() == before.len() + 1
    &&& after.drop_last() == before
    &&& after.last().op == op
    &&& after.last().head_before == head_before
    &&& after.last().head_after == head_after
    &&& after.last().branch == branch
    &&& after.last().message == message
    &&& after.last().extra == extra
    &&& !after.last().undone
}

/// The parents of a commit made on top of HEAD.
pub open spec fn head_parents(h: Option<Seq<char>>) -> Seq<Seq<char>> {
    match h {
        Some(x) => seq![x],
        None => Seq::empty(),
    }
}

/// The optional text's value.
pub open spec fn opt_val(o: Option<String>) -> Option<Seq<char>> {
    crate::oplog::opt_seq(o)
}

/// The hashes before and after amending.
#[derive(Debug)]
pub struct AmendOutcome {
    pub old_hash: String,
    pub new_hash: String,
}

/// The hashes of the two commits a split makes.
#[derive(Debug)]
pub struct SplitOutcome {
    pub first_hash: String,
    pub second_hash: String,
}

/// How a merge ended.
#[derive(Debug)]
pub enum MergeOutcome {
    AlreadyUpToDate,
    FastForward(String),
    Clean(String),
    Conflicts(String, Vec<String>),
}

/// What an undo restored.
#[derive(Debug)]
pub enum UndoOutcome {
    RestoredToEmpty,
    Restored(String),
}

/// A commit and its changes against its first parent.
#[derive(Debug)]
pub struct ShowResult {
    pub commit: Commit,
    pub diffs: Vec<FileDiff>,
}

/// How a pick ended.
#[derive(Debug)]
pub enum CherryPickOutcome {
    Clean(String),
    Conflict(Vec<String>),
    ConflictSaved(String, Vec<String>),
}

/// `ds` is the exact diff between the stored trees `a` (none for an empty tree) and `b`.
pub open spec fn exact_diff(v: StoreView, a: Option<Seq<char>>, b: Seq<char>, ds: Seq<FileDiffView>) -> bool {
    match (side_files(v, a), side_files(v, Some(b))) {
        (Some(om), Some(nm)) => all_paths_ok(v, om, nm) && diffs_exact(v, om, nm, ds),
        _ => false,
    }
}

/// Diffing the stored trees `a` and `b` fails.
pub open spec fn diff_fails(v: StoreView, a: Option<Seq<char>>, b: Seq<char>) -> bool {
    match (side_files(v, a), side_files(v, Some(b))) {
        (Some(om), Some(nm)) => !all_paths_ok(v, om, nm),
        _ => true,
    }
}

/// The status of a path changed in the way `k`.
pub open spec fn status_kind(k: DiffKind) -> FileStatus {
    match k {
        DiffKind::Added => FileStatus::Added,
        DiffKind::Deleted => FileStatus::Deleted,
        DiffKind::Modified => FileStatus::Modified,
    }
}

/// HEAD's tree, when HEAD names a commit.
pub open spec fn head_tree(v: StoreView) -> Option<Seq<char>> {
    match resolve_head_of(v) {
        Some(h) => Some(v.commits[h].tree),
        None => None,
    }
}

/// HEAD names a commit that is not stored.
pub open spec fn head_missing(v: StoreView) -> bool {
    resolve_head_of(v) is Some && !v.commits.contains_key(resolve_head_of(v)->0)
}

/// The commits reached from `h` by first parents, `h` first, at most `k` of them, each with
/// its hash; nothing when one of them is not stored.
pub open spec fn first_parents(v: StoreView, h: Seq<char>, k: nat) -> Option<Seq<(Seq<char>, CommitView)>>
    decreases k,
{
    if k == 0 {
        Some(Seq::empty())
    } else if !v.commits.contains_key(h) {
        None
    } else {
        let c = v.commits[h];
        if c.parents.len() == 0 {
            Some(seq![(h, c)])
        } else {
            match first_parents(v, c.parents[0], (k - 1) as nat) {
                Some(rest) => Some(seq![(h, c)] + rest),
                None => None,
            }
        }
    }
}

/// `done` followed by whatever `o` holds.
pub open spec fn chain_after(
    done: Seq<(Seq<char>, CommitView)>,
    o: Option<Seq<(Seq<char>, CommitView)>>,
) -> Option<Seq<(Seq<char>, CommitView)>> {
    match o {
        Some(x) => Some(done + x),
        None => None,
    }
}

/// The merge base of `a` and `b` (see `dag::merge_base`): nothing when a walk meets a missing
/// commit, `None` inside when the histories are disjoint.
pub open spec fn base_of(v: StoreView, a: Seq<char>, b: Seq<char>) -> Option<Option<Seq<char>>> {
    match (crate::dag::bfs(v, seq![a], Set::empty()), crate::dag::bfs(v, seq![b], Set::empty())) {
        (Some(sa), Some(sb)) => Some(crate::dag::pick_lowest(v, crate::dag::common_of(sa, sb))),
        _ => None,
    }
}

/// The message of a merge commit.
pub open spec fn merge_message(branch: Seq<char>) -> Seq<char> {
    "Merge branch '"@ + branch + "'"@
}

/// The store after a clean three-way merge of `om` and `tm` over `am` with conflict list
/// `cs`: its conflict objects and its trees written.
pub open spec fn merge_written(v: StoreView, om: FlatMap, tm: FlatMap, am: FlatMap, cs: Seq<Seq<char>>) -> StoreView {
    StoreView {
        conflicts: apply_conflicts(v.conflicts, conflict_writes(om, tm, am, cs)),
        trees: apply_writes(v.trees, built_writes(flat_seq_of(merged_map(om, tm, am)))),
        ..v
    }
}

/// How merging the trees of the commits `ours` and `theirs` against their merge base's
/// ends: the store `v` before and `v2` after, and the result `r`.
#[verifier::opaque]
pub open spec fn merge_trees_ok(
    v: StoreView,
    ours: Seq<char>,
    theirs: Seq<char>,
    v2: StoreView,
    r: Result<crate::merge::MergeResult, VaultError>,
) -> bool {
    match base_of(v, ours, theirs) {
        None => r matches Err(VaultError::ObjectNotFound(_)) && v2 == v,
        Some(base) => if base is Some && !v.commits.contains_key(base->0) {
            r matches Err(VaultError::ObjectNotFound(_)) && v2 == v
        } else {
            let at = match base {
                Some(b) => Some(v.commits[b].tree),
                None => None,
            };
            match (
                tree_files(v, v.commits[ours].tree),
                tree_files(v, v.commits[theirs].tree),
                ancestor_files(v, at),
            ) {
                (Some(om), Some(tm), Some(am)) => if !merge_ok(v, om, tm, am) {
                    r is Err && v2 == (StoreView { conflicts: v2.conflicts, ..v })
                } else {
                    r matches Ok(res) && {
                        let cs = res.conflict_paths@.map_values(|p: String| p@);
                        &&& conflicts_exact(om, tm, am, cs)
                        &&& res.had_conflicts == (cs.len() > 0)
                        &&& res.tree_hash@ == built_hash(flat_seq_of(merged_map(om, tm, am)))
                        &&& v2 == merge_written(v, om, tm, am, cs)
                    }
                },
                _ => r matches Err(VaultError::ObjectNotFound(_)) && v2 == v,
            }
        },
    }
}

/// How merging the diverged commits `ours` and `theirs` (of branch `branch`) ends: the store
/// `v`, working directory `w`, log `ops` and configuration `config` before, what comes after,
/// and the result `r`. The trees are merged as `merge_trees_ok` says; then a merge commit of
/// the merged tree is stored on both commits, the moving branch is set to it, the tree is
/// written into the working directory, and a `merge` is logged.
#[verifier::opaque]
pub open spec fn merge_histories_ok(
    v: StoreView,
    w: Map<Seq<char>, WorkItem>,
    ops: Seq<OpView>,
    config: Seq<char>,
    ours: Seq<char>,
    theirs: Seq<char>,
    branch: Seq<char>,
    v2: StoreView,
    w2: Map<Seq<char>, WorkItem>,
    ops2: Seq<OpView>,
    r: Result<MergeOutcome, VaultError>,
) -> bool {
    exists|vm: StoreView, mt: Result<crate::merge::MergeResult, VaultError>|
        #![trigger merge_trees_ok(v, ours, theirs, vm, mt)]
        merge_trees_ok(v, ours, theirs, vm, mt) && match mt {
            Err(e) => r == Err::<MergeOutcome, VaultError>(e) && v2 == vm && w2 == w && ops2 == ops,
            Ok(res) => exists|c: CommitView|
                #![trigger commit_hash(c)]
                {
                    let ro = restore_outcome(v2, w, res.tree_hash@);
                    &&& fresh_commit_of(c, res.tree_hash@, seq![ours, theirs], spec_author(config), merge_message(branch))
                    &&& committed(vm, c, v2)
                    &&& w2 == ro.1
                    &&& if ro.0 {
                        &&& match r {
                            Ok(MergeOutcome::Clean(x)) => !res.had_conflicts && x@ == commit_hash(c),
                            Ok(MergeOutcome::Conflicts(x, ps)) => res.had_conflicts && x@ == commit_hash(c)
                                && ps@.map_values(|p: String| p@) == res.conflict_paths@.map_values(
                                |p: String| p@,
                            ),
                            _ => false,
                        }
                        &&& logged(
                            ops,
                            ops2,
                            "merge"@,
                            Some(ours),
                            Some(commit_hash(c)),
                            Some(moving_branch(vm)),
                            Some(merge_message(branch)),
                            Some(branch),
                        )
                    } else {
                        r matches Err(e) && crate::repo::restore_failure(v2, w, res.tree_hash@, e) && ops2 == ops
                    }
                },
        }
}

/// How picking commit `c` onto HEAD's commit `h` ends, once the pick itself (`pick_ok`) gave
/// the store `vm` and the result `pr`: with conflicts and without `force`, the conflicting
/// paths are returned and nothing else happens; otherwise the new tree is written into the
/// working directory, committed on `h` with the picked commit's message after
/// `cherry-pick: ` and its change id, the moving branch is set to it, and a `cherry-pick` is
/// logged.
pub open spec fn pick_commit_ok(
    vm: StoreView,
    pr: Result<crate::cherry::CherryResult, VaultError>,
    w: Map<Seq<char>, WorkItem>,
    ops: Seq<OpView>,
    config: Seq<char>,
    h: Seq<char>,
    c: Seq<char>,
    src: CommitView,
    force: bool,
    v2: StoreView,
    w2: Map<Seq<char>, WorkItem>,
    ops2: Seq<OpView>,
    r: Result<CherryPickOutcome, VaultError>,
) -> bool {
    match pr {
        Err(e) => r == Err::<CherryPickOutcome, VaultError>(e) && v2 == vm && w2 == w && ops2 == ops,
        Ok(res) => {
            let cs = res.conflicts@.map_values(|p: String| p@);
            if cs.len() > 0 && !force {
                r matches Ok(CherryPickOutcome::Conflict(ps)) && ps@.map_values(|p: String| p@) == cs
                    && v2 == vm && w2 == w && ops2 == ops
            } else {
                let ro = restore_outcome(vm, w, res.new_tree_hash@);
                &&& w2 == ro.1
                &&& if !ro.0 {
                    r matches Err(e) && crate::repo::restore_failure(vm, w, res.new_tree_hash@, e) && v2 == vm
                        && ops2 == ops
                } else {
                    exists|nc: CommitView|
                        #![trigger commit_hash(nc)]
                        {
                            &&& commit_of(
                                nc,
                                res.new_tree_hash@,
                                seq![h],
                                spec_author(config),
                                "cherry-pick: "@ + src.message,
                            )
                            &&& nc.change_id == src.change_id
                            &&& committed(vm, nc, v2)
                            &&& logged(
                                ops,
                                ops2,
                                "cherry-pick"@,
                                Some(h),
                                Some(commit_hash(nc)),
                                Some(moving_branch(vm)),
                                Some("cherry-pick: "@ + src.message),
                                Some(c),
                            )
                            &&& match r {
                                Ok(CherryPickOutcome::ConflictSaved(x, ps)) => cs.len() > 0 && x@
                                    == commit_hash(nc) && ps@.map_values(|p: String| p@) == cs,
                                Ok(CherryPickOutcome::Clean(x)) => cs.len() == 0 && x@ == commit_hash(nc),
                                _ => false,
                            }
                        }
                }
            }
        },
    }
}

/// What undoing the logged operation `e` does to the store `v0` and the working directory
/// `w0`, giving `v2`, `w2` and `r`. A switch (with the branch it left recorded) is taken back
/// by checking that branch out again: HEAD names it once more and the tree of the commit HEAD
/// was on is written into the working directory; no branch moves. Any other operation is taken
/// back by moving the current branch (or `main`) to the commit HEAD was on and writing its
/// tree; when HEAD was on no commit, that branch is removed, so that HEAD resolves to nothing.
pub open spec fn undo_ok(
    v0: StoreView,
    w0: Map<Seq<char>, WorkItem>,
    e: OpView,
    v2: StoreView,
    w2: Map<Seq<char>, WorkItem>,
    r: Result<UndoOutcome, VaultError>,
) -> bool {
    if e.op == "switch"@ && e.extra is Some {
        let v1 = StoreView { head: "ref: refs/heads/"@ + e.extra->0, ..v0 };
        match e.head_before {
            None => r matches Ok(UndoOutcome::RestoredToEmpty) && v2 == v1 && w2 == w0,
            Some(hb) => if !v0.commits.contains_key(hb) {
                r matches Err(VaultError::ObjectNotFound(_)) && v2 == v0 && w2 == w0
            } else {
                let ro = restore_outcome(v0, w0, v0.commits[hb].tree);
                &&& w2 == ro.1
                &&& if ro.0 {
                    r matches Ok(UndoOutcome::Restored(x)) && x@ == hb && v2 == v1
                } else {
                    r matches Err(x) && crate::repo::restore_failure(v0, w0, v0.commits[hb].tree, x) && v2 == v0
                }
            },
        }
    } else {
        match e.head_before {
            None => r matches Ok(UndoOutcome::RestoredToEmpty) && w2 == w0 && v2 == (StoreView {
                branches: branch_del(v0.branches, moving_branch(v0)),
                ..v0
            }),
            Some(hb) => if !v0.commits.contains_key(hb) {
                r matches Err(VaultError::ObjectNotFound(_)) && v2 == v0 && w2 == w0
            } else {
                let v1 = StoreView { branches: branch_set(v0.branches, moving_branch(v0), hb), ..v0 };
                let ro = restore_outcome(v1, w0, v0.commits[hb].tree);
                &&& v2 == v1
                &&& w2 == ro.1
                &&& if ro.0 {
                    r matches Ok(UndoOutcome::Restored(x)) && x@ == hb
                } else {
                    r matches Err(x) && crate::repo::restore_failure(v1, w0, v0.commits[hb].tree, x)
                }
            },
        }
    }
}

/// The commit hash a merge reports.
pub open spec fn merge_commit_of(r: Result<MergeOutcome, VaultError>) -> Option<Seq<char>> {
    match r {
        Ok(MergeOutcome::Clean(x)) => Some(x@),
        Ok(MergeOutcome::Conflicts(x, _)) => Some(x@),
        _ => None,
    }
}

/// A merge of diverged histories keeps both: the branch that moved names the merge commit,
/// and, unless the store already held a commit under that hash, the merge commit has HEAD's
/// commit and the branch's commit in its history.
pub proof fn lemma_merge_keeps_both(
    v: StoreView,
    w: Map<Seq<char>, WorkItem>,
    ops: Seq<OpView>,
    config: Seq<char>,
    ours: Seq<char>,
    theirs: Seq<char>,
    branch: Seq<char>,
    v2: StoreView,
    w2: Map<Seq<char>, WorkItem>,
    ops2: Seq<OpView>,
    r: Result<MergeOutcome, VaultError>,
)
    requires
        merge_histories_ok(v, w, ops, config, ours, theirs, branch, v2, w2, ops2, r),
        merge_commit_of(r) is Some,
    ensures
        ({
            let h = merge_commit_of(r)->0;
            &&& branch_lookup(v2.branches, moving_branch(v)) == Some(h)
            &&& !v.commits.contains_key(h) ==> crate::dag::reachable(v2, h, ours)
                && crate::dag::reachable(v2, h, theirs)
        }),
{
    reveal(merge_histories_ok);
    reveal(merge_trees_ok);
    let (vm, mt) = choose|vm: StoreView, mt: Result<crate::merge::MergeResult, VaultError>|
        #![trigger merge_trees_ok(v, ours, theirs, vm, mt)]
        merge_trees_ok(v, ours, theirs, vm, mt) && match mt {
            Err(e) => r == Err::<MergeOutcome, VaultError>(e) && v2 == vm && w2 == w && ops2 == ops,
            Ok(res) => exists|c: CommitView|
                #![trigger commit_hash(c)]
                {
                    let ro = restore_outcome(v2, w, res.tree_hash@);
                    &&& fresh_commit_of(c, res.tree_hash@, seq![ours, theirs], spec_author(config), merge_message(branch))
                    &&& committed(vm, c, v2)
                    &&& w2 == ro.1
                    &&& if ro.0 {
                        &&& match r {
                            Ok(MergeOutcome::Clean(x)) => !res.had_conflicts && x@ == commit_hash(c),
                            Ok(MergeOutcome::Conflicts(x, ps)) => res.had_conflicts && x@ == commit_hash(c)
                                && ps@.map_values(|p: String| p@) == res.conflict_paths@.map_values(
                                |p: String| p@,
                            ),
                            _ => false,
                        }
                        &&& logged(
                            ops,
                            ops2,
                            "merge"@,
                            Some(ours),
                            Some(commit_hash(c)),
                            Some(moving_branch(vm)),
                            Some(merge_message(branch)),
                            Some(branch),
                        )
                    } else {
                        r matches Err(e) && crate::repo::restore_failure(v2, w, res.tree_hash@, e) && ops2 == ops
                    }
                },
        };
    assert(vm.head == v.head && vm.branches == v.branches && vm.commits == v.commits);
    let res = mt->Ok_0;
    let c = choose|c: CommitView|
        #![trigger commit_hash(c)]
        {
            let ro = restore_outcome(v2, w, res.tree_hash@);
            &&& fresh_commit_of(c, res.tree_hash@, seq![ours, theirs], spec_author(config), merge_message(branch))
            &&& committed(vm, c, v2)
            &&& w2 == ro.1
            &&& if ro.0 {
                &&& match r {
                    Ok(MergeOutcome::Clean(x)) => !res.had_conflicts && x@ == commit_hash(c),
                    Ok(MergeOutcome::Conflicts(x, ps)) => res.had_conflicts && x@ == commit_hash(c)
                        && ps@.map_values(|p: String| p@) == res.conflict_paths@.map_values(
                        |p: String| p@,
                    ),
                    _ => false,
                }
                &&& logged(
                    ops,
                    ops2,
                    "merge"@,
                    Some(ours),
                    Some(commit_hash(c)),
                    Some(moving_branch(vm)),
                    Some(merge_message(branch)),
                    Some(branch),
                )
            } else {
                r matches Err(e) && crate::repo::restore_failure(v2, w, res.tree_hash@, e) && ops2 == ops
            }
        };
    let h = commit_hash(c);
    assert(merge_commit_of(r) == Some(h));
    crate::store::lemma_branch_write_read(vm.branches, moving_branch(vm), h, moving_branch(vm));
    if !v.commits.contains_key(h) {
        assert(v2.commits[h] == c);
        assert(c.parents == seq![ours, theirs]);
        crate::dag::lemma_reach_trans(v2, h, h, h);
        crate::dag::lemma_parent_reachable(v2, h, h, 0);
        crate::dag::lemma_parent_reachable(v2, h, h, 1);
    }
}

/// Diffing a commit's tree with itself succeeds when the tree is stored, and finds nothing.
pub proof fn lemma_diff_with_itself(v: StoreView, t: Seq<char>, ds: Seq<FileDiffView>)
    ensures
        crate::diff::tree_files(v, t) is Some ==> !diff_fails(v, Some(t), t),
        exact_diff(v, Some(t), t, ds) ==> ds.len() == 0,
{
    if crate::diff::tree_files(v, t) is Some {
        let m = crate::diff::tree_files(v, t)->0;
        assert forall|p: Seq<char>| m.contains_key(p) || m.contains_key(p) implies #[trigger] crate::diff::entry_ok(
            v,
            crate::diff::lookup(m, p),
            crate::diff::lookup(m, p),
        ) by {}
        if exact_diff(v, Some(t), t, ds) && ds.len() > 0 {
            assert(crate::diff::entry_diff(v, crate::diff::lookup(m, ds[0].path), crate::diff::lookup(m, ds[0].path))
                == Some((ds[0].kind, ds[0].hunks)));
        }
    }
}

/// Diffing two commits one way and the other way round, when their trees hold no conflict
/// entries, reports the same paths, each addition one way being a deletion the other way and
/// each modification one both ways.
pub proof fn lemma_diff_commits_reversed(
    v: StoreView,
    a: Seq<char>,
    b: Seq<char>,
    ds1: Seq<FileDiffView>,
    ds2: Seq<FileDiffView>,
)
    requires
        tree_files(v, a) matches Some(m) && crate::diff::no_conflict_entries(m),
        tree_files(v, b) matches Some(m) && crate::diff::no_conflict_entries(m),
        exact_diff(v, Some(a), b, ds1),
        exact_diff(v, Some(b), a, ds2),
    ensures
        forall|p: Seq<char>| #[trigger] crate::diff::lists_path(ds1, p) <==> crate::diff::lists_path(ds2, p),
        forall|i: int, j: int|
            0 <= i < ds1.len() && 0 <= j < ds2.len() && (#[trigger] ds1[i]).path == (#[trigger] ds2[j]).path
                ==> ds2[j].kind == crate::diff::reversed_kind(ds1[i].kind),
{
    let am = tree_files(v, a)->0;
    let bm = tree_files(v, b)->0;
    crate::diff::lemma_diff_reversed(v, am, bm, ds1, ds2);
    assert forall|i: int, j: int|
        0 <= i < ds1.len() && 0 <= j < ds2.len() && (#[trigger] ds1[i]).path == (#[trigger] ds2[j]).path
            implies ds2[j].kind == crate::diff::reversed_kind(ds1[i].kind) by {
        let p = ds1[i].path;
        assert(crate::diff::entry_diff(v, lookup(am, p), lookup(bm, p)) == Some((ds1[i].kind, ds1[i].hunks)));
        assert(crate::diff::entry_diff(v, lookup(bm, ds2[j].path), lookup(am, ds2[j].path)) == Some((ds2[j].kind, ds2[j].hunks)));
    }
}

/// A switch taken back by undo gives back the store as it was: HEAD names the branch it named
/// before (written as `ref: refs/heads/<branch>`) and no branch has moved, once the tree of
/// HEAD's earlier commit is written back.
pub proof fn lemma_switch_undone(
    v0: StoreView,
    b: Seq<char>,
    e: OpView,
    w1: Map<Seq<char>, WorkItem>,
    v2: StoreView,
    w2: Map<Seq<char>, WorkItem>,
    r: Result<UndoOutcome, VaultError>,
)
    requires
        current_branch_of(v0) is Some,
        v0.head == "ref: refs/heads/"@ + current_branch_of(v0)->0,
        e.op == "switch"@,
        e.head_before == resolve_head_of(v0),
        e.extra == current_branch_of(v0),
        undo_ok(StoreView { head: "ref: refs/heads/"@ + b, ..v0 }, w1, e, v2, w2, r),
        r is Ok,
    ensures
        v2 == v0,
        match resolve_head_of(v0) {
            Some(h) => r matches Ok(UndoOutcome::Restored(x)) && x@ == h,
            None => r matches Ok(UndoOutcome::RestoredToEmpty),
        },
{
}

/// Undoing an operation that started from no commit, with HEAD on a branch, leaves HEAD
/// resolving to nothing: the repository has no commit again.
pub proof fn lemma_undo_to_empty(v0: StoreView)
    requires
        current_branch_of(v0) is Some,
    ensures
        resolve_head_of(StoreView { branches: branch_del(v0.branches, moving_branch(v0)), ..v0 }) is None,
{
    let b = current_branch_of(v0)->0;
    crate::store::lemma_branch_deleted(v0.branches, b);
    reveal_strlit("ref: refs/heads/");
    reveal_strlit("ref: ");
    let h = spec_trim(v0.head);
    assert(h.subrange(0, 16) =~= "ref: refs/heads/"@);
    assert(h.subrange(0, 5) =~= h.subrange(0, 16).subrange(0, 5));
    assert("ref: "@.is_prefix_of(h));
}

/// The files of `base` with each path of `paths` taken from `full`: set where `full` has it,
/// removed where it has not.
pub open spec fn partial_flat(base: FlatMap, full: FlatMap, paths: Seq<Seq<char>>) -> FlatMap {
    Map::new(
        |p: Seq<char>| if paths.contains(p) { full.contains_key(p) } else { base.contains_key(p) },
        |p: Seq<char>| if paths.contains(p) { full[p] } else { base[p] },
    )
}

/// What a partial tree holds: a chosen path as the working files have it, absent when they do
/// not hold it (a deletion is taken over); any other path as the base has it.
pub proof fn lemma_partial_tree(base: FlatMap, full: FlatMap, paths: Seq<Seq<char>>, p: Seq<char>)
    ensures
        paths.contains(p) && !full.contains_key(p) ==> !partial_flat(base, full, paths).contains_key(p),
        paths.contains(p) && full.contains_key(p) ==> partial_flat(base, full, paths).contains_key(p)
            && partial_flat(base, full, paths)[p] == full[p],
        !paths.contains(p) ==> partial_flat(base, full, paths).contains_key(p) == base.contains_key(p),
        !paths.contains(p) && base.contains_key(p) ==> partial_flat(base, full, paths)[p] == base[p],
{
}

/// `v` with the trees for the files `f` written.
pub open spec fn with_built(v: StoreView, f: FlatMap) -> StoreView {
    StoreView { trees: apply_writes(v.trees, built_writes(flat_seq_of(f))), ..v }
}

/// `v` with the commit `c` stored.
pub open spec fn with_commit(v: StoreView, c: CommitView) -> StoreView {
    StoreView { commits: insert_new(v.commits, commit_hash(c), c), ..v }
}

impl Repo {
    /// The branch that moves: HEAD's branch, or `main`.
    pub fn moving_branch_name(&self) -> (r: String)
        ensures
            r@ == moving_branch(self.store@),
    {
        match self.store.current_branch() {
            Some(b) => b,
            None => crate::text::owned("main"),
        }
    }

    /// Adds an operation to the log.
    fn log_op(
        &mut self,
        op: &str,
        head_before: Option<String>,
        head_after: Option<String>,
        branch: Option<String>,
        message: Option<String>,
        extra: Option<String>,
    )
        ensures
            logged(
                op_views(old(self).oplog.entries@),
                op_views(final(self).oplog.entries@),
                op@,
                opt_val(head_before),
                opt_val(head_after),
                opt_val(branch),
                opt_val(message),
                opt_val(extra),
            ),
            final(self).oplog.path == old(self).oplog.path,
            final(self).store == old(self).store,
            final(self).work == old(self).work,
            final(self).config == old(self).config,
            final(self).stashes == old(self).stashes,
            final(self).snapshots == old(self).snapshots,
            final(self).tags == old(self).tags,
            final(self).work_dir == old(self).work_dir,
            final(self).vault_dir == old(self).vault_dir,
    {
        let e = OpEntry {
            op: crate::text::owned(op),
            timestamp: crate::clock::now_rfc3339(),
            head_before,
            head_after,
            branch,
            message,
            extra,
            undone: false,
        };
        self.oplog.append(e);
        proof {
            assert(op_views(self.oplog.entries@).drop_last() =~= op_views(old(self).oplog.entries@));
        }
    }

    /// A new repository in the working directory `work_dir` (read as `work`): HEAD on `main`,
    /// the author in the configuration, the default ignore file unless there is one, and an
    /// `init` logged. A repository that is already there is an error.
    pub fn init(
        work_dir: &str,
        vault_exists: bool,
        work: WorkDir,
        author_name: &str,
        author_email: &str,
    ) -> (r: Result<Repo, VaultError>)
        requires
            work.wf(),
        ensures
            vault_exists ==> (r matches Err(VaultError::AlreadyInit(m)) && m@ == work_dir@),
            !vault_exists ==> (r matches Ok(repo) && {
                &&& repo.wf()
                &&& repo.work_dir@ == work_dir@
                &&& repo.store@.head == "ref: refs/heads/main"@
                &&& repo.store@.commits == Map::<Seq<char>, CommitView>::empty()
                &&& repo.store@.branches.len() == 0
                &&& repo.config@ == "[user]\nname = "@ + author_name@ + "\nemail = "@ + author_email@ + "\n"@
                &&& repo.work.follows(work)
                &&& repo.work@ == if work@.contains_key(crate::repo::ignore_path()) {
                    work@
                } else {
                    work@.insert(
                        crate::repo::ignore_path(),
                        WorkItem::File(
                            vstd::utf8::encode_utf8(".vault/\n.git/\ntarget/\nnode_modules/\n*.class\n"@),
                        ),
                    )
                }
                &&& logged(Seq::empty(), op_views(repo.oplog.entries@), "init"@, None, None, Some("main"@), None, None)
                &&& repo.stashes.entries@.len() == 0
                &&& repo.snapshots.entries@.len() == 0
                &&& repo.tags@.len() == 0
            }),
    {
        if vault_exists {
            return Err(VaultError::AlreadyInit(crate::text::owned(work_dir)));
        }
        let vault_dir = crate::diff::join(work_dir, ".vault");
        let mut store = ObjectStore::new(vault_dir.as_str());
        store.write_head("ref: refs/heads/main");
        let c = crate::text::concat("[user]\nname = ", author_name);
        let c = crate::text::concat(c.as_str(), "\nemail = ");
        let c = crate::text::concat(c.as_str(), author_email);
        let config = crate::text::concat(c.as_str(), "\n");
        let mut work = work;
        proof {
            crate::workdir::lemma_follows_refl(work);
        }
        if !work.holds(".vaultignore") {
            work.write_file(".vaultignore", ".vault/\n.git/\ntarget/\nnode_modules/\n*.class\n".as_bytes());
        }
        let oplog = crate::oplog::OpLog::new(vault_dir.as_str());
        let stashes = crate::stash::StashStore::new(vault_dir.as_str());
        let snapshots = crate::snapshot::SnapshotStore::new(vault_dir.as_str());
        let mut repo = Repo {
            work_dir: crate::text::owned(work_dir),
            vault_dir,
            store,
            oplog,
            config,
            work,
            stashes,
            snapshots,
            tags: Vec::new(),
        };
        assert(op_views(repo.oplog.entries@) =~= Seq::<OpView>::empty());
        repo.log_op("init", None, None, Some(crate::text::owned("main")), None, None);
        Ok(repo)
    }

    /// Stores a commit of the working directory on top of HEAD, with the configured author and
    /// `message`, moves the current branch (or `main`) to it and logs a `save`. When the
    /// working directory matches HEAD's tree, nothing is committed and HEAD's hash is
    /// returned.
    pub fn save(&mut self, message: &str) -> (r: Result<String, VaultError>)
        requires
            old(self).wf(),
        ensures
            final(self).wf(),
            final(self).work == old(self).work,
            final(self).config == old(self).config,
            final(self).stashes == old(self).stashes,
            final(self).snapshots == old(self).snapshots,
            final(self).tags == old(self).tags,
            ({
                let v0 = old(self).store@;
                let sn = work_snapshot(old(self).work);
                let v1 = apply_snap(v0, sn.1);
                let hb = resolve_head_of(v0);
                if hb is Some && !v0.commits.contains_key(hb->0) {
                    r matches Err(VaultError::ObjectNotFound(_)) && final(self).store@ == v1
                        && final(self).oplog == old(self).oplog
                } else if hb is Some && v0.commits[hb->0].tree == sn.0 {
                    r matches Ok(x) && x@ == hb->0 && final(self).store@ == v1 && final(self).oplog
                        == old(self).oplog
                } else {
                    r matches Ok(x) && exists|c: CommitView|
                        #![trigger commit_hash(c)]
                        fresh_commit_of(c, sn.0, head_parents(hb), spec_author(old(self).config@), message@)
                            && x@ == commit_hash(c) && committed(v1, c, final(self).store@) && logged(
                            op_views(old(self).oplog.entries@),
                            op_views(final(self).oplog.entries@),
                            "save"@,
                            hb,
                            Some(x@),
                            Some(moving_branch(v1)),
                            Some(message@),
                            None,
                        )
                }
            }),
    {
        let head_before = self.store.resolve_head();
        let tree_hash = self.snapshot_working_dir();
        proof {
            crate::repo::lemma_snap_keeps_commits(old(self).store@, work_snapshot(old(self).work).1);
        }
        let ghost v1 = self.store@;
        assert(resolve_head_of(v1) == resolve_head_of(old(self).store@));
        assert(current_branch_of(v1) == current_branch_of(old(self).store@));
        let parents: Vec<String> = match &head_before {
            Some(head) => {
                let head_commit = self.store.read_commit(head.as_str())?;
                if head_commit.tree == tree_hash {
                    return Ok(head.clone());
                }
                let mut p: Vec<String> = Vec::new();
                p.push(head.clone());
                p
            },
            None => Vec::new(),
        };
        assert(str_views(parents@) =~= head_parents(resolve_head_of(old(self).store@)));
        let commit = Commit {
            tree: tree_hash,
            parents,
            author: self.author(),
            timestamp: crate::clock::now_rfc3339(),
            message: crate::text::owned(message),
            change_id: crate::clock::new_change_id(),
        };
        let commit_hash = self.store.write_commit(&commit);
        let branch = self.moving_branch_name();
        self.store.write_branch(branch.as_str(), commit_hash.as_str());
        let ghost cv = commit@;
        self.log_op(
            "save",
            head_before,
            Some(commit_hash.clone()),
            Some(branch),
            Some(crate::text::owned(message)),
            None,
        );
        assert(fresh_commit_of(cv, work_snapshot(old(self).work).0, head_parents(resolve_head_of(old(self).store@)),
            spec_author(old(self).config@), message@));
        assert(committed(v1, cv, self.store@));
        Ok(commit_hash)
    }

    /// Creates the branch `name` at HEAD's commit and logs a `branch`.
    pub fn create_branch(&mut self, name: &str) -> (r: Result<(), VaultError>)
        requires
            old(self).wf(),
        ensures
            final(self).wf(),
            final(self).work == old(self).work,
            ({
                let v0 = old(self).store@;
                if branch_lookup(v0.branches, name@) is Some {
                    r matches Err(VaultError::BranchExists(m)) && m@ == name@ && *final(self) == *old(self)
                } else if resolve_head_of(v0) is None {
                    r matches Err(VaultError::ObjectNotFound(m)) && m@ == "HEAD (no commits yet)"@
                        && *final(self) == *old(self)
                } else {
                    let h = resolve_head_of(v0)->0;
                    r is Ok && final(self).store@ == (StoreView {
                        branches: branch_set(v0.branches, name@, h),
                        ..v0
                    }) && logged(
                        op_views(old(self).oplog.entries@),
                        op_views(final(self).oplog.entries@),
                        "branch"@,
                        Some(h),
                        Some(h),
                        Some(name@),
                        None,
                        None,
                    )
                }
            }),
    {
        if self.store.branch_exists(name) {
            return Err(VaultError::BranchExists(crate::text::owned(name)));
        }
        let head = match self.store.resolve_head() {
            Some(h) => h,
            None => return Err(VaultError::ObjectNotFound(crate::text::owned("HEAD (no commits yet)"))),
        };
        self.store.write_branch(name, head.as_str());
        self.log_op("branch", Some(head.clone()), Some(head), Some(crate::text::owned(name)), None, None);
        Ok(())
    }

    /// Checks out the branch `branch`: its commit's tree is written into the working
    /// directory, HEAD is set to the branch, and a `switch` is logged with the branch it left.
    pub fn switch(&mut self, branch: &str) -> (r: Result<(), VaultError>)
        requires
            old(self).wf(),
        ensures
            final(self).wf(),
            final(self).work.follows(old(self).work),
            ({
                let v0 = old(self).store@;
                match branch_lookup(v0.branches, branch@) {
                    None => r matches Err(VaultError::BranchNotFound(m)) && m@ == branch@ && *final(self)
                        == *old(self),
                    Some(t) => {
                        let target = spec_trim(t);
                        if !v0.commits.contains_key(target) {
                            r matches Err(VaultError::ObjectNotFound(_)) && *final(self) == *old(self)
                        } else {
                            let ro = restore_outcome(v0, old(self).work@, v0.commits[target].tree);
                            &&& final(self).work@ == ro.1
                            &&& if ro.0 {
                                &&& r is Ok
                                &&& final(self).store@ == (StoreView {
                                    head: "ref: refs/heads/"@ + branch@,
                                    ..v0
                                })
                                &&& logged(
                                    op_views(old(self).oplog.entries@),
                                    op_views(final(self).oplog.entries@),
                                    "switch"@,
                                    resolve_head_of(v0),
                                    Some(target),
                                    Some(branch@),
                                    None,
                                    current_branch_of(v0),
                                )
                            } else {
                                r matches Err(e) && crate::repo::restore_failure(
                                    v0,
                                    old(self).work@,
                                    v0.commits[target].tree,
                                    e,
                                ) && final(self).store == old(self).store && final(self).oplog == old(self).oplog
                            }
                        }
                    },
                }
            }),
    {
        proof {
            crate::workdir::lemma_follows_refl(self.work);
        }
        if !self.store.branch_exists(branch) {
            return Err(VaultError::BranchNotFound(crate::text::owned(branch)));
        }
        let head_before = self.store.resolve_head();
        let prev_branch = self.store.current_branch();
        let target_hash = self.store.read_branch(branch)?;
        let target_commit = self.store.read_commit(target_hash.as_str())?;
        self.restore_tree(target_commit.tree.as_str())?;
        let h = crate::text::concat("ref: refs/heads/", branch);
        self.store.write_head(h.as_str());
        self.log_op("switch", head_before, Some(target_hash), Some(crate::text::owned(branch)), None, prev_branch);
        Ok(())
    }

    /// Takes back the last logged operation that moved HEAD: it is marked undone (see
    /// `undo_ok` for what it does to the store and the working directory).
    pub fn undo(&mut self) -> (r: Result<UndoOutcome, VaultError>)
        requires
            old(self).wf(),
        ensures
            final(self).wf(),
            final(self).work.follows(old(self).work),
            ({
                let ops = op_views(old(self).oplog.entries@);
                match last_undoable(ops) {
                    None => r matches Err(VaultError::NothingToUndo) && final(self).store == old(self).store
                        && final(self).work == old(self).work && op_views(final(self).oplog.entries@)
                        == ops,
                    Some(i) => {
                        &&& op_views(final(self).oplog.entries@) == ops.update(
                            i,
                            OpView { undone: true, ..ops[i] },
                        )
                        &&& undo_ok(old(self).store@, old(self).work@, ops[i], final(self).store@, final(self).work@, r)
                    },
                }
            }),
    {
        proof {
            crate::workdir::lemma_follows_refl(self.work);
        }
        let ghost v0 = self.store@;
        let e = match self.oplog.last_undoable_entry() {
            Some(e) => e,
            None => return Err(VaultError::NothingToUndo),
        };
        let _ = self.oplog.undo_last();
        assert(self.store@ == v0);
        let is_switch = e.op == crate::text::owned("switch");
        proof {
            reveal_strlit("switch");
        }
        if is_switch && e.extra.is_some() {
            let prev = match &e.extra {
                Some(p) => p.clone(),
                None => String::new(),
            };
            let h = crate::text::concat("ref: refs/heads/", prev.as_str());
            match &e.head_before {
                None => {
                    self.store.write_head(h.as_str());
                    Ok(UndoOutcome::RestoredToEmpty)
                },
                Some(hb) => {
                    let commit = match self.store.read_commit(hb.as_str()) {
                        Ok(c) => c,
                        Err(x) => return Err(x),
                    };
                    self.restore_tree(commit.tree.as_str())?;
                    self.store.write_head(h.as_str());
                    Ok(UndoOutcome::Restored(hb.clone()))
                },
            }
        } else {
            match &e.head_before {
                None => {
                    let branch = self.moving_branch_name();
                    self.store.delete_branch(branch.as_str());
                    Ok(UndoOutcome::RestoredToEmpty)
                },
                Some(hb) => {
                    let commit = match self.store.read_commit(hb.as_str()) {
                        Ok(c) => c,
                        Err(x) => return Err(x),
                    };
                    let branch = self.moving_branch_name();
                    self.store.write_branch(branch.as_str(), hb.as_str());
                    self.restore_tree(commit.tree.as_str())?;
                    Ok(UndoOutcome::Restored(hb.clone()))
                },
            }
        }
    }

    /// Replaces HEAD's commit by one of the working directory with the same parents, author
    /// and change id, and `new_message` or the old message; moves the current branch (or
    /// `main`) to it and logs an amend.
    pub fn amend(&mut self, new_message: Option<&str>) -> (r: Result<AmendOutcome, VaultError>)
        requires
            old(self).wf(),
        ensures
            final(self).wf(),
            final(self).work == old(self).work,
            ({
                let v0 = old(self).store@;
                let hb = resolve_head_of(v0);
                if hb is None {
                    r matches Err(VaultError::ObjectNotFound(m)) && m@ == "HEAD - Nothing to amend"@
                        && *final(self) == *old(self)
                } else if !v0.commits.contains_key(hb->0) {
                    r matches Err(VaultError::ObjectNotFound(_)) && *final(self) == *old(self)
                } else {
                    let h = hb->0;
                    let oc = v0.commits[h];
                    let sn = work_snapshot(old(self).work);
                    let v1 = apply_snap(v0, sn.1);
                    let msg = match new_message {
                        Some(m) => m@,
                        None => oc.message,
                    };
                    r matches Ok(x) && x.old_hash@ == h && exists|c: CommitView|
                        #![trigger commit_hash(c)]
                        commit_of(c, sn.0, oc.parents, oc.author, msg) && c.change_id == oc.change_id
                            && x.new_hash@ == commit_hash(c) && committed(v1, c, final(self).store@)
                            && logged(
                            op_views(old(self).oplog.entries@),
                            op_views(final(self).oplog.entries@),
                            "ammend"@,
                            Some(h),
                            Some(x.new_hash@),
                            Some(moving_branch(v1)),
                            crate::merge::opt_text(new_message),
                            None,
                        )
                }
            }),
    {
        let old_hash = match self.store.resolve_head() {
            Some(h) => h,
            None => return Err(VaultError::ObjectNotFound(crate::text::owned("HEAD - Nothing to amend"))),
        };
        let old_commit = self.store.read_commit(old_hash.as_str())?;
        let new_tree = self.snapshot_working_dir();
        proof {
            crate::repo::lemma_snap_keeps_commits(old(self).store@, work_snapshot(old(self).work).1);
        }
        let ghost v1 = self.store@;
        assert(current_branch_of(v1) == current_branch_of(old(self).store@));
        let message = match new_message {
            Some(m) => crate::text::owned(m),
            None => old_commit.message.clone(),
        };
        let new_commit = Commit {
            tree: new_tree,
            parents: crate::objects::copy_strings(&old_commit.parents),
            author: old_commit.author.duplicate(),
            timestamp: crate::clock::now_rfc3339(),
            message,
            change_id: old_commit.change_id.clone(),
        };
        let new_hash = self.store.write_commit(&new_commit);
        let branch = self.moving_branch_name();
        self.store.write_branch(branch.as_str(), new_hash.as_str());
        let ghost cv = new_commit@;
        let logged_message = match new_message {
            Some(m) => Some(crate::text::owned(m)),
            None => None,
        };
        self.log_op("ammend", Some(old_hash.clone()), Some(new_hash.clone()), Some(branch), logged_message, None);
        assert(committed(v1, cv, self.store@));
        Ok(AmendOutcome { old_hash, new_hash })
    }

    /// The commit `hash` and its changes against its first parent (against an empty tree for
    /// a first commit).
    pub fn show(&self, hash: &str) -> (r: Result<ShowResult, VaultError>)
        ensures
            ({
                let v = self.store@;
                if !v.commits.contains_key(hash@) {
                    r matches Err(VaultError::ObjectNotFound(m)) && m@ == hash@
                } else {
                    let c = v.commits[hash@];
                    if c.parents.len() > 0 && !v.commits.contains_key(c.parents[0]) {
                        r matches Err(VaultError::ObjectNotFound(m)) && m@ == c.parents[0]
                    } else {
                        let base = if c.parents.len() > 0 {
                            Some(v.commits[c.parents[0]].tree)
                        } else {
                            None
                        };
                        match r {
                            Ok(res) => res.commit@ == c && exact_diff(v, base, c.tree, file_diff_views(res.diffs@)),
                            Err(_) => diff_fails(v, base, c.tree),
                        }
                    }
                }
            }),
    {
        let commit = self.store.read_commit(hash)?;
        let diffs = if commit.parents.len() > 0 {
            let parent = self.store.read_commit(commit.parents[0].as_str())?;
            crate::diff::diff_trees(&self.store, Some(parent.tree.as_str()), Some(commit.tree.as_str()))?
        } else {
            crate::diff::diff_trees(&self.store, None, Some(commit.tree.as_str()))?
        };
        Ok(ShowResult { commit, diffs })
    }

    /// The changes from commit `old_hash` to commit `new_hash`.
    pub fn diff_commits(&self, old_hash: &str, new_hash: &str) -> (r: Result<Vec<FileDiff>, VaultError>)
        ensures
            ({
                let v = self.store@;
                if !v.commits.contains_key(old_hash@) || !v.commits.contains_key(new_hash@) {
                    r matches Err(VaultError::ObjectNotFound(_))
                } else {
                    let a = v.commits[old_hash@].tree;
                    let b = v.commits[new_hash@].tree;
                    match r {
                        Ok(ds) => exact_diff(v, Some(a), b, file_diff_views(ds@)),
                        Err(_) => diff_fails(v, Some(a), b),
                    }
                }
            }),
    {
        let old_commit = self.store.read_commit(old_hash)?;
        let new_commit = self.store.read_commit(new_hash)?;
        crate::diff::diff_trees(&self.store, Some(old_commit.tree.as_str()), Some(new_commit.tree.as_str()))
    }

    /// HEAD's tree, if HEAD names a commit.
    fn head_tree_hash(&self) -> (r: Result<Option<String>, VaultError>)
        ensures
            if head_missing(self.store@) {
                r matches Err(VaultError::ObjectNotFound(_))
            } else {
                r matches Ok(t) && opt_val(t) == head_tree(self.store@)
            },
    {
        match self.store.resolve_head() {
            Some(h) => {
                let c = self.store.read_commit(h.as_str())?;
                Ok(Some(c.tree))
            },
            None => Ok(None),
        }
    }

    /// The changes of the working directory against HEAD's tree, one status per path, in
    /// path order.
    pub fn status(&mut self) -> (r: Result<Vec<StatusEntry>, VaultError>)
        requires
            old(self).wf(),
        ensures
            final(self).wf(),
            final(self).work == old(self).work,
            final(self).oplog == old(self).oplog,
            ({
                let v0 = old(self).store@;
                let sn = work_snapshot(old(self).work);
                let v1 = apply_snap(v0, sn.1);
                if head_missing(v0) {
                    r matches Err(VaultError::ObjectNotFound(_)) && final(self).store == old(self).store
                } else {
                    final(self).store@ == v1 && match r {
                        Ok(es) => exists|ds: Seq<FileDiffView>|
                            #![trigger exact_diff(v1, head_tree(v0), sn.0, ds)]
                            exact_diff(v1, head_tree(v0), sn.0, ds) && es@.len() == ds.len() && forall|i: int|
                                0 <= i < ds.len() ==> (#[trigger] es@[i]).path@ == ds[i].path
                                    && es@[i].status == status_kind(ds[i].kind),
                        Err(_) => diff_fails(v1, head_tree(v0), sn.0),
                    }
                }
            }),
    {
        let diffs = self.diff()?;
        let mut out: Vec<StatusEntry> = Vec::new();
        let mut i: usize = 0;
        while i < diffs.len()
            invariant
                i <= diffs@.len(),
                out@.len() == i,
                forall|k: int|
                    0 <= k < i ==> (#[trigger] out@[k]).path@ == diffs@[k].path@ && out@[k].status
                        == status_kind(diffs@[k].kind),
            decreases diffs.len() - i,
        {
            let status = match diffs[i].kind {
                DiffKind::Added => FileStatus::Added,
                DiffKind::Deleted => FileStatus::Deleted,
                DiffKind::Modified => FileStatus::Modified,
            };
            out.push(StatusEntry { path: diffs[i].path.clone(), status });
            i = i + 1;
        }
        proof {
            let ds = file_diff_views(diffs@);
            assert(forall|k: int| 0 <= k < ds.len() ==> ds[k] == diffs@[k]@);
            let v1 = apply_snap(old(self).store@, work_snapshot(old(self).work).1);
            assert(exact_diff(v1, head_tree(old(self).store@), work_snapshot(old(self).work).0, ds));
        }
        Ok(out)
    }

    /// The changes of the working directory against HEAD's tree.
    pub fn diff(&mut self) -> (r: Result<Vec<FileDiff>, VaultError>)
        requires
            old(self).wf(),
        ensures
            final(self).wf(),
            final(self).work == old(self).work,
            final(self).oplog == old(self).oplog,
            ({
                let v0 = old(self).store@;
                let sn = work_snapshot(old(self).work);
                let v1 = apply_snap(v0, sn.1);
                if head_missing(v0) {
                    r matches Err(VaultError::ObjectNotFound(_)) && final(self).store == old(self).store
                } else {
                    final(self).store@ == v1 && match r {
                        Ok(ds) => exact_diff(v1, head_tree(v0), sn.0, file_diff_views(ds@)),
                        Err(_) => diff_fails(v1, head_tree(v0), sn.0),
                    }
                }
            }),
    {
        let head_tree = self.head_tree_hash()?;
        let work_tree = self.snapshot_working_dir();
        proof {
            crate::repo::lemma_snap_keeps_commits(old(self).store@, work_snapshot(old(self).work).1);
        }
        let ht = match &head_tree {
            Some(t) => Some(t.as_str()),
            None => None,
        };
        crate::diff::diff_trees(&self.store, ht, Some(work_tree.as_str()))
    }

    /// Puts the working directory aside as the stash `name`, writes HEAD's tree back into
    /// it, and logs a `stash-save`.
    pub fn stash_save(&mut self, name: &str) -> (r: Result<(), VaultError>)
        requires
            old(self).wf(),
        ensures
            final(self).wf(),
            final(self).work.follows(old(self).work),
            ({
                let v0 = old(self).store@;
                let sn = work_snapshot(old(self).work);
                let v1 = apply_snap(v0, sn.1);
                let before = stash_views(old(self).stashes.entries@);
                let after = stash_views(final(self).stashes.entries@);
                &&& final(self).store@ == v1
                &&& if first_stash(before, name@) is Some {
                    r matches Err(VaultError::ObjectNotFound(_)) && after == before && final(self).work
                        == old(self).work && final(self).oplog == old(self).oplog
                } else {
                    &&& after.len() == before.len() + 1
                    &&& after.drop_last() == before
                    &&& after.last().name == name@
                    &&& after.last().tree_hash == sn.0
                    &&& after.last().branch == moving_branch(v0)
                    &&& if head_missing(v0) {
                        r matches Err(VaultError::ObjectNotFound(_)) && final(self).work == old(self).work
                            && final(self).oplog == old(self).oplog
                    } else {
                        let ro = match head_tree(v0) {
                            Some(t) => restore_outcome(v1, old(self).work@, t),
                            None => (true, old(self).work@),
                        };
                        &&& final(self).work@ == ro.1
                        &&& if ro.0 {
                            r is Ok && logged(
                                op_views(old(self).oplog.entries@),
                                op_views(final(self).oplog.entries@),
                                "stash-save"@,
                                resolve_head_of(v0),
                                resolve_head_of(v0),
                                Some(
                                    match current_branch_of(v0) {
                                        Some(b) => b,
                                        None => Seq::empty(),
                                    },
                                ),
                                Some(name@),
                                None,
                            )
                        } else {
                            r matches Err(e) && crate::repo::restore_failure(
                                v1,
                                old(self).work@,
                                head_tree(v0)->0,
                                e,
                            ) && final(self).oplog == old(self).oplog
                        }
                    }
                }
            }),
    {
        proof {
            crate::workdir::lemma_follows_refl(self.work);
        }
        let branch = self.moving_branch_name();
        let tree = self.snapshot_working_dir();
        proof {
            crate::repo::lemma_snap_keeps_commits(old(self).store@, work_snapshot(old(self).work).1);
        }
        let ghost v1 = self.store@;
        let entry = StashEntry {
            name: crate::text::owned(name),
            tree_hash: tree,
            created_at: crate::clock::now_rfc3339(),
            branch,
        };
        let saved = self.stashes.save(entry);
        if saved.is_err() {
            return saved;
        }
        proof {
            assert(stash_views(self.stashes.entries@).drop_last() =~= stash_views(old(self).stashes.entries@));
        }
        let head = self.head_tree_hash()?;
        match head {
            Some(t) => {
                self.restore_tree(t.as_str())?;
            },
            None => {},
        }
        let hb = self.store.resolve_head();
        let ha = self.store.resolve_head();
        let b = match self.store.current_branch() {
            Some(b) => b,
            None => String::new(),
        };
        self.log_op("stash-save", hb, ha, Some(b), Some(crate::text::owned(name)), None);
        Ok(())
    }

    /// Brings the file `rel_path` back as commit `from_hash` (or HEAD's commit) holds it, or
    /// deletes it when that commit has no such file.
    pub fn restore_file(&mut self, rel_path: &str, from_hash: Option<&str>) -> (r: Result<(), VaultError>)
        requires
            old(self).wf(),
        ensures
            final(self).wf(),
            final(self).work.follows(old(self).work),
            final(self).store == old(self).store,
            final(self).oplog == old(self).oplog,
            ({
                let v = old(self).store@;
                let w = old(self).work@;
                let src = match from_hash {
                    Some(h) => Some(h@),
                    None => resolve_head_of(v),
                };
                match src {
                    None => r matches Err(VaultError::ObjectNotFound(m)) && m@ == "HEAD"@ && final(self).work@ == w,
                    Some(h) => if !v.commits.contains_key(h) {
                        r matches Err(VaultError::ObjectNotFound(_)) && final(self).work@ == w
                    } else {
                        match tree_files(v, v.commits[h].tree) {
                            None => r matches Err(VaultError::ObjectNotFound(_)) && final(self).work@ == w,
                            Some(m) => match lookup(m, rel_path@) {
                                None => if w.contains_key(rel_path@) && w[rel_path@] is Dir {
                                    r matches Err(VaultError::Io(_)) && final(self).work@ == w
                                } else {
                                    r is Ok && final(self).work@ == w.remove(rel_path@)
                                },
                                Some(e) => if !v.blobs.contains_key(e.1) {
                                    r matches Err(VaultError::ObjectNotFound(_)) && final(self).work@ == w
                                } else if !blocked(w, rel_path@) && !(w.contains_key(rel_path@)
                                    && w[rel_path@] is Dir) {
                                    r is Ok && final(self).work@ == with_parents(w, rel_path@).insert(
                                        rel_path@,
                                        WorkItem::File(v.blobs[e.1]),
                                    )
                                } else {
                                    r matches Err(VaultError::Io(_)) && final(self).work@ == w
                                },
                            },
                        }
                    },
                }
            }),
    {
        proof {
            crate::workdir::lemma_follows_refl(self.work);
        }
        let commit_hash = match from_hash {
            Some(h) => crate::text::owned(h),
            None => match self.store.resolve_head() {
                Some(h) => h,
                None => return Err(VaultError::ObjectNotFound(crate::text::owned("HEAD"))),
            },
        };
        let commit = self.store.read_commit(commit_hash.as_str())?;
        let flat = crate::diff::flatten(&self.store, commit.tree.as_str())?;
        match flat.get(rel_path) {
            None => {
                if self.work.holds(rel_path) {
                    if self.work.is_dir(rel_path) {
                        return Err(VaultError::Io(crate::text::concat("Is a directory: ", rel_path)));
                    }
                    self.work.remove_file(rel_path);
                } else {
                    assert(self.work@.remove(rel_path@) =~= self.work@);
                }
                Ok(())
            },
            Some(e) => {
                let content = self.store.read_blob(e.hash.as_str())?;
                crate::checkout::put_file(&mut self.work, rel_path, content.as_slice())
            },
        }
    }

    /// Replaces the last `n` commits on HEAD's first-parent line by one commit of the newest
    /// one's tree, on the oldest one's parents, with the oldest one's change id and
    /// `new_message`; moves the current branch (or `main`) to it and logs a `squash`.
    pub fn squash(&mut self, n: usize, new_message: &str) -> (r: Result<String, VaultError>)
        requires
            old(self).wf(),
        ensures
            final(self).wf(),
            final(self).work == old(self).work,
            ({
                let v0 = old(self).store@;
                let hb = resolve_head_of(v0);
                if n < 2 {
                    r matches Err(VaultError::ObjectNotFound(m)) && m@ == "squash requires at least 2 commits"@
                        && *final(self) == *old(self)
                } else if hb is None {
                    r matches Err(VaultError::ObjectNotFound(m)) && m@ == "HEAD"@ && *final(self) == *old(self)
                } else {
                    match first_parents(v0, hb->0, n as nat) {
                        None => r matches Err(VaultError::ObjectNotFound(_)) && *final(self) == *old(self),
                        Some(cs) => if cs.len() < n {
                            r matches Err(VaultError::ObjectNotFound(m)) && m@ == "only "@
                                + crate::text::spec_decimal(cs.len()) + " commit(s) in history, cannot squash "@
                                + crate::text::spec_decimal(n as nat) && *final(self) == *old(self)
                        } else {
                            r matches Ok(x) && exists|c: CommitView|
                                #![trigger commit_hash(c)]
                                commit_of(
                                    c,
                                    cs[0].1.tree,
                                    cs.last().1.parents,
                                    spec_author(old(self).config@),
                                    new_message@,
                                ) && c.change_id == cs.last().1.change_id && x@ == commit_hash(c)
                                    && committed(v0, c, final(self).store@) && logged(
                                    op_views(old(self).oplog.entries@),
                                    op_views(final(self).oplog.entries@),
                                    "squash"@,
                                    hb,
                                    Some(x@),
                                    Some(moving_branch(v0)),
                                    Some(new_message@),
                                    Some("squashed "@ + crate::text::spec_decimal(n as nat) + " commits"@),
                                )
                        },
                    }
                }
            }),
    {
        if n < 2 {
            return Err(VaultError::ObjectNotFound(crate::text::owned("squash requires at least 2 commits")));
        }
        let head_hash = match self.store.resolve_head() {
            Some(h) => h,
            None => return Err(VaultError::ObjectNotFound(crate::text::owned("HEAD"))),
        };
        let ghost v0 = self.store@;
        let ghost target = first_parents(v0, head_hash@, n as nat);
        let mut commits: Vec<(String, Commit)> = Vec::new();
        let mut cursor = head_hash.clone();
        let mut i: usize = 0;
        let mut stopped = false;
        assert(commits@.map_values(|e: (String, Commit)| (e.0@, e.1@)) =~= Seq::<(Seq<char>, CommitView)>::empty());
        while i < n && !stopped
            invariant
                i <= n,
                n >= 2,
                *self == *old(self),
                self.wf(),
                v0 == self.store@,
                v0 == old(self).store@,
                resolve_head_of(v0) == Some(head_hash@),
                commits@.len() == i,
                target == first_parents(v0, head_hash@, n as nat),
                stopped ==> target == Some(commits@.map_values(|e: (String, Commit)| (e.0@, e.1@))),
                !stopped ==> target == chain_after(
                    commits@.map_values(|e: (String, Commit)| (e.0@, e.1@)),
                    first_parents(v0, cursor@, (n - i) as nat),
                ),
            decreases n - i,
        {
            let ghost done = commits@.map_values(|e: (String, Commit)| (e.0@, e.1@));
            let c = self.store.read_commit(cursor.as_str())?;
            let ghost cv = c@;
            let ghost hv = cursor@;
            let next = if c.parents.len() > 0 {
                Some(c.parents[0].clone())
            } else {
                None
            };
            commits.push((cursor.clone(), c));
            assert(commits@.map_values(|e: (String, Commit)| (e.0@, e.1@)) =~= done.push((hv, cv)));
            match next {
                Some(p) => {
                    cursor = p;
                    assert(done.push((hv, cv)) + first_parents(v0, cursor@, (n - i - 1) as nat)->0 =~= done + (seq![(hv, cv)] + first_parents(v0, cursor@, (n - i - 1) as nat)->0));
                },
                None => {
                    stopped = true;
                    assert(done + seq![(hv, cv)] =~= done.push((hv, cv)));
                },
            }
            i = i + 1;
        }
        proof {
            if !stopped {
                assert(first_parents(v0, cursor@, 0) == Some(Seq::<(Seq<char>, CommitView)>::empty()));
                assert(commits@.map_values(|e: (String, Commit)| (e.0@, e.1@)) + Seq::<(Seq<char>, CommitView)>::empty()
                    =~= commits@.map_values(|e: (String, Commit)| (e.0@, e.1@)));
            }
        }
        let ghost cs = commits@.map_values(|e: (String, Commit)| (e.0@, e.1@));
        if commits.len() < n {
            let m = crate::text::concat("only ", crate::text::decimal(commits.len()).as_str());
            let m = crate::text::concat(m.as_str(), " commit(s) in history, cannot squash ");
            let m = crate::text::concat(m.as_str(), crate::text::decimal(n).as_str());
            return Err(VaultError::ObjectNotFound(m));
        }
        let last = commits.len() - 1;
        assert(cs[0] == (commits@[0].0@, commits@[0].1@));
        assert(cs.last() == (commits@[last as int].0@, commits@[last as int].1@));
        let squashed = Commit {
            tree: commits[0].1.tree.clone(),
            parents: crate::objects::copy_strings(&commits[last].1.parents),
            author: self.author(),
            timestamp: crate::clock::now_rfc3339(),
            message: crate::text::owned(new_message),
            change_id: commits[last].1.change_id.clone(),
        };
        let new_hash = self.store.write_commit(&squashed);
        let branch = self.moving_branch_name();
        self.store.write_branch(branch.as_str(), new_hash.as_str());
        let ghost sv = squashed@;
        let extra = crate::text::concat("squashed ", crate::text::decimal(n).as_str());
        let extra = crate::text::concat(extra.as_str(), " commits");
        self.log_op("squash", Some(head_hash), Some(new_hash.clone()), Some(branch), Some(crate::text::owned(new_message)), Some(extra));
        assert(committed(v0, sv, self.store@));
        Ok(new_hash)
    }

    /// Merges the diverged commits `ours` (HEAD's) and `theirs` (the branch `branch`'s): the
    /// trees are merged against the merge base's, a merge commit is stored on both, the
    /// current branch (or `main`) moves to it, its tree is written into the working
    /// directory, and a `merge` is logged.
    #[verifier::spinoff_prover]
    fn merge_histories(&mut self, ours: &str, theirs: &str, ours_tree: &str, theirs_tree: &str, branch: &str) -> (r:
        Result<MergeOutcome, VaultError>)
        requires
            old(self).wf(),
            old(self).store@.commits.contains_key(ours@),
            old(self).store@.commits.contains_key(theirs@),
            old(self).store@.commits[ours@].tree == ours_tree@,
            old(self).store@.commits[theirs@].tree == theirs_tree@,
        ensures
            final(self).wf(),
            final(self).work.follows(old(self).work),
            merge_histories_ok(
                old(self).store@,
                old(self).work@,
                op_views(old(self).oplog.entries@),
                old(self).config@,
                ours@,
                theirs@,
                branch@,
                final(self).store@,
                final(self).work@,
                op_views(final(self).oplog.entries@),
                r,
            ),
    {
        proof {
            crate::workdir::lemma_follows_refl(self.work);
        }
        let ghost v0 = self.store@;
        let mt = self.merge_trees_of(ours, theirs, ours_tree, theirs_tree);
        let ghost vm = self.store@;
        let ghost mtg = mt;
        let result = match mt {
            Ok(x) => x,
            Err(e) => {
                proof {
                    reveal(merge_histories_ok);
                    assert(merge_trees_ok(v0, ours@, theirs@, vm, mtg));
                }
                return Err(e);
            },
        };
        let ghost v2 = self.store@;
        assert(v2 == vm);
        let mut parents: Vec<String> = Vec::new();
        parents.push(crate::text::owned(ours));
        parents.push(crate::text::owned(theirs));
        let m = crate::text::concat("Merge branch '", branch);
        let m = crate::text::concat(m.as_str(), "'");
        let merge_commit = Commit {
            tree: result.tree_hash.clone(),
            parents,
            author: self.author(),
            timestamp: crate::clock::now_rfc3339(),
            message: m.clone(),
            change_id: crate::clock::new_change_id(),
        };
        let ghost cv = merge_commit@;
        assert(cv.parents =~= seq![ours@, theirs@]);
        let commit_hash = self.store.write_commit(&merge_commit);
        let cur_branch = self.moving_branch_name();
        self.store.write_branch(cur_branch.as_str(), commit_hash.as_str());
        assert(committed(v2, cv, self.store@));
        let ghost cs = result.conflict_paths@.map_values(|p: String| p@);
        let restored = self.restore_tree(result.tree_hash.as_str());
        if restored.is_err() {
            proof {
                reveal(merge_histories_ok);
                assert(merge_trees_ok(v0, ours@, theirs@, vm, mtg));
                assert(mtg == Ok::<crate::merge::MergeResult, VaultError>(result));
                assert(fresh_commit_of(cv, result.tree_hash@, seq![ours@, theirs@], spec_author(old(self).config@), merge_message(branch@)));
            }
            return Err(restored.unwrap_err());
        }
        self.log_op("merge", Some(crate::text::owned(ours)), Some(commit_hash.clone()), Some(cur_branch), Some(m), Some(crate::text::owned(branch)));
        let out = if result.had_conflicts {
            MergeOutcome::Conflicts(commit_hash, result.conflict_paths)
        } else {
            MergeOutcome::Clean(commit_hash)
        };
        proof {
            reveal(merge_histories_ok);
            assert(merge_trees_ok(v0, ours@, theirs@, vm, mtg));
            assert(fresh_commit_of(cv, result.tree_hash@, seq![ours@, theirs@], spec_author(old(self).config@), merge_message(branch@)));
        }
        Ok(out)
    }

    /// Merges the trees of `ours` and `theirs` against their merge base's tree.
    fn merge_trees_of(&mut self, ours: &str, theirs: &str, ours_tree: &str, theirs_tree: &str) -> (r: Result<
        crate::merge::MergeResult,
        VaultError,
    >)
        requires
            old(self).wf(),
            old(self).store@.commits.contains_key(ours@),
            old(self).store@.commits.contains_key(theirs@),
            old(self).store@.commits[ours@].tree == ours_tree@,
            old(self).store@.commits[theirs@].tree == theirs_tree@,
        ensures
            final(self).wf(),
            final(self).work == old(self).work,
            final(self).oplog == old(self).oplog,
            final(self).config == old(self).config,
            final(self).stashes == old(self).stashes,
            final(self).snapshots == old(self).snapshots,
            final(self).tags == old(self).tags,
            final(self).store.commit_keys == old(self).store.commit_keys,
            old(self).store.recorded() ==> final(self).store.recorded(),
            merge_trees_ok(old(self).store@, ours@, theirs@, final(self).store@, r),
    {
        proof {
            reveal(merge_trees_ok);
        }
        let ghost v0 = self.store@;
        let base = crate::dag::merge_base(&self.store, ours, theirs)?;
        let ancestor_tree: Option<String> = match &base {
            Some(b) => Some(self.store.read_commit(b.as_str())?.tree),
            None => None,
        };
        let at = match &ancestor_tree {
            Some(t) => Some(t.as_str()),
            None => None,
        };
        let result = crate::merge::three_way_merge(&mut self.store, ours_tree, theirs_tree, at);
        assert(self.store.wf()) by {
            assert(self.store@.commits == v0.commits);
        }
        result
    }

    /// Merges the branch `branch` into HEAD: nothing when HEAD's history already holds the
    /// branch's commit; otherwise the histories are merged into a merge commit with both
    /// commits as parents (see `merge_histories_ok`), also when the branch is ahead of HEAD.
    pub fn merge(&mut self, branch: &str) -> (r: Result<MergeOutcome, VaultError>)
        requires
            old(self).wf(),
        ensures
            final(self).wf(),
            final(self).work.follows(old(self).work),
            ({
                let v0 = old(self).store@;
                let w0 = old(self).work@;
                let ops0 = op_views(old(self).oplog.entries@);
                match resolve_head_of(v0) {
                    None => r matches Err(VaultError::ObjectNotFound(m)) && m@ == "HEAD"@ && *final(self)
                        == *old(self),
                    Some(ours) => match branch_lookup(v0.branches, branch@) {
                        None => r matches Err(VaultError::BranchNotFound(m)) && m@ == branch@
                            && *final(self) == *old(self),
                        Some(t) => {
                            let theirs = spec_trim(t);
                            if ours == theirs {
                                r matches Ok(MergeOutcome::AlreadyUpToDate) && *final(self) == *old(self)
                            } else if !v0.commits.contains_key(ours) || !v0.commits.contains_key(theirs) {
                                r matches Err(VaultError::ObjectNotFound(_)) && *final(self) == *old(self)
                            } else if crate::dag::bfs(v0, seq![ours], Set::empty()) is None {
                                r matches Err(VaultError::ObjectNotFound(_)) && *final(self) == *old(self)
                            } else if crate::dag::reachable(v0, ours, theirs) {
                                r matches Ok(MergeOutcome::AlreadyUpToDate) && *final(self) == *old(self)
                            } else {
                                merge_histories_ok(
                                    v0,
                                    w0,
                                    ops0,
                                    old(self).config@,
                                    ours,
                                    theirs,
                                    branch@,
                                    final(self).store@,
                                    final(self).work@,
                                    op_views(final(self).oplog.entries@),
                                    r,
                                )
                            }
                        },
                    },
                }
            }),
    {
        proof {
            crate::workdir::lemma_follows_refl(self.work);
        }
        let ours_hash = match self.store.resolve_head() {
            Some(h) => h,
            None => return Err(VaultError::ObjectNotFound(crate::text::owned("HEAD"))),
        };
        let theirs_hash = self.store.read_branch(branch)?;
        if ours_hash == theirs_hash {
            return Ok(MergeOutcome::AlreadyUpToDate);
        }
        let ours_commit = self.store.read_commit(ours_hash.as_str())?;
        let theirs_commit = self.store.read_commit(theirs_hash.as_str())?;
        let ours_ancestors = crate::dag::ancestors(&self.store, ours_hash.as_str())?;
        if contains_text(&ours_ancestors, theirs_hash.as_str()) {
            return Ok(MergeOutcome::AlreadyUpToDate);
        }
        self.merge_histories(
            ours_hash.as_str(),
            theirs_hash.as_str(),
            ours_commit.tree.as_str(),
            theirs_commit.tree.as_str(),
            branch,
        )
    }

    /// Picks the change that commit `commit_hash` made onto HEAD's commit (see
    /// `pick_commit_ok`).
    pub fn cherry_pick(&mut self, commit_hash: &str, force_commit_conflicts: bool) -> (r: Result<
        CherryPickOutcome,
        VaultError,
    >)
        requires
            old(self).wf(),
        ensures
            final(self).wf(),
            final(self).work.follows(old(self).work),
            ({
                let v0 = old(self).store@;
                match resolve_head_of(v0) {
                    None => r matches Err(VaultError::ObjectNotFound(m)) && m@ == "HEAD"@ && *final(self)
                        == *old(self),
                    Some(h) => if !v0.commits.contains_key(h) {
                        r matches Err(VaultError::ObjectNotFound(_)) && *final(self) == *old(self)
                    } else {
                        exists|vm: StoreView, pr: Result<crate::cherry::CherryResult, VaultError>|
                            #![trigger crate::cherry::pick_ok(v0, commit_hash@, v0.commits[h].tree, vm, pr)]
                            crate::cherry::pick_ok(v0, commit_hash@, v0.commits[h].tree, vm, pr)
                                && pick_commit_ok(
                                vm,
                                pr,
                                old(self).work@,
                                op_views(old(self).oplog.entries@),
                                old(self).config@,
                                h,
                                commit_hash@,
                                v0.commits[commit_hash@],
                                force_commit_conflicts,
                                final(self).store@,
                                final(self).work@,
                                op_views(final(self).oplog.entries@),
                                r,
                            )
                    },
                }
            }),
    {
        proof {
            crate::workdir::lemma_follows_refl(self.work);
        }
        let head_hash = match self.store.resolve_head() {
            Some(h) => h,
            None => return Err(VaultError::ObjectNotFound(crate::text::owned("HEAD"))),
        };
        let head_commit = self.store.read_commit(head_hash.as_str())?;
        let ghost v0 = self.store@;
        let pr = crate::cherry::compute_cherry(&mut self.store, commit_hash, head_commit.tree.as_str());
        let ghost vm = self.store@;
        let ghost prg = pr;
        assert(self.store.wf()) by {
            assert(self.store@.commits == v0.commits);
        }
        let ghost w0 = old(self).work@;
        let ghost ops0 = op_views(old(self).oplog.entries@);
        let ghost hv = head_hash@;
        let ghost srcv = v0.commits[commit_hash@];
        assert(crate::cherry::pick_ok(v0, commit_hash@, v0.commits[hv].tree, vm, prg));
        let result = match pr {
            Ok(x) => x,
            Err(e) => {
                assert(pick_commit_ok(vm, prg, w0, ops0, old(self).config@, hv, commit_hash@, srcv,
                    force_commit_conflicts, self.store@, self.work@, op_views(self.oplog.entries@),
                    Err::<CherryPickOutcome, VaultError>(e)));
                return Err(e);
            },
        };
        assert(crate::cherry::pick_sides(v0, commit_hash@) is Some);
        if result.conflicts.len() > 0 && !force_commit_conflicts {
            let out = CherryPickOutcome::Conflict(result.conflicts);
            assert(pick_commit_ok(vm, prg, w0, ops0, old(self).config@, hv, commit_hash@, srcv,
                force_commit_conflicts, self.store@, self.work@, op_views(self.oplog.entries@),
                Ok::<CherryPickOutcome, VaultError>(out)));
            return Ok(out);
        }
        let restored = self.restore_tree(result.new_tree_hash.as_str());
        match restored {
            Ok(()) => {},
            Err(e) => {
                assert(pick_commit_ok(vm, prg, w0, ops0, old(self).config@, hv, commit_hash@, srcv,
                    force_commit_conflicts, self.store@, self.work@, op_views(self.oplog.entries@),
                    Err::<CherryPickOutcome, VaultError>(e)));
                return Err(e);
            },
        }
        let source = match self.store.read_commit(commit_hash) {
            Ok(c) => c,
            Err(e) => {
                return Err(e);
            },
        };
        let new_msg = crate::text::concat("cherry-pick: ", source.message.as_str());
        let mut parents: Vec<String> = Vec::new();
        parents.push(head_hash.clone());
        let new_commit = Commit {
            tree: result.new_tree_hash.clone(),
            parents,
            author: self.author(),
            timestamp: crate::clock::now_rfc3339(),
            message: new_msg.clone(),
            change_id: source.change_id.clone(),
        };
        let ghost cv = new_commit@;
        assert(cv.parents =~= seq![head_hash@]);
        let new_hash = self.store.write_commit(&new_commit);
        let branch = self.moving_branch_name();
        self.store.write_branch(branch.as_str(), new_hash.as_str());
        assert(committed(vm, cv, self.store@));
        self.log_op(
            "cherry-pick",
            Some(head_hash),
            Some(new_hash.clone()),
            Some(branch),
            Some(new_msg),
            Some(crate::text::owned(commit_hash)),
        );
        let out = if result.conflicts.len() > 0 {
            CherryPickOutcome::ConflictSaved(new_hash, result.conflicts)
        } else {
            CherryPickOutcome::Clean(new_hash)
        };
        assert(commit_of(cv, result.new_tree_hash@, seq![hv], spec_author(old(self).config@), "cherry-pick: "@ + srcv.message));
        assert(pick_commit_ok(vm, prg, w0, ops0, old(self).config@, hv, commit_hash@, srcv,
            force_commit_conflicts, self.store@, self.work@, op_views(self.oplog.entries@),
            Ok::<CherryPickOutcome, VaultError>(out)));
        Ok(out)
    }

    /// Stores a commit of `tree` on `parents` with the configured author and `message`, and
    /// returns its hash.
    fn new_commit_on(&mut self, tree: String, parents: Vec<String>, message: String) -> (r: String)
        requires
            old(self).wf(),
        ensures
            final(self).wf(),
            final(self).work == old(self).work,
            final(self).oplog == old(self).oplog,
            final(self).config == old(self).config,
            final(self).stashes == old(self).stashes,
            final(self).snapshots == old(self).snapshots,
            final(self).tags == old(self).tags,
            exists|c: CommitView|
                #![trigger commit_hash(c)]
                fresh_commit_of(c, tree@, str_views(parents@), spec_author(old(self).config@), message@) && r@
                    == commit_hash(c) && final(self).store@ == with_commit(old(self).store@, c),
    {
        let c = Commit {
            tree,
            parents,
            author: self.author(),
            timestamp: crate::clock::now_rfc3339(),
            message,
            change_id: crate::clock::new_change_id(),
        };
        let ghost cv = c@;
        let h = self.store.write_commit(&c);
        assert(self.store@ == with_commit(old(self).store@, cv));
        h
    }

    /// Builds and stores the tree of `base` with each path of `paths` taken from `full`, and
    /// returns its hash.
    pub fn build_partial_tree(&mut self, base: &FlatTree, full: &FlatTree, paths: &Vec<String>) -> (r: String)
        requires
            old(self).wf(),
            base.wf(),
            full.wf(),
        ensures
            final(self).wf(),
            final(self).work == old(self).work,
            final(self).oplog == old(self).oplog,
            final(self).config == old(self).config,
            ({
                let f = partial_flat(base.view(), full.view(), str_views(paths@));
                r@ == built_hash(flat_seq_of(f)) && final(self).store@ == with_built(old(self).store@, f)
            }),
    {
        let result = partial_tree(base, full, paths);
        proof {
            crate::flat::lemma_flat_seq_of(&result);
        }
        let h = crate::treebuild::build_tree_from_flat(&mut self.store, &result.entries);
        assert(self.store.wf()) by {
            assert(self.store@.commits == old(self).store@.commits);
        }
        h
    }

    /// Makes two commits of the working directory's changes on top of HEAD: the first takes
    /// the paths `first_files` from the working directory into HEAD's files, the second takes
    /// the paths `second_files` on top of the first; the current branch (or `main`) moves to
    /// the second and a `split` is logged.
    pub fn split(
        &mut self,
        first_msg: &str,
        second_msg: &str,
        first_files: &Vec<String>,
        second_files: &Vec<String>,
    ) -> (r: Result<SplitOutcome, VaultError>)
        requires
            old(self).wf(),
        ensures
            final(self).wf(),
            final(self).work == old(self).work,
            ({
                let v0 = old(self).store@;
                let hb = resolve_head_of(v0);
                let sn = work_snapshot(old(self).work);
                let v1 = apply_snap(v0, sn.1);
                let au = spec_author(old(self).config@);
                if hb is None {
                    r matches Err(VaultError::ObjectNotFound(m)) && m@ == "HEAD"@ && *final(self) == *old(self)
                } else if !v0.commits.contains_key(hb->0) {
                    r matches Err(VaultError::ObjectNotFound(_)) && *final(self) == *old(self)
                } else {
                    let h = hb->0;
                    match (tree_files(v1, sn.0), tree_files(v1, v0.commits[h].tree)) {
                        (Some(full), Some(hf)) => {
                            let f1 = partial_flat(hf, full, str_views(first_files@));
                            let t1 = built_hash(flat_seq_of(f1));
                            exists|c1: CommitView|
                                #![trigger commit_hash(c1)]
                                {
                                    let v3 = with_commit(with_built(v1, f1), c1);
                                    &&& fresh_commit_of(c1, t1, seq![h], au, first_msg@)
                                    &&& match tree_files(v3, t1) {
                                        None => r matches Err(VaultError::ObjectNotFound(_)) && final(self).store@
                                            == v3 && final(self).oplog == old(self).oplog,
                                        Some(c1f) => {
                                            let f2 = partial_flat(c1f, full, str_views(second_files@));
                                            let t2 = built_hash(flat_seq_of(f2));
                                            exists|c2: CommitView|
                                                #![trigger commit_hash(c2)]
                                                {
                                                    &&& fresh_commit_of(c2, t2, seq![commit_hash(c1)], au, second_msg@)
                                                    &&& committed(with_built(v3, f2), c2, final(self).store@)
                                                    &&& r matches Ok(x) && x.first_hash@ == commit_hash(c1)
                                                        && x.second_hash@ == commit_hash(c2)
                                                    &&& logged(
                                                        op_views(old(self).oplog.entries@),
                                                        op_views(final(self).oplog.entries@),
                                                        "split"@,
                                                        Some(h),
                                                        Some(commit_hash(c2)),
                                                        Some(moving_branch(v0)),
                                                        Some(first_msg@ + " / "@ + second_msg@),
                                                        None,
                                                    )
                                                }
                                        },
                                    }
                                }
                        },
                        _ => r matches Err(VaultError::ObjectNotFound(_)) && final(self).store@ == v1
                            && final(self).oplog == old(self).oplog,
                    }
                }
            }),
    {
        let head_hash = match self.store.resolve_head() {
            Some(h) => h,
            None => return Err(VaultError::ObjectNotFound(crate::text::owned("HEAD"))),
        };
        let head_commit = self.store.read_commit(head_hash.as_str())?;
        let ghost v0 = self.store@;
        let full_tree_hash = self.snapshot_working_dir();
        proof {
            crate::repo::lemma_snap_keeps_commits(v0, work_snapshot(old(self).work).1);
        }
        let ghost v1 = self.store@;
        let full_flat = crate::diff::flatten(&self.store, full_tree_hash.as_str())?;
        let head_flat = crate::diff::flatten(&self.store, head_commit.tree.as_str())?;
        let commit1_tree = self.build_partial_tree(&head_flat, &full_flat, first_files);
        let ghost v2 = self.store@;
        let mut p1: Vec<String> = Vec::new();
        p1.push(head_hash.clone());
        assert(str_views(p1@) =~= seq![head_hash@]);
        let hash1 = self.new_commit_on(commit1_tree.clone(), p1, crate::text::owned(first_msg));
        let ghost c1 = choose|c: CommitView|
            #![trigger commit_hash(c)]
            fresh_commit_of(c, commit1_tree@, seq![head_hash@], spec_author(old(self).config@), first_msg@) && hash1@
                == commit_hash(c) && self.store@ == with_commit(v2, c);
        let ghost v3 = self.store@;
        let commit1_flat = match crate::diff::flatten(&self.store, commit1_tree.as_str()) {
            Ok(f) => f,
            Err(e) => {
                return Err(e);
            },
        };
        let commit2_tree = self.build_partial_tree(&commit1_flat, &full_flat, second_files);
        let ghost v4 = self.store@;
        let mut p2: Vec<String> = Vec::new();
        p2.push(hash1.clone());
        assert(str_views(p2@) =~= seq![hash1@]);
        let hash2 = self.new_commit_on(commit2_tree.clone(), p2, crate::text::owned(second_msg));
        let ghost c2 = choose|c: CommitView|
            #![trigger commit_hash(c)]
            fresh_commit_of(c, commit2_tree@, seq![hash1@], spec_author(old(self).config@), second_msg@) && hash2@
                == commit_hash(c) && self.store@ == with_commit(v4, c);
        let branch = self.moving_branch_name();
        self.store.write_branch(branch.as_str(), hash2.as_str());
        assert(committed(v4, c2, self.store@));
        let m = crate::text::concat(first_msg, " / ");
        let m = crate::text::concat(m.as_str(), second_msg);
        self.log_op("split", Some(head_hash), Some(hash2.clone()), Some(branch), Some(m), None);
        Ok(SplitOutcome { first_hash: hash1, second_hash: hash2 })
    }
}

/// Some of the first `i` entries of `fs` is at `p`.
spec fn in_prefix(fs: Seq<crate::flat::FlatView>, i: int, p: Seq<char>) -> bool {
    exists|k: int| 0 <= k < i && fs[k].path == p
}

/// The files of `base` with each path of `paths` taken from `full`.
fn partial_tree(base: &FlatTree, full: &FlatTree, paths: &Vec<String>) -> (r: FlatTree)
    requires
        base.wf(),
        full.wf(),
    ensures
        r.wf(),
        r.view() == partial_flat(base.view(), full.view(), str_views(paths@)),
{
    let ghost ps = str_views(paths@);
    let mut result = base.duplicate();
    let ghost fs = full.seqv();
    let mut i: usize = 0;
    proof {
        crate::flat::lemma_seq_to_map(fs);
    }
    while i < full.entries.len()
        invariant
            i <= fs.len(),
            fs == full.seqv(),
            full.wf(),
            base.wf(),
            result.wf(),
            ps == str_views(paths@),
            result.view() == Map::new(
                |p: Seq<char>|
                    if ps.contains(p) && in_prefix(fs, i as int, p) {
                        true
                    } else {
                        base.view().contains_key(p)
                    },
                |p: Seq<char>|
                    if ps.contains(p) && in_prefix(fs, i as int, p) {
                        full.view()[p]
                    } else {
                        base.view()[p]
                    },
            ),
        decreases full.entries.len() - i,
    {
        proof {
            crate::flat::lemma_seq_to_map(fs);
        }
        let e = &full.entries[i];
        assert(fs[i as int] == e@);
        let ghost before = result.view();
        if contains_text(paths, e.path.as_str()) {
            result.insert(e.path.clone(), e.kind, e.hash.clone());
        }
        proof {
            assert forall|p: Seq<char>| p != e@.path implies (in_prefix(fs, i + 1, p)
                == in_prefix(fs, i as int, p)) by {
                if in_prefix(fs, i + 1, p) {
                    let k = choose|k: int| 0 <= k < i + 1 && fs[k].path == p;
                    assert(k != i);
                }
                if in_prefix(fs, i as int, p) {
                    let k = choose|k: int| 0 <= k < i && fs[k].path == p;
                    assert(0 <= k < i + 1 && fs[k].path == p);
                }
            }
            assert(full.view()[e@.path] == (e@.kind, e@.hash));
            assert(in_prefix(fs, i + 1, e@.path)) by {
                assert(fs[i as int].path == e@.path);
            }
            assert(result.view() =~= Map::new(
                |p: Seq<char>|
                    if ps.contains(p) && in_prefix(fs, i + 1, p) {
                        true
                    } else {
                        base.view().contains_key(p)
                    },
                |p: Seq<char>|
                    if ps.contains(p) && in_prefix(fs, i + 1, p) {
                        full.view()[p]
                    } else {
                        base.view()[p]
                    },
            ));
        }
        i = i + 1;
    }
    let mut j: usize = 0;
    while j < paths.len()
        invariant
            j <= paths@.len(),
            fs == full.seqv(),
            full.wf(),
            base.wf(),
            result.wf(),
            ps == str_views(paths@),
            result.view() == Map::new(
                |p: Seq<char>|
                    if ps.contains(p) && in_prefix(fs, fs.len() as int, p) {
                        true
                    } else if ps.take(j as int).contains(p) {
                        false
                    } else {
                        base.view().contains_key(p)
                    },
                |p: Seq<char>|
                    if ps.contains(p) && in_prefix(fs, fs.len() as int, p) {
                        full.view()[p]
                    } else {
                        base.view()[p]
                    },
            ),
        decreases paths.len() - j,
    {
        proof {
            crate::flat::lemma_seq_to_map(fs);
        }
        assert(ps[j as int] == paths@[j as int]@);
        if !full.contains_key(paths[j].as_str()) {
            result.remove(paths[j].as_str());
        }
        proof {
            let t0 = ps.take(j as int);
            let t1 = ps.take(j + 1);
            assert(t1 =~= t0.push(ps[j as int]));
            assert forall|p: Seq<char>| #[trigger] t1.contains(p) == (t0.contains(p) || p == ps[j as int]) by {
                if t1.contains(p) {
                    let k = choose|k: int| 0 <= k < t1.len() && t1[k] == p;
                    if k < j {
                        assert(t0[k] == p);
                    }
                }
                if t0.contains(p) {
                    let k = choose|k: int| 0 <= k < t0.len() && t0[k] == p;
                    assert(t1[k] == p);
                }
                if p == ps[j as int] {
                    assert(t1[j as int] == p);
                }
            }
            assert(ps.contains(ps[j as int]));
            assert(result.view() =~= Map::new(
                |p: Seq<char>|
                    if ps.contains(p) && in_prefix(fs, fs.len() as int, p) {
                        true
                    } else if ps.take(j + 1).contains(p) {
                        false
                    } else {
                        base.view().contains_key(p)
                    },
                |p: Seq<char>|
                    if ps.contains(p) && in_prefix(fs, fs.len() as int, p) {
                        full.view()[p]
                    } else {
                        base.view()[p]
                    },
            ));
        }
        j = j + 1;
    }
    proof {
        crate::flat::lemma_seq_to_map(fs);
        assert(ps.take(ps.len() as int) =~= ps);
        assert(result.view() =~= partial_flat(base.view(), full.view(), ps));
    }
    result
}

/// Whether `v` holds the text `t`.
pub fn contains_text(v: &Vec<String>, t: &str) -> (r: bool)
    ensures
        r == str_views(v@).contains(t@),
{
    let tt = crate::text::owned(t);
    let mut i: usize = 0;
    while i < v.len()
        invariant
            i <= v@.len(),
            tt@ == t@,
            forall|k: int| 0 <= k < i ==> v@[k]@ != t@,
        decreases v.len() - i,
    {
        if v[i] == tt {
            assert(str_views(v@)[i as int] == t@);
            return true;
        }
        i = i + 1;
    }
    assert(!str_views(v@).contains(t@)) by {
        if str_views(v@).contains(t@) {
            let k = choose|k: int| 0 <= k < str_views(v@).len() && str_views(v@)[k] == t@;
            assert(v@[k]@ == t@);
        }
    }
    false
}

/// Replaces, in HEAD's commit `head_hash`, the entry of `path` by the blob `blob_hash`: the
/// new tree is built and a copy of the commit (same parents, author, time, message and change
/// id) is stored on it; the current branch (or `main`) moves to the copy.
pub fn update_tree_resolve(repo: &mut Repo, head_hash: &str, path: &str, blob_hash: &str) -> (r: Result<
    (),
    VaultError,
>)
    requires
        old(repo).wf(),
    ensures
        final(repo).wf(),
        final(repo).work == old(repo).work,
        final(repo).oplog == old(repo).oplog,
        ({
            let v0 = old(repo).store@;
            if !v0.commits.contains_key(head_hash@) {
                r matches Err(VaultError::ObjectNotFound(_)) && final(repo).store@ == v0
            } else {
                let hc = v0.commits[head_hash@];
                match tree_files(v0, hc.tree) {
                    None => r matches Err(VaultError::ObjectNotFound(_)) && final(repo).store@ == v0,
                    Some(m) => {
                        let f = m.insert(path@, (crate::objects::EntryKind::Blob, blob_hash@));
                        let c = CommitView { tree: built_hash(flat_seq_of(f)), ..hc };
                        r is Ok && committed(with_built(v0, f), c, final(repo).store@)
                    },
                }
            }
        }),
{
    let head_commit = repo.store.read_commit(head_hash)?;
    let mut flat = crate::diff::flatten(&repo.store, head_commit.tree.as_str())?;
    flat.insert(crate::text::owned(path), crate::objects::EntryKind::Blob, crate::text::owned(blob_hash));
    proof {
        crate::flat::lemma_flat_seq_of(&flat);
    }
    let ghost v0 = repo.store@;
    let new_tree_hash = crate::treebuild::build_tree_from_flat(&mut repo.store, &flat.entries);
    assert(repo.store.wf()) by {
        assert(repo.store@.commits == v0.commits);
    }
    let ghost v1 = repo.store@;
    let new_commit = Commit {
        tree: new_tree_hash,
        parents: crate::objects::copy_strings(&head_commit.parents),
        author: head_commit.author.duplicate(),
        timestamp: head_commit.timestamp.clone(),
        message: head_commit.message.clone(),
        change_id: head_commit.change_id.clone(),
    };
    let ghost cv = new_commit@;
    let new_hash = repo.store.write_commit(&new_commit);
    let branch = repo.moving_branch_name();
    repo.store.write_branch(branch.as_str(), new_hash.as_str());
    assert(committed(v1, cv, repo.store@));
    Ok(())
}

/// Makes two commits on top of HEAD from the working directory: the first takes the paths
/// `first` from the working directory into HEAD's files, the second also the paths
/// `second`; the current branch (or `main`) moves to the second. Returns both hashes.
pub fn commit_split(
    repo: &mut Repo,
    first: &Vec<String>,
    message1: &str,
    second: &Vec<String>,
    message2: &str,
) -> (r: Result<(String, String), VaultError>)
    requires
        old(repo).wf(),
    ensures
        final(repo).wf(),
        final(repo).work == old(repo).work,
        final(repo).oplog == old(repo).oplog,
        ({
            let v0 = old(repo).store@;
            let hb = resolve_head_of(v0);
            let sn = work_snapshot(old(repo).work);
            let v1 = apply_snap(v0, sn.1);
            let au = spec_author(old(repo).config@);
            if head_missing(v0) {
                r matches Err(VaultError::ObjectNotFound(_)) && final(repo).store@ == v0
            } else {
                let base = match hb {
                    Some(h) => tree_files(v1, v0.commits[h].tree),
                    None => Some(Map::empty()),
                };
                match (base, tree_files(v1, sn.0)) {
                    (Some(bf), Some(wf)) => {
                        let f1 = partial_flat(bf, wf, str_views(first@));
                        let f2 = partial_flat(f1, wf, str_views(second@));
                        let v2 = with_built(with_built(v1, f1), f2);
                        exists|c1: CommitView, c2: CommitView|
                            #![trigger commit_hash(c1), commit_hash(c2)]
                            {
                                &&& fresh_commit_of(c1, built_hash(flat_seq_of(f1)), head_parents(hb), au, message1@)
                                &&& fresh_commit_of(c2, built_hash(flat_seq_of(f2)), seq![commit_hash(c1)], au, message2@)
                                &&& committed(with_commit(v2, c1), c2, final(repo).store@)
                                &&& r matches Ok(x) && x.0@ == commit_hash(c1) && x.1@ == commit_hash(c2)
                            }
                    },
                    _ => r matches Err(VaultError::ObjectNotFound(_)) && final(repo).store@ == v1,
                }
            }
        }),
{
    let head_hash = repo.store.resolve_head();
    let base_tree = match &head_hash {
        Some(h) => Some(repo.store.read_commit(h.as_str())?.tree),
        None => None,
    };
    let ghost v0 = repo.store@;
    let work_tree = repo.snapshot_working_dir();
    proof {
        crate::repo::lemma_snap_keeps_commits(v0, work_snapshot(old(repo).work).1);
    }
    let base_flat = match &base_tree {
        Some(bt) => crate::diff::flatten(&repo.store, bt.as_str())?,
        None => {
            let f = FlatTree::new();
            f
        },
    };
    let work_flat = crate::diff::flatten(&repo.store, work_tree.as_str())?;
    let tree1 = partial_tree(&base_flat, &work_flat, first);
    let tree2 = partial_tree(&tree1, &work_flat, second);
    proof {
        crate::flat::lemma_flat_seq_of(&tree1);
        crate::flat::lemma_flat_seq_of(&tree2);
    }
    let ghost vb = repo.store@;
    let tree1_hash = crate::treebuild::build_tree_from_flat(&mut repo.store, &tree1.entries);
    let tree2_hash = crate::treebuild::build_tree_from_flat(&mut repo.store, &tree2.entries);
    assert(repo.store.wf()) by {
        assert(repo.store@.commits == vb.commits);
    }
    let ghost v2 = repo.store@;
    let branch = repo.moving_branch_name();
    let parents: Vec<String> = match &head_hash {
        Some(h) => {
            let mut p: Vec<String> = Vec::new();
            p.push(h.clone());
            p
        },
        None => Vec::new(),
    };
    assert(str_views(parents@) =~= head_parents(resolve_head_of(v0)));
    let hash1 = repo.new_commit_on(tree1_hash, parents, crate::text::owned(message1));
    let ghost c1 = choose|c: CommitView|
        #![trigger commit_hash(c)]
        fresh_commit_of(c, built_hash(flat_seq_of(tree1.view())), head_parents(resolve_head_of(v0)), spec_author(old(repo).config@), message1@)
            && hash1@ == commit_hash(c) && repo.store@ == with_commit(v2, c);
    let ghost v3 = repo.store@;
    let mut p2: Vec<String> = Vec::new();
    p2.push(hash1.clone());
    assert(str_views(p2@) =~= seq![hash1@]);
    let hash2 = repo.new_commit_on(tree2_hash, p2, crate::text::owned(message2));
    let ghost c2 = choose|c: CommitView|
        #![trigger commit_hash(c)]
        fresh_commit_of(c, built_hash(flat_seq_of(tree2.view())), seq![hash1@], spec_author(old(repo).config@), message2@)
            && hash2@ == commit_hash(c) && repo.store@ == with_commit(v3, c);
    assert(current_branch_of(v3) == current_branch_of(v0));
    repo.store.write_branch(branch.as_str(), hash2.as_str());
    assert(committed(v3, c2, repo.store@));
    Ok((hash1, hash2))
}

} // verus!
