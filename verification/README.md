# vault_core

A small content-addressed version control system, verified with Verus.

Files are stored as blobs named by their BLAKE3 hash, directories as trees of named
entries, and history as commits that point at a root tree and at their parents. Branches
and `HEAD` name commits; an operation log records every change of `HEAD` so that it can be
undone. On top of that the library offers line diffs, three-way merges, cherry-picks,
squashes and splits, named stashes and snapshots, tags, ignore patterns and remotes.

## Layout

- `src/` is the verified library. Every operation works on values: the object store, the
  working directory (`WorkDir`, which also records the file-system changes an operation
  makes), the operation log, stashes, snapshots and tags. Each public function states what
  it returns and how it changes those values; the laws that relate several operations are
  public proof functions, among them:
  - `store::lemma_branch_write_read`, `store::lemma_object_write_read`: a read gives back
    what was written, and nothing else changes;
  - `snaprestore::lemma_snapshot_restores`: restoring the tree that a snapshot of the
    working directory recorded gives the working directory back;
  - `rebuild::lemma_flatten_of_built`: flattening the tree built from a list of files gives
    back those files;
  - `oplog::lemma_undo_takes_last`, `oplog::lemma_undo_moves_back`: undo takes back the
    latest operation that moved `HEAD`, and never the same one twice;
  - `history::lemma_undo_to_empty`: undoing the first save leaves `HEAD` on no commit;
  - `store::lemma_branch_names_once`: writing branches keeps each name listed once;
  - `worktree::lemma_snapshot_again`: snapshotting an unchanged working directory again
    stores nothing new;
  - `history::lemma_diff_with_itself`: a commit's diff with itself is empty;
  - `cherry::lemma_pick_onto_parent_files`, `cherry::lemma_pick_onto_parent_result`: picking
    a commit onto its parent conflicts nowhere and gives the tree built from the commit's
    files;
  - `snaprestore::lemma_restore_then_snapshot`, `worktree::lemma_snapshot_of_view`: a
    snapshot depends on the working directory's content alone, and restoring a snapshot's
    tree and snapshotting again gives its hash back;
  - `history::lemma_merge_keeps_both`: a merge commit keeps both histories;
  - `history::lemma_switch_undone`: a switch taken back by undo gives the store back;
  - `store::lemma_branch_listing`: branches written in turn are listed once each and read
    back as last written;
  - `treebuild::lemma_built_trees_sorted`, `treebuild::lemma_build_depends_on_files`: built
    trees list their entries in name order, and depend on the files alone;
  - `merge::lemma_merge_with_itself`, `cherry::lemma_pick_onto_parent`,
    `stash::lemma_stash_save_get`, `snapshot::lemma_snapshot_save_get`,
    `remote::lemma_added_remote_listed`, `term::lemma_fit_width`.

  The store lists every object written since it was loaded (`ObjectStore::written`), and
  its well-formedness says that every stored object was either loaded or is so listed, which
  is what the command line persists. `dag::merge_base` gives a lowest common ancestor,
  `dag::log_walk` lists commits newest first, `sync::collect_local_objects` sends every commit
  that the other side's commits do not reach, and the decisions of the two full-screen
  commands are `screens::resolve_step` and `screens::split_step`.
- `app/` is the `vault` command line: it reads the repository from disk into the
  library's values, runs one operation, writes back what changed and prints the result.
- `tests/` runs the library on concrete repositories.
