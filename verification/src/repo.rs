//! A repository: its object store, operation log, configuration, working directory, stashes,
//! snapshots and tags, and the operations on them.
use vstd::prelude::*;
use crate::checkout::{cleaned, restorable, restored, tree_layout};
use crate::diff::walk_depth;
use crate::error::VaultError;
use crate::ignore::{first_match, pattern_lines, spec_patterns};
use crate::objects::{Author, AuthorView};
use crate::oplog::OpLog;
use crate::snapshot::{SnapshotEntry, SnapshotStore, snapshot_views};
use crate::stash::{StashEntry, StashStore, stash_views};
use crate::store::{ObjectStore, StoreView, resolve_head_of};
use crate::text::{spec_lines, spec_trim};
use crate::workdir::{WorkDir, WorkItem};
use crate::worktree::{SnapWrite, apply_snap, snap_dir};

verus! {

/// A tag: a name for a commit.
#[derive(Debug)]
pub struct Tag {
    pub name: String,
    pub target: String,
}

/// A repository.
pub struct Repo {
    pub work_dir: String,
    pub vault_dir: String,
    pub store: ObjectStore,
    pub oplog: OpLog,
    pub config: String,
    pub work: WorkDir,
    pub stashes: StashStore,
    pub snapshots: SnapshotStore,
    pub tags: Vec<Tag>,
}

/// The author lines read so far: the last `name = ` and `email = ` values.
pub open spec fn author_line(a: AuthorView, raw: Seq<char>) -> AuthorView {
    let l = spec_trim(raw);
    let a1 = if "name = "@.is_prefix_of(l) {
        AuthorView { name: spec_trim(l.skip(7)), ..a }
    } else {
        a
    };
    if "email = "@.is_prefix_of(l) {
        AuthorView { email: spec_trim(l.skip(8)), ..a1 }
    } else {
        a1
    }
}

/// The author that the lines `ls` name, starting from the defaults.
pub open spec fn author_lines(ls: Seq<Seq<char>>) -> AuthorView
    decreases ls.len(),
{
    if ls.len() == 0 {
        AuthorView { name: "Unknown"@, email: "unknown@vault.com"@ }
    } else {
        author_line(author_lines(ls.drop_last()), ls.last())
    }
}

/// The author that a configuration text names.
pub open spec fn spec_author(config: Seq<char>) -> AuthorView {
    author_lines(spec_lines(config))
}

/// The path of the ignore file.
pub open spec fn ignore_path() -> Seq<char> {
    ".vaultignore"@
}

/// The text of the ignore file, or nothing when it is missing, not a file, or not UTF-8.
pub open spec fn ignore_text(m: Map<Seq<char>, WorkItem>) -> Seq<char> {
    if m.contains_key(ignore_path()) {
        match m[ignore_path()] {
            WorkItem::File(c) => if vstd::utf8::valid_utf8(c) {
                vstd::utf8::decode_utf8(c)
            } else {
                Seq::empty()
            },
            WorkItem::Dir => Seq::empty(),
        }
    } else {
        Seq::empty()
    }
}

/// The ignore patterns of a working directory.
pub open spec fn work_patterns(m: Map<Seq<char>, WorkItem>) -> Seq<Seq<char>> {
    spec_patterns(ignore_text(m))
}

/// The tree hash of a snapshot of the working directory, and the objects it writes.
pub open spec fn work_snapshot(w: WorkDir) -> (Seq<char>, Seq<SnapWrite>) {
    snap_dir(w.paths.seqv(), w@, work_patterns(w@), Seq::empty(), walk_depth())
}

/// Whether writing the stored tree `t` into the working directory `m` succeeds, and the
/// working directory afterwards.
pub open spec fn restore_outcome(v: StoreView, m: Map<Seq<char>, WorkItem>, t: Seq<char>) -> (bool, Map<
    Seq<char>,
    WorkItem,
>) {
    let c = cleaned(m, work_patterns(m));
    match tree_layout(v, t) {
        None => (false, c),
        Some(l) => if restorable(v, c, l) {
            (true, restored(v, c, l))
        } else {
            (false, c)
        },
    }
}

/// `e` is the error of writing the stored tree `t` into the working directory `m`: the tree
/// is missing, or it is the error of the first entry that does not fit.
pub open spec fn restore_failure(v: StoreView, m: Map<Seq<char>, WorkItem>, t: Seq<char>, e: VaultError) -> bool {
    match tree_layout(v, t) {
        None => e is ObjectNotFound,
        Some(l) => crate::checkout::restore_error(v, cleaned(m, work_patterns(m)), l, e),
    }
}

/// The values of a list of tags.
pub open spec fn tag_views(v: Seq<Tag>) -> Seq<(Seq<char>, Seq<char>)> {
    v.map_values(|t: Tag| (t.name@, t.target@))
}

/// Some tag is named `n`.
pub open spec fn has_tag(v: Seq<(Seq<char>, Seq<char>)>, n: Seq<char>) -> bool {
    exists|i: int| 0 <= i < v.len() && #[trigger] v[i].0 == n
}

/// Some line of `text`, trimmed, is `p`.
pub open spec fn has_pattern_line(text: Seq<char>, p: Seq<char>) -> bool {
    exists|i: int| 0 <= i < spec_lines(text).len() && spec_trim(#[trigger] spec_lines(text)[i]) == p
}

/// Where the repository is: given, for the start directory and then each of its parents in
/// turn, whether it holds a vault directory, the index of the first that does; none when no
/// directory up to the root does.
pub fn find_root(has_vault: &Vec<bool>) -> (r: Option<usize>)
    ensures
        match r {
            Some(i) => i < has_vault@.len() && has_vault@[i as int] && forall|j: int| 0 <= j < i ==> !has_vault@[j],
            None => forall|j: int| 0 <= j < has_vault@.len() ==> !has_vault@[j],
        },
{
    let mut i: usize = 0;
    while i < has_vault.len()
        invariant
            i <= has_vault@.len(),
            forall|j: int| 0 <= j < i ==> !has_vault@[j],
        decreases has_vault.len() - i,
    {
        if has_vault[i] {
            return Some(i);
        }
        i = i + 1;
    }
    None
}

impl Repo {
    /// The store is consistent and the working directory well formed.
    pub open spec fn wf(&self) -> bool {
        self.store.wf() && self.work.wf()
    }

    /// The repository of the working directory `work_dir` with its vault directory at
    /// `vault_dir`, from what was read of them.
    pub fn open(
        work_dir: String,
        vault_dir: String,
        store: ObjectStore,
        oplog: OpLog,
        config: String,
        work: WorkDir,
        stashes: StashStore,
        snapshots: SnapshotStore,
        tags: Vec<Tag>,
    ) -> (r: Repo)
        ensures
            r.work_dir == work_dir,
            r.vault_dir == vault_dir,
            r.store == store,
            r.oplog == oplog,
            r.config == config,
            r.work == work,
            r.stashes == stashes,
            r.snapshots == snapshots,
            r.tags == tags,
    {
        Repo { work_dir, vault_dir, store, oplog, config, work, stashes, snapshots, tags }
    }

    /// The author that the configuration names: the last `name = ` and `email = ` lines,
    /// trimmed, or `Unknown` and `unknown@vault.com`.
    pub fn author(&self) -> (r: Author)
        ensures
            r@ == spec_author(self.config@),
    {
        let ls = crate::text::lines(self.config.as_str());
        let ghost lv = ls@.map_values(|s: String| s@);
        let mut name = crate::text::owned("Unknown");
        let mut email = crate::text::owned("unknown@vault.com");
        let mut i: usize = 0;
        assert(lv.take(0) =~= Seq::<Seq<char>>::empty());
        while i < ls.len()
            invariant
                i <= lv.len(),
                lv == ls@.map_values(|s: String| s@),
                lv == spec_lines(self.config@),
                (AuthorView { name: name@, email: email@ }) == author_lines(lv.take(i as int)),
            decreases ls.len() - i,
        {
            assert(lv.take(i + 1).drop_last() =~= lv.take(i as int));
            assert(lv.take(i + 1).last() == ls@[i as int]@);
            proof {
                reveal_strlit("name = ");
                reveal_strlit("email = ");
            }
            let line = crate::text::trim(ls[i].as_str());
            if let Some(v) = crate::text::strip_prefix(line.as_str(), "name = ") {
                name = crate::text::trim(v.as_str());
            }
            if let Some(v) = crate::text::strip_prefix(line.as_str(), "email = ") {
                email = crate::text::trim(v.as_str());
            }
            i = i + 1;
        }
        assert(lv.take(lv.len() as int) =~= lv);
        Author { name, email }
    }

    /// The text of the ignore file, or nothing.
    fn ignore_file_text(&self) -> (r: String)
        requires
            self.work.wf(),
        ensures
            r@ == ignore_text(self.work@),
    {
        match self.work.file(".vaultignore") {
            Some(c) => match crate::text::utf8_decode(c.as_slice()) {
                Some(s) => s,
                None => String::new(),
            },
            None => {
                if self.work.holds(".vaultignore") {
                    assert(self.work@[ignore_path()] is Dir);
                }
                String::new()
            },
        }
    }

    /// The ignore patterns: the lines of the ignore file that are neither blank nor start with
    /// `#`, trimmed.
    pub fn ignored_patterns(&self) -> (r: Vec<String>)
        requires
            self.work.wf(),
        ensures
            r@.map_values(|s: String| s@) == work_patterns(self.work@),
    {
        let t = self.ignore_file_text();
        crate::ignore::parse_patterns(t.as_str())
    }

    /// Whether some of `patterns` matches `rel_path`.
    pub fn is_ignored(&self, rel_path: &str, patterns: &Vec<String>) -> (r: bool)
        ensures
            r == crate::ignore::spec_ignored(rel_path@, patterns@.map_values(|s: String| s@)),
    {
        crate::ignore::is_ignored(rel_path, patterns)
    }

    /// Records the working directory, without the ignored paths, as trees of the store and
    /// returns the root tree's hash.
    pub fn snapshot_working_dir(&mut self) -> (r: String)
        requires
            old(self).wf(),
        ensures
            final(self).wf(),
            final(self).store.commit_keys == old(self).store.commit_keys,
            old(self).store.recorded() ==> final(self).store.recorded(),
            r@ == work_snapshot(old(self).work).0,
            final(self).store@ == apply_snap(old(self).store@, work_snapshot(old(self).work).1),
            final(self).work == old(self).work,
            final(self).oplog == old(self).oplog,
            final(self).config == old(self).config,
            final(self).stashes == old(self).stashes,
            final(self).snapshots == old(self).snapshots,
            final(self).tags == old(self).tags,
    {
        let patterns = self.ignored_patterns();
        let h = crate::worktree::snapshot(&mut self.store, &self.work, &patterns);
        proof {
            lemma_snap_keeps_commits(old(self).store@, work_snapshot(old(self).work).1);
        }
        h
    }

    /// Replaces the working directory's content by the stored tree `tree_hash` (see
    /// `checkout::restore`), the ignored paths left alone.
    pub fn restore_tree(&mut self, tree_hash: &str) -> (r: Result<(), VaultError>)
        requires
            old(self).wf(),
        ensures
            final(self).wf(),
            final(self).work.follows(old(self).work),
            final(self).store == old(self).store,
            final(self).oplog == old(self).oplog,
            final(self).config == old(self).config,
            final(self).stashes == old(self).stashes,
            final(self).snapshots == old(self).snapshots,
            final(self).tags == old(self).tags,
            final(self).work_dir == old(self).work_dir,
            final(self).vault_dir == old(self).vault_dir,
            r is Ok == restore_outcome(old(self).store@, old(self).work@, tree_hash@).0,
            final(self).work@ == restore_outcome(old(self).store@, old(self).work@, tree_hash@).1,
            ({
                let c = cleaned(old(self).work@, work_patterns(old(self).work@));
                let v = old(self).store@;
                match tree_layout(v, tree_hash@) {
                    None => r matches Err(VaultError::ObjectNotFound(_)) && final(self).work@ == c,
                    Some(l) => if restorable(v, c, l) {
                        r is Ok && final(self).work@ == restored(v, c, l)
                    } else {
                        r matches Err(e) && crate::checkout::restore_error(v, c, l, e) && final(self).work@ == c
                    },
                }
            }),
    {
        let patterns = self.ignored_patterns();
        crate::checkout::restore(&self.store, &mut self.work, &patterns, tree_hash)
    }

    /// The first ignore pattern that matches `file`, if any.
    pub fn ignore_check(&self, file: &str) -> (r: Result<Option<String>, VaultError>)
        requires
            self.work.wf(),
        ensures
            r matches Ok(o) && match o {
                Some(p) => first_match(file@, work_patterns(self.work@)) == Some(p@),
                None => first_match(file@, work_patterns(self.work@)) is None,
            },
    {
        let patterns = self.ignored_patterns();
        Ok(crate::ignore::first_matching(file, &patterns))
    }

    /// The pattern lines of the ignore file, as they stand; none when it is missing; an error
    /// when it cannot be read as text.
    pub fn ignore_list(&self) -> (r: Result<Vec<String>, VaultError>)
        requires
            self.work.wf(),
        ensures
            !self.work@.contains_key(ignore_path()) ==> (r matches Ok(v) && v@.len() == 0),
            self.work@.contains_key(ignore_path()) ==> match self.work@[ignore_path()] {
                WorkItem::File(c) => if vstd::utf8::valid_utf8(c) {
                    r matches Ok(v) && v@.map_values(|s: String| s@) == pattern_lines(
                        spec_lines(vstd::utf8::decode_utf8(c)),
                    )
                } else {
                    r matches Err(VaultError::Io(_))
                },
                WorkItem::Dir => r matches Err(VaultError::Io(_)),
            },
    {
        if !self.work.holds(".vaultignore") {
            return Ok(Vec::new());
        }
        match self.work.file(".vaultignore") {
            Some(c) => match crate::text::utf8_decode(c.as_slice()) {
                Some(s) => Ok(crate::ignore::pattern_line_list(s.as_str())),
                None => Err(VaultError::Io(crate::text::owned("stream did not contain valid UTF-8"))),
            },
            None => Err(VaultError::Io(crate::text::owned("Is a directory"))),
        }
    }

    /// Adds `pattern` as a line of the ignore file, unless some line already is `pattern`
    /// once trimmed.
    pub fn ignore_add(&mut self, pattern: &str) -> (r: Result<(), VaultError>)
        requires
            old(self).wf(),
        ensures
            final(self).wf(),
            final(self).work.follows(old(self).work),
            final(self).store == old(self).store,
            final(self).oplog == old(self).oplog,
            ({
                let t = ignore_text(old(self).work@);
                if has_pattern_line(t, pattern@) {
                    r is Ok && final(self).work@ == old(self).work@
                } else if old(self).work@.contains_key(ignore_path()) && old(self).work@[ignore_path()] is Dir {
                    r matches Err(VaultError::Io(_)) && final(self).work@ == old(self).work@
                } else {
                    r is Ok && final(self).work@ == old(self).work@.insert(
                        ignore_path(),
                        WorkItem::File(
                            vstd::utf8::encode_utf8(
                                crate::text::spec_trim_end(t) + "\n"@ + pattern@ + "\n"@,
                            ),
                        ),
                    )
                }
            }),
            r is Ok && !pattern@.contains('\n') && spec_trim(pattern@) == pattern@ ==> has_pattern_line(
                ignore_text(final(self).work@),
                pattern@,
            ),
    {
        let current = self.ignore_file_text();
        let ls = crate::text::lines(current.as_str());
        let ghost lv = ls@.map_values(|s: String| s@);
        let p = crate::text::owned(pattern);
        let mut i: usize = 0;
        while i < ls.len()
            invariant
                i <= lv.len(),
                lv == ls@.map_values(|s: String| s@),
                lv == spec_lines(current@),
                current@ == ignore_text(self.work@),
                *self == *old(self),
                self.wf(),
                p@ == pattern@,
                forall|k: int| 0 <= k < i ==> spec_trim(#[trigger] lv[k]) != pattern@,
            decreases ls.len() - i,
        {
            let t = crate::text::trim(ls[i].as_str());
            assert(lv[i as int] == ls@[i as int]@);
            if t == p {
                proof {
                    crate::workdir::lemma_follows_refl(self.work);
                    assert(spec_trim(spec_lines(current@)[i as int]) == pattern@);
                }
                return Ok(());
            }
            i = i + 1;
        }
        if self.work.is_dir(".vaultignore") {
            proof {
                crate::workdir::lemma_follows_refl(self.work);
            }
            return Err(VaultError::Io(crate::text::owned("Is a directory")));
        }
        let t = crate::text::trim_end(current.as_str());
        let t = crate::text::concat(t.as_str(), "\n");
        let t = crate::text::concat(t.as_str(), pattern);
        let t = crate::text::concat(t.as_str(), "\n");
        self.work.write_file(".vaultignore", t.as_str().as_bytes());
        proof {
            vstd::utf8::encode_utf8_valid_utf8(t@);
            vstd::utf8::encode_utf8_decode_utf8(t@);
            if !pattern@.contains('\n') && spec_trim(pattern@) == pattern@ {
                if pattern@.len() > 0 {
                    crate::text::lemma_trimmed_end(pattern@);
                }
                crate::text::lemma_last_line(crate::text::spec_trim_end(current@), pattern@);
                let ls = spec_lines(t@);
                let i = choose|i: int| 0 <= i < ls.len() && #[trigger] ls[i] == pattern@;
                assert(spec_trim(ls[i]) == pattern@);
            }
        }
        Ok(())
    }

    /// The stashes, oldest first.
    pub fn stash_list(&self) -> (r: Result<Vec<StashEntry>, VaultError>)
        ensures
            r matches Ok(v) && stash_views(v@) == stash_views(self.stashes.entries@),
    {
        Ok(self.stashes.list())
    }

    /// Removes the stash `name`.
    pub fn stash_drop(&mut self, name: &str) -> (r: Result<(), VaultError>)
        ensures
            final(self).work == old(self).work,
            final(self).store == old(self).store,
            final(self).oplog == old(self).oplog,
            if crate::stash::first_stash(stash_views(old(self).stashes.entries@), name@) is Some {
                r is Ok && stash_views(final(self).stashes.entries@) == crate::stash::stashes_without(
                    stash_views(old(self).stashes.entries@),
                    name@,
                )
            } else {
                r matches Err(VaultError::ObjectNotFound(_)) && stash_views(final(self).stashes.entries@)
                    == stash_views(old(self).stashes.entries@)
            },
    {
        self.stashes.drop(name)
    }

    /// Writes the tree of the stash `name` into the working directory.
    pub fn stash_restore(&mut self, name: &str) -> (r: Result<(), VaultError>)
        requires
            old(self).wf(),
        ensures
            final(self).wf(),
            final(self).work.follows(old(self).work),
            final(self).store == old(self).store,
            final(self).stashes == old(self).stashes,
            match crate::stash::first_stash(stash_views(old(self).stashes.entries@), name@) {
                None => r matches Err(VaultError::ObjectNotFound(_)) && final(self).work@ == old(self).work@,
                Some(i) => {
                    let c = cleaned(old(self).work@, work_patterns(old(self).work@));
                    let v = old(self).store@;
                    let t = stash_views(old(self).stashes.entries@)[i].tree_hash;
                    match tree_layout(v, t) {
                        None => r matches Err(VaultError::ObjectNotFound(_)) && final(self).work@ == c,
                        Some(l) => if restorable(v, c, l) {
                            r is Ok && final(self).work@ == restored(v, c, l)
                        } else {
                            r matches Err(e) && crate::checkout::restore_error(v, c, l, e) && final(self).work@ == c
                        },
                    }
                },
            },
    {
        let entry = match self.stashes.get(name) {
            Ok(e) => e,
            Err(e) => {
                proof {
                    crate::workdir::lemma_follows_refl(self.work);
                }
                return Err(e);
            },
        };
        self.restore_tree(entry.tree_hash.as_str())
    }

    /// Records the working directory under the new snapshot name `name`, with `note`.
    pub fn snapshot_save(&mut self, name: &str, note: Option<&str>) -> (r: Result<(), VaultError>)
        requires
            old(self).wf(),
        ensures
            final(self).wf(),
            final(self).work == old(self).work,
            final(self).store@ == apply_snap(old(self).store@, work_snapshot(old(self).work).1),
            final(self).store.commit_keys == old(self).store.commit_keys,
            old(self).store.recorded() ==> final(self).store.recorded(),
            final(self).oplog == old(self).oplog,
            if crate::snapshot::first_snapshot(snapshot_views(old(self).snapshots.entries@), name@) is Some {
                r matches Err(VaultError::ObjectNotFound(_)) && snapshot_views(final(self).snapshots.entries@)
                    == snapshot_views(old(self).snapshots.entries@)
            } else {
                r is Ok && snapshot_views(final(self).snapshots.entries@).drop_last() == snapshot_views(
                    old(self).snapshots.entries@,
                ) && snapshot_views(final(self).snapshots.entries@).len() == old(
                    self,
                ).snapshots.entries@.len() + 1 && ({
                    let e = snapshot_views(final(self).snapshots.entries@).last();
                    &&& e.name == name@
                    &&& e.tree_hash == work_snapshot(old(self).work).0
                    &&& e.note == crate::merge::opt_text(note)
                })
            },
    {
        let tree = self.snapshot_working_dir();
        let entry = SnapshotEntry {
            name: crate::text::owned(name),
            tree_hash: tree,
            created_at: crate::clock::now_rfc3339(),
            note: match note {
                Some(s) => Some(crate::text::owned(s)),
                None => None,
            },
        };
        let r = self.snapshots.save(entry);
        proof {
            if r is Ok {
                assert(snapshot_views(self.snapshots.entries@).drop_last() =~= snapshot_views(
                    old(self).snapshots.entries@,
                ));
            }
        }
        r
    }

    /// The snapshots, oldest first.
    pub fn snapshot_list(&self) -> (r: Result<Vec<SnapshotEntry>, VaultError>)
        ensures
            r matches Ok(v) && snapshot_views(v@) == snapshot_views(self.snapshots.entries@),
    {
        Ok(self.snapshots.list())
    }

    /// Writes the tree of the snapshot `name` into the working directory.
    pub fn snapshot_restore(&mut self, name: &str) -> (r: Result<(), VaultError>)
        requires
            old(self).wf(),
        ensures
            final(self).wf(),
            final(self).work.follows(old(self).work),
            final(self).store == old(self).store,
            final(self).snapshots == old(self).snapshots,
            match crate::snapshot::first_snapshot(snapshot_views(old(self).snapshots.entries@), name@) {
                None => r matches Err(VaultError::ObjectNotFound(_)) && final(self).work@ == old(self).work@,
                Some(i) => {
                    let c = cleaned(old(self).work@, work_patterns(old(self).work@));
                    let v = old(self).store@;
                    let t = snapshot_views(old(self).snapshots.entries@)[i].tree_hash;
                    match tree_layout(v, t) {
                        None => r matches Err(VaultError::ObjectNotFound(_)) && final(self).work@ == c,
                        Some(l) => if restorable(v, c, l) {
                            r is Ok && final(self).work@ == restored(v, c, l)
                        } else {
                            r matches Err(e) && crate::checkout::restore_error(v, c, l, e) && final(self).work@ == c
                        },
                    }
                },
            },
    {
        let entry = match self.snapshots.get(name) {
            Ok(e) => e,
            Err(e) => {
                proof {
                    crate::workdir::lemma_follows_refl(self.work);
                }
                return Err(e);
            },
        };
        self.restore_tree(entry.tree_hash.as_str())
    }

    /// Removes the snapshot `name`.
    pub fn snapshot_drop(&mut self, name: &str) -> (r: Result<(), VaultError>)
        ensures
            final(self).work == old(self).work,
            final(self).store == old(self).store,
            final(self).oplog == old(self).oplog,
            if crate::snapshot::first_snapshot(snapshot_views(old(self).snapshots.entries@), name@) is Some {
                r is Ok && snapshot_views(final(self).snapshots.entries@) == crate::snapshot::snapshots_without(
                    snapshot_views(old(self).snapshots.entries@),
                    name@,
                )
            } else {
                r matches Err(VaultError::ObjectNotFound(_)) && snapshot_views(final(self).snapshots.entries@)
                    == snapshot_views(old(self).snapshots.entries@)
            },
    {
        self.snapshots.drop(name)
    }

    /// Names the commit `hash`, or HEAD's commit, with the new tag `name`.
    pub fn create_tag(&mut self, name: &str, hash: Option<&str>) -> (r: Result<(), VaultError>)
        ensures
            final(self).store == old(self).store,
            final(self).work == old(self).work,
            final(self).oplog == old(self).oplog,
            ({
                let target = match hash {
                    Some(h) => Some(h@),
                    None => resolve_head_of(old(self).store@),
                };
                match target {
                    None => r matches Err(VaultError::ObjectNotFound(m)) && m@ == "HEAD"@ && final(self).tags
                        == old(self).tags,
                    Some(t) => if has_tag(tag_views(old(self).tags@), name@) {
                        r matches Err(VaultError::BranchExists(m)) && m@ == "tag '"@ + name@ + "'"@
                            && final(self).tags == old(self).tags
                    } else {
                        r is Ok && tag_views(final(self).tags@) == tag_views(old(self).tags@).push((name@, t))
                    },
                }
            }),
    {
        let target = match hash {
            Some(h) => crate::text::owned(h),
            None => match self.store.resolve_head() {
                Some(h) => h,
                None => return Err(VaultError::ObjectNotFound(crate::text::owned("HEAD"))),
            },
        };
        let n = crate::text::owned(name);
        let mut i: usize = 0;
        while i < self.tags.len()
            invariant
                i <= self.tags@.len(),
                n@ == name@,
                *self == *old(self),
                match hash {
                    Some(h) => target@ == h@,
                    None => resolve_head_of(old(self).store@) == Some(target@),
                },
                forall|k: int| 0 <= k < i ==> (#[trigger] tag_views(self.tags@)[k]).0 != name@,
            decreases self.tags.len() - i,
        {
            assert(tag_views(self.tags@)[i as int] == (self.tags@[i as int].name@, self.tags@[i as int].target@));
            if self.tags[i].name == n {
                assert(tag_views(self.tags@)[i as int].0 == name@);
                let m = crate::text::concat("tag '", name);
                return Err(VaultError::BranchExists(crate::text::concat(m.as_str(), "'")));
            }
            i = i + 1;
        }
        let ghost before = tag_views(self.tags@);
        let ghost tv = target@;
        self.tags.push(Tag { name: n, target });
        assert(tag_views(self.tags@) =~= before.push((name@, tv)));
        Ok(())
    }

    /// The tags, each with the commit it names, trimmed.
    pub fn list_tags(&self) -> (r: Result<Vec<(String, String)>, VaultError>)
        ensures
            r matches Ok(v) && v@.len() == self.tags@.len() && forall|i: int|
                0 <= i < v@.len() ==> (#[trigger] v@[i]).0@ == self.tags@[i].name@ && v@[i].1@
                    == spec_trim(self.tags@[i].target@),
    {
        let mut out: Vec<(String, String)> = Vec::new();
        let mut i: usize = 0;
        while i < self.tags.len()
            invariant
                i <= self.tags@.len(),
                out@.len() == i,
                forall|k: int|
                    0 <= k < i ==> (#[trigger] out@[k]).0@ == self.tags@[k].name@ && out@[k].1@
                        == spec_trim(self.tags@[k].target@),
            decreases self.tags.len() - i,
        {
            out.push((self.tags[i].name.clone(), crate::text::trim(self.tags[i].target.as_str())));
            i = i + 1;
        }
        Ok(out)
    }
}

/// A snapshot writes only blobs and trees.
pub proof fn lemma_snap_keeps_commits(v: StoreView, ws: Seq<SnapWrite>)
    ensures
        apply_snap(v, ws).commits == v.commits,
        apply_snap(v, ws).conflicts == v.conflicts,
        apply_snap(v, ws).branches == v.branches,
        apply_snap(v, ws).head == v.head,
    decreases ws.len(),
{
    if ws.len() > 0 {
        lemma_snap_keeps_commits(v, ws.drop_last());
    }
}

} // verus!
