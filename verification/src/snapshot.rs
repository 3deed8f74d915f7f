//! Named snapshots: working-directory trees kept under a name used once, with a note.
use vstd::prelude::*;
use crate::error::VaultError;

verus! {

/// A snapshot.
#[derive(Debug)]
pub struct SnapshotEntry {
    pub name: String,
    pub tree_hash: String,
    pub created_at: String,
    pub note: Option<String>,
}

/// A snapshot as a value.
pub struct SnapshotView {
    pub name: Seq<char>,
    pub tree_hash: Seq<char>,
    pub created_at: Seq<char>,
    pub note: Option<Seq<char>>,
}

impl View for SnapshotEntry {
    type V = SnapshotView;

    open spec fn view(&self) -> SnapshotView {
        SnapshotView {
            name: self.name@,
            tree_hash: self.tree_hash@,
            created_at: self.created_at@,
            note: crate::oplog::opt_seq(self.note),
        }
    }
}

impl SnapshotEntry {
    /// A copy of the snapshot.
    pub fn duplicate(&self) -> (r: SnapshotEntry)
        ensures
            r@ == self@,
    {
        SnapshotEntry {
            name: self.name.clone(),
            tree_hash: self.tree_hash.clone(),
            created_at: self.created_at.clone(),
            note: crate::oplog::copy_opt(&self.note),
        }
    }
}

/// The values of a list of snapshots.
pub open spec fn snapshot_views(v: Seq<SnapshotEntry>) -> Seq<SnapshotView> {
    v.map_values(|e: SnapshotEntry| e@)
}

/// The index of the first snapshot named `n`, if any.
pub open spec fn first_snapshot(s: Seq<SnapshotView>, n: Seq<char>) -> Option<int>
    decreases s.len(),
{
    if s.len() == 0 {
        None
    } else {
        match first_snapshot(s.drop_last(), n) {
            Some(i) => Some(i),
            None => if s.last().name == n {
                Some(s.len() - 1)
            } else {
                None
            },
        }
    }
}

/// The snapshots of `s` not named `n`, in order.
pub open spec fn snapshots_without(s: Seq<SnapshotView>, n: Seq<char>) -> Seq<SnapshotView>
    decreases s.len(),
{
    if s.len() == 0 {
        Seq::empty()
    } else if s.last().name == n {
        snapshots_without(s.drop_last(), n)
    } else {
        snapshots_without(s.drop_last(), n).push(s.last())
    }
}

/// The message of a snapshot that is missing.
pub open spec fn missing_snapshot_message(n: Seq<char>) -> Seq<char> {
    "snapshot '"@ + n + "' "@
}

/// The snapshots, kept in the file `index_path`.
pub struct SnapshotStore {
    pub index_path: String,
    pub entries: Vec<SnapshotEntry>,
}

impl SnapshotStore {
    /// The empty snapshot list of the repository whose vault directory is `vault_dir`.
    pub fn new(vault_dir: &str) -> (r: SnapshotStore)
        ensures
            r.entries@.len() == 0,
            r.index_path@ == crate::diff::join_path(crate::diff::join_path(vault_dir@, "snapshots"@), "index.json"@),
    {
        let d = crate::diff::join(vault_dir, "snapshots");
        SnapshotStore { index_path: crate::diff::join(d.as_str(), "index.json"), entries: Vec::new() }
    }

    /// All snapshots, oldest first.
    pub fn list(&self) -> (r: Vec<SnapshotEntry>)
        ensures
            snapshot_views(r@) == snapshot_views(self.entries@),
    {
        let mut out: Vec<SnapshotEntry> = Vec::new();
        let mut i: usize = 0;
        while i < self.entries.len()
            invariant
                i <= self.entries@.len(),
                snapshot_views(out@) == snapshot_views(self.entries@).take(i as int),
            decreases self.entries.len() - i,
        {
            let ghost before = snapshot_views(out@);
            out.push(self.entries[i].duplicate());
            assert(snapshot_views(out@) =~= before.push(self.entries@[i as int]@));
            assert(snapshot_views(self.entries@).take(i + 1) =~= snapshot_views(self.entries@).take(
                i as int,
            ).push(self.entries@[i as int]@));
            i = i + 1;
        }
        assert(snapshot_views(self.entries@).take(self.entries@.len() as int) =~= snapshot_views(
            self.entries@,
        ));
        out
    }

    fn position(&self, name: &str) -> (r: Option<usize>)
        ensures
            match r {
                Some(i) => first_snapshot(snapshot_views(self.entries@), name@) == Some(i as int) && i
                    < self.entries@.len(),
                None => first_snapshot(snapshot_views(self.entries@), name@) is None,
            },
    {
        let ghost s = snapshot_views(self.entries@);
        let n = crate::text::owned(name);
        let mut i: usize = 0;
        while i < self.entries.len()
            invariant
                i <= s.len(),
                s == snapshot_views(self.entries@),
                n@ == name@,
                first_snapshot(s.take(i as int), name@) is None,
            decreases self.entries.len() - i,
        {
            assert(s.take(i + 1).drop_last() =~= s.take(i as int));
            assert(s.take(i + 1).last() == self.entries@[i as int]@);
            if self.entries[i].name == n {
                proof {
                    lemma_first_prefix(s, name@, i + 1);
                }
                return Some(i);
            }
            i = i + 1;
        }
        assert(s.take(s.len() as int) =~= s);
        None
    }

    /// Adds a snapshot; a snapshot of the same name is an error.
    pub fn save(&mut self, entry: SnapshotEntry) -> (r: Result<(), VaultError>)
        ensures
            final(self).index_path == old(self).index_path,
            if first_snapshot(snapshot_views(old(self).entries@), entry@.name) is Some {
                r matches Err(VaultError::ObjectNotFound(m)) && m@ == "snapshot '"@ + entry@.name
                    + "' already exists"@ && snapshot_views(final(self).entries@)
                    == snapshot_views(old(self).entries@)
            } else {
                r is Ok && snapshot_views(final(self).entries@) == snapshot_views(old(self).entries@).push(
                    entry@,
                )
            },
    {
        if self.position(entry.name.as_str()).is_some() {
            let m = crate::text::concat("snapshot '", entry.name.as_str());
            let m = crate::text::concat(m.as_str(), "' already exists");
            return Err(VaultError::ObjectNotFound(m));
        }
        let ghost before = snapshot_views(self.entries@);
        self.entries.push(entry);
        assert(snapshot_views(self.entries@) =~= before.push(self.entries@.last()@));
        Ok(())
    }

    /// The first snapshot named `name`.
    pub fn get(&self, name: &str) -> (r: Result<SnapshotEntry, VaultError>)
        ensures
            match first_snapshot(snapshot_views(self.entries@), name@) {
                Some(i) => r matches Ok(e) && e@ == snapshot_views(self.entries@)[i],
                None => r matches Err(VaultError::ObjectNotFound(m)) && m@ == missing_snapshot_message(
                    name@,
                ),
            },
    {
        match self.position(name) {
            Some(i) => Ok(self.entries[i].duplicate()),
            None => {
                let m = crate::text::concat("snapshot '", name);
                Err(VaultError::ObjectNotFound(crate::text::concat(m.as_str(), "' ")))
            },
        }
    }

    /// Removes every snapshot named `name`; none is an error.
    pub fn drop(&mut self, name: &str) -> (r: Result<(), VaultError>)
        ensures
            final(self).index_path == old(self).index_path,
            if first_snapshot(snapshot_views(old(self).entries@), name@) is Some {
                r is Ok && snapshot_views(final(self).entries@) == snapshots_without(
                    snapshot_views(old(self).entries@),
                    name@,
                )
            } else {
                r matches Err(VaultError::ObjectNotFound(m)) && m@ == missing_snapshot_message(name@)
                    && snapshot_views(final(self).entries@) == snapshot_views(old(self).entries@)
            },
    {
        let ghost s = snapshot_views(self.entries@);
        let mut kept: Vec<SnapshotEntry> = Vec::new();
        let mut i: usize = 0;
        let mut found = false;
        let n = crate::text::owned(name);
        while i < self.entries.len()
            invariant
                n@ == name@,
                i <= s.len(),
                s == snapshot_views(self.entries@),
                snapshot_views(kept@) == snapshots_without(s.take(i as int), name@),
                found == first_snapshot(s.take(i as int), name@) is Some,
            decreases self.entries.len() - i,
        {
            assert(s.take(i + 1).drop_last() =~= s.take(i as int));
            assert(s.take(i + 1).last() == self.entries@[i as int]@);
            if self.entries[i].name == n {
                found = true;
            } else {
                let ghost before = snapshot_views(kept@);
                kept.push(self.entries[i].duplicate());
                assert(snapshot_views(kept@) =~= before.push(self.entries@[i as int]@));
            }
            i = i + 1;
        }
        assert(s.take(s.len() as int) =~= s);
        if !found {
            let m = crate::text::concat("snapshot '", name);
            return Err(VaultError::ObjectNotFound(crate::text::concat(m.as_str(), "' ")));
        }
        self.entries = kept;
        Ok(())
    }
}

/// A first match within a prefix is the first match of the whole list.
proof fn lemma_first_prefix(s: Seq<SnapshotView>, n: Seq<char>, k: int)
    requires
        0 <= k <= s.len(),
        first_snapshot(s.take(k), n) is Some,
    ensures
        first_snapshot(s, n) == first_snapshot(s.take(k), n),
    decreases s.len() - k,
{
    if k < s.len() {
        assert(s.take(k + 1).drop_last() =~= s.take(k));
        lemma_first_prefix(s, n, k + 1);
    } else {
        assert(s.take(k) =~= s);
    }
}

/// A snapshot saved under a new name is the one found under that name.
pub proof fn lemma_snapshot_save_get(s: Seq<SnapshotView>, e: SnapshotView)
    requires
        first_snapshot(s, e.name) is None,
    ensures
        first_snapshot(s.push(e), e.name) == Some(s.len() as int),
        s.push(e)[s.len() as int] == e,
{
    assert(s.push(e).drop_last() =~= s);
}

/// Once dropped, no snapshot is found under the name.
pub proof fn lemma_snapshot_drop_get(s: Seq<SnapshotView>, n: Seq<char>)
    ensures
        first_snapshot(snapshots_without(s, n), n) is None,
    decreases s.len(),
{
    if s.len() > 0 {
        lemma_snapshot_drop_get(s.drop_last(), n);
        if s.last().name != n {
            assert(snapshots_without(s, n).drop_last() =~= snapshots_without(s.drop_last(), n));
        }
    }
}

/// Dropping keeps every snapshot of another name, in order.
pub proof fn lemma_snapshot_drop_keeps(s: Seq<SnapshotView>, n: Seq<char>, m: Seq<char>)
    requires
        m != n,
    ensures
        first_snapshot(snapshots_without(s, n), m) is Some == first_snapshot(s, m) is Some,
    decreases s.len(),
{
    if s.len() > 0 {
        lemma_snapshot_drop_keeps(s.drop_last(), n, m);
        if s.last().name != n {
            assert(snapshots_without(s, n).drop_last() =~= snapshots_without(s.drop_last(), n));
        }
    }
}

} // verus!
