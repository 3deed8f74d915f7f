//! Named stashes: working-directory trees put aside, each under a name used once.
use vstd::prelude::*;
use crate::error::VaultError;

verus! {

/// A stash.
#[derive(Debug)]
pub struct StashEntry {
    pub name: String,
    pub tree_hash: String,
    pub created_at: String,
    pub branch: String,
}

/// A stash as a value.
pub struct StashView {
    pub name: Seq<char>,
    pub tree_hash: Seq<char>,
    pub created_at: Seq<char>,
    pub branch: Seq<char>,
}

impl View for StashEntry {
    type V = StashView;

    open spec fn view(&self) -> StashView {
        StashView {
            name: self.name@,
            tree_hash: self.tree_hash@,
            created_at: self.created_at@,
            branch: self.branch@,
        }
    }
}

impl StashEntry {
    /// A copy of the stash.
    pub fn duplicate(&self) -> (r: StashEntry)
        ensures
            r@ == self@,
    {
        StashEntry {
            name: self.name.clone(),
            tree_hash: self.tree_hash.clone(),
            created_at: self.created_at.clone(),
            branch: self.branch.clone(),
        }
    }
}

/// The values of a list of stashes.
pub open spec fn stash_views(v: Seq<StashEntry>) -> Seq<StashView> {
    v.map_values(|e: StashEntry| e@)
}

/// The index of the first stash named `n`, if any.
pub open spec fn first_stash(s: Seq<StashView>, n: Seq<char>) -> Option<int>
    decreases s.len(),
{
    if s.len() == 0 {
        None
    } else {
        match first_stash(s.drop_last(), n) {
            Some(i) => Some(i),
            None => if s.last().name == n {
                Some(s.len() - 1)
            } else {
                None
            },
        }
    }
}

/// The stashes of `s` not named `n`, in order.
pub open spec fn stashes_without(s: Seq<StashView>, n: Seq<char>) -> Seq<StashView>
    decreases s.len(),
{
    if s.len() == 0 {
        Seq::empty()
    } else if s.last().name == n {
        stashes_without(s.drop_last(), n)
    } else {
        stashes_without(s.drop_last(), n).push(s.last())
    }
}

/// The message of a stash that is missing.
pub open spec fn missing_stash_message(n: Seq<char>) -> Seq<char> {
    "stash '"@ + n + "' "@
}

/// The stashes, kept in the file `index_path`.
pub struct StashStore {
    pub index_path: String,
    pub entries: Vec<StashEntry>,
}

impl StashStore {
    /// The empty stash list of the repository whose vault directory is `vault_dir`.
    pub fn new(vault_dir: &str) -> (r: StashStore)
        ensures
            r.entries@.len() == 0,
            r.index_path@ == crate::diff::join_path(crate::diff::join_path(vault_dir@, "stash"@), "index.json"@),
    {
        let d = crate::diff::join(vault_dir, "stash");
        StashStore { index_path: crate::diff::join(d.as_str(), "index.json"), entries: Vec::new() }
    }

    /// All stashes, oldest first.
    pub fn list(&self) -> (r: Vec<StashEntry>)
        ensures
            stash_views(r@) == stash_views(self.entries@),
    {
        let mut out: Vec<StashEntry> = Vec::new();
        let mut i: usize = 0;
        while i < self.entries.len()
            invariant
                i <= self.entries@.len(),
                stash_views(out@) == stash_views(self.entries@).take(i as int),
            decreases self.entries.len() - i,
        {
            let ghost before = stash_views(out@);
            out.push(self.entries[i].duplicate());
            assert(stash_views(out@) =~= before.push(self.entries@[i as int]@));
            assert(stash_views(self.entries@).take(i + 1) =~= stash_views(self.entries@).take(
                i as int,
            ).push(self.entries@[i as int]@));
            i = i + 1;
        }
        assert(stash_views(self.entries@).take(self.entries@.len() as int) =~= stash_views(
            self.entries@,
        ));
        out
    }

    fn position(&self, name: &str) -> (r: Option<usize>)
        ensures
            match r {
                Some(i) => first_stash(stash_views(self.entries@), name@) == Some(i as int) && i
                    < self.entries@.len(),
                None => first_stash(stash_views(self.entries@), name@) is None,
            },
    {
        let ghost s = stash_views(self.entries@);
        let n = crate::text::owned(name);
        let mut i: usize = 0;
        while i < self.entries.len()
            invariant
                i <= s.len(),
                s == stash_views(self.entries@),
                n@ == name@,
                first_stash(s.take(i as int), name@) is None,
            decreases self.entries.len() - i,
        {
            assert(s.take(i + 1).drop_last() =~= s.take(i as int));
            assert(s.take(i + 1).last() == self.entries@[i as int]@);
            if self.entries[i].name == n {
                proof {
                    lemma_first_prefix(s, name@, i + 1);
                }
                return Some(i);
            }
            i = i + 1;
        }
        assert(s.take(s.len() as int) =~= s);
        None
    }

    /// Adds a stash; a stash of the same name is an error.
    pub fn save(&mut self, entry: StashEntry) -> (r: Result<(), VaultError>)
        ensures
            final(self).index_path == old(self).index_path,
            if first_stash(stash_views(old(self).entries@), entry@.name) is Some {
                r matches Err(VaultError::ObjectNotFound(m)) && m@ == "stash '"@ + entry@.name
                    + "' already exists -- drop it first"@ && stash_views(final(self).entries@)
                    == stash_views(old(self).entries@)
            } else {
                r is Ok && stash_views(final(self).entries@) == stash_views(old(self).entries@).push(
                    entry@,
                )
            },
    {
        if self.position(entry.name.as_str()).is_some() {
            let m = crate::text::concat("stash '", entry.name.as_str());
            let m = crate::text::concat(m.as_str(), "' already exists -- drop it first");
            return Err(VaultError::ObjectNotFound(m));
        }
        let ghost before = stash_views(self.entries@);
        self.entries.push(entry);
        assert(stash_views(self.entries@) =~= before.push(self.entries@.last()@));
        Ok(())
    }

    /// The first stash named `name`.
    pub fn get(&self, name: &str) -> (r: Result<StashEntry, VaultError>)
        ensures
            match first_stash(stash_views(self.entries@), name@) {
                Some(i) => r matches Ok(e) && e@ == stash_views(self.entries@)[i],
                None => r matches Err(VaultError::ObjectNotFound(m)) && m@ == missing_stash_message(
                    name@,
                ),
            },
    {
        match self.position(name) {
            Some(i) => Ok(self.entries[i].duplicate()),
            None => {
                let m = crate::text::concat("stash '", name);
                Err(VaultError::ObjectNotFound(crate::text::concat(m.as_str(), "' ")))
            },
        }
    }

    /// Removes every stash named `name`; none is an error.
    pub fn drop(&mut self, name: &str) -> (r: Result<(), VaultError>)
        ensures
            final(self).index_path == old(self).index_path,
            if first_stash(stash_views(old(self).entries@), name@) is Some {
                r is Ok && stash_views(final(self).entries@) == stashes_without(
                    stash_views(old(self).entries@),
                    name@,
                )
            } else {
                r matches Err(VaultError::ObjectNotFound(m)) && m@ == missing_stash_message(name@)
                    && stash_views(final(self).entries@) == stash_views(old(self).entries@)
            },
    {
        let ghost s = stash_views(self.entries@);
        let mut kept: Vec<StashEntry> = Vec::new();
        let mut i: usize = 0;
        let mut found = false;
        let n = crate::text::owned(name);
        while i < self.entries.len()
            invariant
                n@ == name@,
                i <= s.len(),
                s == stash_views(self.entries@),
                stash_views(kept@) == stashes_without(s.take(i as int), name@),
                found == first_stash(s.take(i as int), name@) is Some,
            decreases self.entries.len() - i,
        {
            assert(s.take(i + 1).drop_last() =~= s.take(i as int));
            assert(s.take(i + 1).last() == self.entries@[i as int]@);
            if self.entries[i].name == n {
                found = true;
            } else {
                let ghost before = stash_views(kept@);
                kept.push(self.entries[i].duplicate());
                assert(stash_views(kept@) =~= before.push(self.entries@[i as int]@));
            }
            i = i + 1;
        }
        assert(s.take(s.len() as int) =~= s);
        if !found {
            let m = crate::text::concat("stash '", name);
            return Err(VaultError::ObjectNotFound(crate::text::concat(m.as_str(), "' ")));
        }
        self.entries = kept;
        Ok(())
    }
}

/// A first match within a prefix is the first match of the whole list.
proof fn lemma_first_prefix(s: Seq<StashView>, n: Seq<char>, k: int)
    requires
        0 <= k <= s.len(),
        first_stash(s.take(k), n) is Some,
    ensures
        first_stash(s, n) == first_stash(s.take(k), n),
    decreases s.len() - k,
{
    if k < s.len() {
        assert(s.take(k + 1).drop_last() =~= s.take(k));
        lemma_first_prefix(s, n, k + 1);
    } else {
        assert(s.take(k) =~= s);
    }
}

/// A stash saved under a new name is the one found under that name.
pub proof fn lemma_stash_save_get(s: Seq<StashView>, e: StashView)
    requires
        first_stash(s, e.name) is None,
    ensures
        first_stash(s.push(e), e.name) == Some(s.len() as int),
        s.push(e)[s.len() as int] == e,
{
    assert(s.push(e).drop_last() =~= s);
}

/// Once dropped, no stash is found under the name.
pub proof fn lemma_stash_drop_get(s: Seq<StashView>, n: Seq<char>)
    ensures
        first_stash(stashes_without(s, n), n) is None,
    decreases s.len(),
{
    if s.len() > 0 {
        lemma_stash_drop_get(s.drop_last(), n);
        if s.last().name != n {
            assert(stashes_without(s, n).drop_last() =~= stashes_without(s.drop_last(), n));
        }
    }
}

/// Dropping keeps every stash of another name, in order.
pub proof fn lemma_stash_drop_keeps(s: Seq<StashView>, n: Seq<char>, m: Seq<char>)
    requires
        m != n,
    ensures
        first_stash(stashes_without(s, n), m) is Some == first_stash(s, m) is Some,
    decreases s.len(),
{
    if s.len() > 0 {
        lemma_stash_drop_keeps(s.drop_last(), n, m);
        if s.last().name != n {
            assert(stashes_without(s, n).drop_last() =~= stashes_without(s.drop_last(), n));
        }
    }
}

} // verus!
