//! The operation log: one entry per repository operation, in order, which `undo` walks back.
use vstd::prelude::*;

verus! {

/// One logged operation.
#[derive(Debug)]
pub struct OpEntry {
    pub op: String,
    pub timestamp: String,
    pub head_before: Option<String>,
    pub head_after: Option<String>,
    pub branch: Option<String>,
    pub message: Option<String>,
    pub extra: Option<String>,
    pub undone: bool,
}

/// A logged operation as a value.
pub struct OpView {
    pub op: Seq<char>,
    pub timestamp: Seq<char>,
    pub head_before: Option<Seq<char>>,
    pub head_after: Option<Seq<char>>,
    pub branch: Option<Seq<char>>,
    pub message: Option<Seq<char>>,
    pub extra: Option<Seq<char>>,
    pub undone: bool,
}

/// The value of an optional text.
pub open spec fn opt_seq(o: Option<String>) -> Option<Seq<char>> {
    match o {
        Some(s) => Some(s@),
        None => None,
    }
}

impl View for OpEntry {
    type V = OpView;

    open spec fn view(&self) -> OpView {
        OpView {
            op: self.op@,
            timestamp: self.timestamp@,
            head_before: opt_seq(self.head_before),
            head_after: opt_seq(self.head_after),
            branch: opt_seq(self.branch),
            message: opt_seq(self.message),
            extra: opt_seq(self.extra),
            undone: self.undone,
        }
    }
}

/// A copy of an optional text.
pub fn copy_opt(o: &Option<String>) -> (r: Option<String>)
    ensures
        opt_seq(r) == opt_seq(*o),
{
    match o {
        Some(s) => Some(s.clone()),
        None => None,
    }
}

/// Whether two optional texts are equal.
pub fn opt_eq(a: &Option<String>, b: &Option<String>) -> (r: bool)
    ensures
        r == (opt_seq(*a) == opt_seq(*b)),
{
    match (a, b) {
        (Some(x), Some(y)) => *x == *y,
        (None, None) => true,
        _ => false,
    }
}

impl OpEntry {
    /// A copy of the entry.
    pub fn duplicate(&self) -> (r: OpEntry)
        ensures
            r@ == self@,
    {
        OpEntry {
            op: self.op.clone(),
            timestamp: self.timestamp.clone(),
            head_before: copy_opt(&self.head_before),
            head_after: copy_opt(&self.head_after),
            branch: copy_opt(&self.branch),
            message: copy_opt(&self.message),
            extra: copy_opt(&self.extra),
            undone: self.undone,
        }
    }
}

/// An entry that `undo` can take back: not undone yet, and it moved HEAD.
pub open spec fn undoable(e: OpView) -> bool {
    !e.undone && e.head_before != e.head_after
}

/// The index of the last entry of `s` that `undo` can take back, if any.
pub open spec fn last_undoable(s: Seq<OpView>) -> Option<int>
    decreases s.len(),
{
    if s.len() == 0 {
        None
    } else if undoable(s.last()) {
        Some(s.len() - 1)
    } else {
        last_undoable(s.drop_last())
    }
}

/// The values of a list of entries.
pub open spec fn op_views(v: Seq<OpEntry>) -> Seq<OpView> {
    v.map_values(|e: OpEntry| e@)
}

/// The log of operations, kept in the file `path`.
pub struct OpLog {
    pub path: String,
    pub entries: Vec<OpEntry>,
}

impl OpLog {
    /// The empty log of the repository whose vault directory is `vault_dir`.
    pub fn new(vault_dir: &str) -> (r: OpLog)
        ensures
            r.entries@.len() == 0,
            r.path@ == crate::diff::join_path(crate::diff::join_path(vault_dir@, "oplog"@), "ops.jsonl"@),
    {
        let d = crate::diff::join(vault_dir, "oplog");
        OpLog { path: crate::diff::join(d.as_str(), "ops.jsonl"), entries: Vec::new() }
    }

    /// Adds an entry at the end.
    pub fn append(&mut self, entry: OpEntry)
        ensures
            op_views(final(self).entries@) == op_views(old(self).entries@).push(entry@),
            final(self).path == old(self).path,
    {
        let ghost before = op_views(self.entries@);
        self.entries.push(entry);
        assert(op_views(self.entries@) =~= before.push(self.entries@.last()@));
    }

    /// All entries, oldest first.
    pub fn read_all(&self) -> (r: Vec<OpEntry>)
        ensures
            op_views(r@) == op_views(self.entries@),
    {
        let mut out: Vec<OpEntry> = Vec::new();
        let mut i: usize = 0;
        while i < self.entries.len()
            invariant
                i <= self.entries@.len(),
                op_views(out@) == op_views(self.entries@).take(i as int),
            decreases self.entries.len() - i,
        {
            let ghost before = op_views(out@);
            out.push(self.entries[i].duplicate());
            assert(op_views(out@) =~= before.push(self.entries@[i as int]@));
            assert(op_views(self.entries@).take(i + 1) =~= op_views(self.entries@).take(i as int).push(
                self.entries@[i as int]@,
            ));
            i = i + 1;
        }
        assert(op_views(self.entries@).take(self.entries@.len() as int) =~= op_views(self.entries@));
        out
    }

    /// The last entry that moved HEAD and is not undone yet; `None` when there is none.
    pub fn last_undoable_entry(&self) -> (r: Option<OpEntry>)
        ensures
            match last_undoable(op_views(self.entries@)) {
                None => r is None,
                Some(i) => r matches Some(e) && e@ == op_views(self.entries@)[i],
            },
    {
        let ghost s = op_views(self.entries@);
        let mut k: usize = self.entries.len();
        assert(s.take(s.len() as int) =~= s);
        while k > 0
            invariant
                k <= s.len(),
                s == op_views(self.entries@),
                last_undoable(s) == last_undoable(s.take(k as int)),
            decreases k,
        {
            assert(s.take(k as int).last() == self.entries@[k - 1]@);
            assert(s.take(k as int).drop_last() =~= s.take(k - 1));
            let e = &self.entries[k - 1];
            if !e.undone && !opt_eq(&e.head_before, &e.head_after) {
                assert(last_undoable(s.take(k as int)) == Some(k - 1));
                return Some(e.duplicate());
            }
            k = k - 1;
        }
        assert(s.take(0) =~= Seq::<OpView>::empty());
        None
    }

    /// Marks the last entry that moved HEAD and is not undone yet as undone, and returns where
    /// HEAD was before it; `None` when there is no such entry.
    pub fn undo_last(&mut self) -> (r: Option<Option<String>>)
        ensures
            final(self).path == old(self).path,
            match last_undoable(op_views(old(self).entries@)) {
                None => r is None && op_views(final(self).entries@) == op_views(old(self).entries@),
                Some(i) => r matches Some(h) && opt_seq(h) == op_views(old(self).entries@)[i].head_before
                    && op_views(final(self).entries@) == op_views(old(self).entries@).update(
                    i,
                    OpView { undone: true, ..op_views(old(self).entries@)[i] },
                ),
            },
    {
        let ghost s = op_views(self.entries@);
        let mut k: usize = self.entries.len();
        assert(s.take(s.len() as int) =~= s);
        while k > 0
            invariant
                k <= s.len(),
                s == op_views(self.entries@),
                s == op_views(old(self).entries@),
                self.path == old(self).path,
                last_undoable(s) == last_undoable(s.take(k as int)),
            decreases k,
        {
            assert(s.take(k as int).last() == self.entries@[k - 1]@);
            assert(s.take(k as int).drop_last() =~= s.take(k - 1));
            let e = &self.entries[k - 1];
            if !e.undone && !opt_eq(&e.head_before, &e.head_after) {
                let hb = copy_opt(&e.head_before);
                let mut changed = e.duplicate();
                changed.undone = true;
                let ghost cv = changed@;
                assert(cv == OpView { undone: true, ..s[k - 1] });
                assert(last_undoable(s.take(k as int)) == Some(k - 1));
                self.entries.set(k - 1, changed);
                assert(op_views(self.entries@) =~= s.update(k - 1, cv));
                return Some(hb);
            }
            k = k - 1;
        }
        assert(s.take(0) =~= Seq::<OpView>::empty());
        None
    }
}

/// The entry `undo` takes back is undoable and no later one is; with none, no entry is.
pub proof fn lemma_last_undoable(s: Seq<OpView>)
    ensures
        match last_undoable(s) {
            Some(i) => 0 <= i < s.len() && undoable(s[i]) && forall|k: int| i < k < s.len() ==> !undoable(
                #[trigger] s[k],
            ),
            None => forall|k: int| 0 <= k < s.len() ==> !undoable(#[trigger] s[k]),
        },
    decreases s.len(),
{
    if s.len() > 0 && !undoable(s.last()) {
        lemma_last_undoable(s.drop_last());
        assert forall|k: int| 0 <= k < s.len() - 1 implies s[k] == s.drop_last()[k] by {}
    }
}

/// An undo never takes back the same operation twice: once the entry it took back is marked
/// undone, the next undo takes back an earlier entry, or none.
pub proof fn lemma_undo_moves_back(s: Seq<OpView>)
    requires
        last_undoable(s) is Some,
    ensures
        ({
            let i = last_undoable(s)->0;
            let t = s.update(i, OpView { undone: true, ..s[i] });
            match last_undoable(t) {
                Some(j) => j < i,
                None => true,
            }
        }),
{
    let i = last_undoable(s)->0;
    let t = s.update(i, OpView { undone: true, ..s[i] });
    lemma_last_undoable(s);
    lemma_last_undoable(t);
    if last_undoable(t) is Some {
        let j = last_undoable(t)->0;
        assert(undoable(t[j]));
        if j >= i {
            if j == i {
                assert(!undoable(t[i]));
            } else {
                assert(t[j] == s[j]);
            }
        }
    }
}

/// An operation that moved HEAD, just logged, is the one the next undo takes back.
pub proof fn lemma_undo_takes_last(s: Seq<OpView>, e: OpView)
    requires
        undoable(e),
    ensures
        last_undoable(s.push(e)) == Some(s.len() as int),
{
    assert(s.push(e).last() == e);
}

} // verus!
