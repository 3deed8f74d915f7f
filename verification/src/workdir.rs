//! The working directory as the library holds it: every path below the root, each a
//! directory or a file with its content, and the changes made to it since it was read, in
//! the order they are to be carried out on disk.
use vstd::prelude::*;
use vstd::hash_map::StringHashMap;
use crate::flat::{FlatTree, FlatView, lemma_seq_to_map};
use crate::objects::EntryKind;

verus! {

/// What a path of the working directory holds.
pub enum WorkItem {
    Dir,
    File(Seq<u8>),
}

/// A change to the working directory.
pub enum FsOp {
    RemoveFile(String),
    RemoveDir(String),
    CreateDir(String),
    WriteFile(String, Vec<u8>),
}

/// The working directory after one change.
pub open spec fn apply_op(m: Map<Seq<char>, WorkItem>, op: FsOp) -> Map<Seq<char>, WorkItem> {
    match op {
        FsOp::RemoveFile(p) => m.remove(p@),
        FsOp::RemoveDir(p) => m.remove(p@),
        FsOp::CreateDir(p) => m.insert(p@, WorkItem::Dir),
        FsOp::WriteFile(p, c) => m.insert(p@, WorkItem::File(c@)),
    }
}

/// The working directory after the changes `ops`, in order.
pub open spec fn apply_ops(m: Map<Seq<char>, WorkItem>, ops: Seq<FsOp>) -> Map<Seq<char>, WorkItem>
    decreases ops.len(),
{
    if ops.len() == 0 {
        m
    } else {
        apply_op(apply_ops(m, ops.drop_last()), ops.last())
    }
}

/// Carrying out two lists of changes one after the other carries out their concatenation.
pub proof fn lemma_apply_ops_concat(m: Map<Seq<char>, WorkItem>, a: Seq<FsOp>, b: Seq<FsOp>)
    ensures
        apply_ops(m, a + b) == apply_ops(apply_ops(m, a), b),
    decreases b.len(),
{
    if b.len() == 0 {
        assert(a + b =~= a);
    } else {
        lemma_apply_ops_concat(m, a, b.drop_last());
        assert((a + b).drop_last() =~= a + b.drop_last());
        assert((a + b).last() == b.last());
    }
}

/// The working directory: its paths in order, directories as tree entries and files as blob
/// entries, the files' contents, and the changes made since it was read.
pub struct WorkDir {
    pub paths: FlatTree,
    pub contents: StringHashMap<Vec<u8>>,
    pub ops: Vec<FsOp>,
}

impl View for WorkDir {
    type V = Map<Seq<char>, WorkItem>;

    open spec fn view(&self) -> Map<Seq<char>, WorkItem> {
        Map::new(
            |p: Seq<char>| self.paths.view().contains_key(p),
            |p: Seq<char>|
                if self.paths.view()[p].0 is Tree {
                    WorkItem::Dir
                } else {
                    WorkItem::File(self.contents@[p]@)
                },
        )
    }
}

impl WorkDir {
    /// The paths are sorted, each a directory or a file, and exactly the files have contents.
    pub open spec fn wf(&self) -> bool {
        &&& self.paths.wf()
        &&& forall|p: Seq<char>|
            #[trigger] self.paths.view().contains_key(p) ==> (self.paths.view()[p].0 is Tree
                || self.paths.view()[p].0 is Blob)
        &&& forall|p: Seq<char>|
            #[trigger] self.contents@.contains_key(p) <==> (self.paths.view().contains_key(p)
                && self.paths.view()[p].0 is Blob)
    }

    /// `self` is `earlier` with the changes logged after `earlier`'s carried out.
    pub open spec fn follows(&self, earlier: WorkDir) -> bool {
        &&& earlier.ops@.len() <= self.ops@.len()
        &&& self.ops@.take(earlier.ops@.len() as int) == earlier.ops@
        &&& apply_ops(earlier@, self.ops@.skip(earlier.ops@.len() as int)) == self@
    }

    /// An empty working directory.
    pub fn new() -> (r: WorkDir)
        ensures
            r.wf(),
            r@ == Map::<Seq<char>, WorkItem>::empty(),
            r.ops@.len() == 0,
    {
        let r = WorkDir { paths: FlatTree::new(), contents: StringHashMap::new(), ops: Vec::new() };
        assert(r@ =~= Map::<Seq<char>, WorkItem>::empty());
        r
    }

    /// Records a directory read from disk.
    pub fn add_dir(&mut self, path: String)
        requires
            old(self).wf(),
        ensures
            final(self).wf(),
            final(self)@ == old(self)@.insert(path@, WorkItem::Dir),
            final(self).ops == old(self).ops,
    {
        self.set_dir(path);
    }

    /// Records a file read from disk.
    pub fn add_file(&mut self, path: String, content: Vec<u8>)
        requires
            old(self).wf(),
        ensures
            final(self).wf(),
            final(self)@ == old(self)@.insert(path@, WorkItem::File(content@)),
            final(self).ops == old(self).ops,
    {
        self.set_file(path, content);
    }

    fn set_dir(&mut self, path: String)
        requires
            old(self).wf(),
        ensures
            final(self).wf(),
            final(self)@ == old(self)@.insert(path@, WorkItem::Dir),
            final(self).ops == old(self).ops,
    {
        let ghost p = path@;
        self.contents.remove(path.as_str());
        self.paths.insert(path, EntryKind::Tree, String::new());
        assert(self@ =~= old(self)@.insert(p, WorkItem::Dir));
    }

    fn set_file(&mut self, path: String, content: Vec<u8>)
        requires
            old(self).wf(),
        ensures
            final(self).wf(),
            final(self)@ == old(self)@.insert(path@, WorkItem::File(content@)),
            final(self).ops == old(self).ops,
    {
        let ghost p = path@;
        let ghost c = content@;
        self.contents.insert(path.clone(), content);
        self.paths.insert(path, EntryKind::Blob, String::new());
        assert(self@ =~= old(self)@.insert(p, WorkItem::File(c)));
    }

    fn unset(&mut self, path: &str)
        requires
            old(self).wf(),
        ensures
            final(self).wf(),
            final(self)@ == old(self)@.remove(path@),
            final(self).ops == old(self).ops,
    {
        self.contents.remove(path);
        self.paths.remove(path);
        assert(self@ =~= old(self)@.remove(path@));
    }

    /// Whether `path` is a directory.
    pub fn is_dir(&self, path: &str) -> (r: bool)
        requires
            self.wf(),
        ensures
            r == (self@.contains_key(path@) && self@[path@] is Dir),
    {
        match self.paths.get(path) {
            Some(e) => e.kind == EntryKind::Tree,
            None => false,
        }
    }

    /// The content of the file `path`, if `path` is a file.
    pub fn file(&self, path: &str) -> (r: Option<&Vec<u8>>)
        requires
            self.wf(),
        ensures
            match r {
                Some(c) => self@.contains_key(path@) && self@[path@] == WorkItem::File(c@),
                None => !(self@.contains_key(path@) && self@[path@] is File),
            },
    {
        self.contents.get(path)
    }

    /// Whether anything is at `path`.
    pub fn holds(&self, path: &str) -> (r: bool)
        requires
            self.wf(),
        ensures
            r == self@.contains_key(path@),
    {
        self.paths.contains_key(path)
    }

    fn log(&mut self, op: FsOp)
        ensures
            final(self).paths == old(self).paths,
            final(self).contents == old(self).contents,
            final(self).ops@ == old(self).ops@.push(op),
    {
        self.ops.push(op);
    }

    /// Deletes the file `path`.
    pub fn remove_file(&mut self, path: &str)
        requires
            old(self).wf(),
        ensures
            final(self).wf(),
            final(self)@ == old(self)@.remove(path@),
            final(self).ops@.len() == old(self).ops@.len() + 1,
            final(self).ops@.drop_last() == old(self).ops@,
            final(self).ops@.last() matches FsOp::RemoveFile(q) && q@ == path@,
            final(self).follows(*old(self)),
    {
        self.unset(path);
        self.log(FsOp::RemoveFile(crate::text::owned(path)));
        proof {
            self.lemma_follows_one(*old(self));
        }
    }

    /// Deletes the empty directory `path`.
    pub fn remove_dir(&mut self, path: &str)
        requires
            old(self).wf(),
        ensures
            final(self).wf(),
            final(self)@ == old(self)@.remove(path@),
            final(self).ops@.len() == old(self).ops@.len() + 1,
            final(self).ops@.drop_last() == old(self).ops@,
            final(self).ops@.last() matches FsOp::RemoveDir(q) && q@ == path@,
            final(self).follows(*old(self)),
    {
        self.unset(path);
        self.log(FsOp::RemoveDir(crate::text::owned(path)));
        proof {
            self.lemma_follows_one(*old(self));
        }
    }

    /// Creates the directory `path`.
    pub fn create_dir(&mut self, path: &str)
        requires
            old(self).wf(),
        ensures
            final(self).wf(),
            final(self)@ == old(self)@.insert(path@, WorkItem::Dir),
            final(self).ops@.len() == old(self).ops@.len() + 1,
            final(self).ops@.drop_last() == old(self).ops@,
            final(self).ops@.last() matches FsOp::CreateDir(q) && q@ == path@,
            final(self).follows(*old(self)),
    {
        self.set_dir(crate::text::owned(path));
        self.log(FsOp::CreateDir(crate::text::owned(path)));
        proof {
            self.lemma_follows_one(*old(self));
        }
    }

    /// Writes `content` to the file `path`.
    pub fn write_file(&mut self, path: &str, content: &[u8])
        requires
            old(self).wf(),
        ensures
            final(self).wf(),
            final(self)@ == old(self)@.insert(path@, WorkItem::File(content@)),
            final(self).follows(*old(self)),
    {
        let mut a: Vec<u8> = Vec::new();
        crate::json::push_bytes(&mut a, content);
        let mut b: Vec<u8> = Vec::new();
        crate::json::push_bytes(&mut b, content);
        self.set_file(crate::text::owned(path), a);
        self.log(FsOp::WriteFile(crate::text::owned(path), b));
        proof {
            self.lemma_follows_one(*old(self));
        }
    }

    /// One logged change that takes `earlier` to `self` keeps the log consistent.
    proof fn lemma_follows_one(&self, earlier: WorkDir)
        requires
            self.ops@.len() == earlier.ops@.len() + 1,
            self.ops@ == earlier.ops@.push(self.ops@.last()),
            self@ == apply_op(earlier@, self.ops@.last()),
        ensures
            self.follows(earlier),
    {
        let n = earlier.ops@.len() as int;
        assert(self.ops@.take(n) =~= earlier.ops@);
        let tail = self.ops@.skip(n);
        assert(tail =~= seq![self.ops@.last()]);
        assert(tail.drop_last() =~= Seq::<FsOp>::empty());
        assert(apply_ops(earlier@, tail.drop_last()) == earlier@);
        assert(apply_ops(earlier@, tail) == apply_op(earlier@, tail.last()));
    }
}

/// Following is transitive.
pub proof fn lemma_follows_trans(a: WorkDir, b: WorkDir, c: WorkDir)
    requires
        b.follows(a),
        c.follows(b),
    ensures
        c.follows(a),
{
    let na = a.ops@.len() as int;
    let nb = b.ops@.len() as int;
    assert(c.ops@.take(na) =~= b.ops@.take(na));
    let x = b.ops@.skip(na);
    let y = c.ops@.skip(nb);
    assert(c.ops@.skip(na) =~= x + y);
    lemma_apply_ops_concat(a@, x, y);
}

/// Nothing changed follows itself.
pub proof fn lemma_follows_refl(a: WorkDir)
    ensures
        a.follows(a),
{
    assert(a.ops@.take(a.ops@.len() as int) =~= a.ops@);
    assert(a.ops@.skip(a.ops@.len() as int) =~= Seq::<FsOp>::empty());
}

} // verus!
