//! The object store of a repository: content-addressed blobs, trees, commits and conflict
//! objects, the branch references and HEAD.
use vstd::prelude::*;
use vstd::hash_map::StringHashMap;
use crate::error::{VaultError, is_branch_not_found, is_not_found};
use crate::hashing::{blake3_hex, spec_blake3_hex};
use crate::objects::{
    Commit, CommitView, ConflictObject, ConflictView, EntryView, Tree, commit_hash,
    conflict_hash, tree_hash,
};
use crate::text::{spec_trim, spec_trim_start_matches};

verus! {

/// Which directory of the store an object belongs in.
#[derive(Clone, Copy, Debug, PartialEq, Eq, Structural)]
pub enum ObjectClass {
    Blob,
    Tree,
    Commit,
    Conflict,
}

/// An object written to the store since it was loaded, to be persisted.
pub struct StoredObject {
    pub class: ObjectClass,
    pub hash: String,
}

/// The class and hash of each object in a list of written objects.
pub open spec fn written_views(ws: Seq<StoredObject>) -> Seq<(ObjectClass, Seq<char>)> {
    ws.map_values(|o: StoredObject| (o.class, o.hash@))
}

/// `ws` with the object of class `c` under `h` listed at the end when `fresh`.
pub open spec fn noted(ws: Seq<(ObjectClass, Seq<char>)>, fresh: bool, c: ObjectClass, h: Seq<char>) -> Seq<
    (ObjectClass, Seq<char>),
> {
    if fresh {
        ws.push((c, h))
    } else {
        ws
    }
}

/// A branch reference: its name and the text of its reference file.
pub struct BranchRef {
    pub name: String,
    pub target: String,
}

/// The store as a value.
pub struct StoreView {
    pub blobs: Map<Seq<char>, Seq<u8>>,
    pub trees: Map<Seq<char>, Seq<EntryView>>,
    pub commits: Map<Seq<char>, CommitView>,
    pub conflicts: Map<Seq<char>, ConflictView>,
    pub branches: Seq<(Seq<char>, Seq<char>)>,
    pub head: Seq<char>,
}

/// The branch references as values.
pub open spec fn branch_views(bs: Seq<BranchRef>) -> Seq<(Seq<char>, Seq<char>)> {
    bs.map_values(|b: BranchRef| (b.name@, b.target@))
}

/// The reference text of the first branch named `name`.
pub open spec fn branch_lookup(bs: Seq<(Seq<char>, Seq<char>)>, name: Seq<char>) -> Option<
    Seq<char>,
>
    decreases bs.len(),
{
    if bs.len() == 0 {
        None
    } else if bs[0].0 == name {
        Some(bs[0].1)
    } else {
        branch_lookup(bs.drop_first(), name)
    }
}

/// `bs` with the branch `name` pointing at `target`: replaced in place, or added at the end.
pub open spec fn branch_set(bs: Seq<(Seq<char>, Seq<char>)>, name: Seq<char>, target: Seq<char>) -> Seq<
    (Seq<char>, Seq<char>),
>
    decreases bs.len(),
{
    if bs.len() == 0 {
        seq![(name, target)]
    } else if bs[0].0 == name {
        bs.update(0, (name, target))
    } else {
        seq![bs[0]] + branch_set(bs.drop_first(), name, target)
    }
}

/// `bs` without the branches named `name`.
pub open spec fn branch_del(bs: Seq<(Seq<char>, Seq<char>)>, name: Seq<char>) -> Seq<(Seq<char>, Seq<char>)>
    decreases bs.len(),
{
    if bs.len() == 0 {
        bs
    } else if bs.last().0 == name {
        branch_del(bs.drop_last(), name)
    } else {
        branch_del(bs.drop_last(), name).push(bs.last())
    }
}

/// The branch that HEAD names.
pub open spec fn head_branch_name(head: Seq<char>) -> Seq<char> {
    spec_trim_start_matches(spec_trim(head), "ref: refs/heads/"@)
}

/// What HEAD resolves to: the commit hash of its branch, the hash it holds itself, or
/// nothing.
pub open spec fn resolve_head_of(v: StoreView) -> Option<Seq<char>> {
    let h = spec_trim(v.head);
    if "ref: "@.is_prefix_of(h) {
        match branch_lookup(v.branches, head_branch_name(v.head)) {
            Some(t) => Some(spec_trim(t)),
            None => None,
        }
    } else if h.len() == 0 {
        None
    } else {
        Some(h)
    }
}

/// The branch HEAD is on, if it names one.
pub open spec fn current_branch_of(v: StoreView) -> Option<Seq<char>> {
    if "ref: refs/heads/"@.is_prefix_of(spec_trim(v.head)) {
        Some(head_branch_name(v.head))
    } else {
        None
    }
}

/// `m` with `k` bound to `v` unless `k` is already there.
pub open spec fn insert_new<V>(m: Map<Seq<char>, V>, k: Seq<char>, v: V) -> Map<Seq<char>, V> {
    if m.contains_key(k) {
        m
    } else {
        m.insert(k, v)
    }
}

/// The object store.
pub struct ObjectStore {
    pub root: String,
    pub blobs: StringHashMap<Vec<u8>>,
    pub trees: StringHashMap<Tree>,
    pub commits: StringHashMap<Commit>,
    pub conflicts: StringHashMap<ConflictObject>,
    pub branches: Vec<BranchRef>,
    pub head: String,
    pub written: Vec<StoredObject>,
    pub commit_keys: Vec<String>,
    pub loaded: Ghost<Set<(ObjectClass, Seq<char>)>>,
}

impl View for ObjectStore {
    type V = StoreView;

    open spec fn view(&self) -> StoreView {
        StoreView {
            blobs: self.blobs@.map_values(|b: Vec<u8>| b@),
            trees: self.trees@.map_values(|t: Tree| t@),
            commits: self.commits@.map_values(|c: Commit| c@),
            conflicts: self.conflicts@.map_values(|c: ConflictObject| c@),
            branches: branch_views(self.branches@),
            head: self.head@,
        }
    }
}

impl ObjectStore {
    /// The list of commit hashes names exactly the stored commits (so there are finitely
    /// many).
    pub open spec fn wf(&self) -> bool {
        &&& forall|h: Seq<char>|
            #[trigger] self@.commits.contains_key(h) <==> crate::objects::str_views(
                self.commit_keys@,
            ).contains(h)
        &&& self.recorded()
    }

    /// The object of class `c` under `h` was read from disk, or is listed as written since.
    pub open spec fn accounted(&self, c: ObjectClass, h: Seq<char>) -> bool {
        self.loaded@.contains((c, h)) || written_views(self.written@).contains((c, h))
    }

    /// Every stored object was read from disk or is listed as written since, so that it
    /// reaches the disk when the written objects are persisted.
    pub open spec fn recorded(&self) -> bool {
        &&& forall|h: Seq<char>| #[trigger] self@.blobs.contains_key(h) ==> self.accounted(ObjectClass::Blob, h)
        &&& forall|h: Seq<char>| #[trigger] self@.trees.contains_key(h) ==> self.accounted(ObjectClass::Tree, h)
        &&& forall|h: Seq<char>|
            #[trigger] self@.commits.contains_key(h) ==> self.accounted(ObjectClass::Commit, h)
        &&& forall|h: Seq<char>|
            #[trigger] self@.conflicts.contains_key(h) ==> self.accounted(ObjectClass::Conflict, h)
    }

    /// An empty store rooted at the vault directory `root`.
    pub fn new(root: &str) -> (s: ObjectStore)
        ensures
            s.root@ == root@,
            s@.blobs == Map::<Seq<char>, Seq<u8>>::empty(),
            s@.trees == Map::<Seq<char>, Seq<EntryView>>::empty(),
            s@.commits == Map::<Seq<char>, CommitView>::empty(),
            s@.conflicts == Map::<Seq<char>, ConflictView>::empty(),
            s@.branches.len() == 0,
            s@.head.len() == 0,
            s.wf(),
            s.written@.len() == 0,
            s.loaded@ == Set::<(ObjectClass, Seq<char>)>::empty(),
    {
        let s = ObjectStore {
            root: crate::text::owned(root),
            blobs: StringHashMap::new(),
            trees: StringHashMap::new(),
            commits: StringHashMap::new(),
            conflicts: StringHashMap::new(),
            branches: Vec::new(),
            head: String::new(),
            written: Vec::new(),
            commit_keys: Vec::new(),
            loaded: Ghost(Set::empty()),
        };
        assert(s@.blobs =~= Map::<Seq<char>, Seq<u8>>::empty());
        assert(s@.trees =~= Map::<Seq<char>, Seq<EntryView>>::empty());
        assert(s@.commits =~= Map::<Seq<char>, CommitView>::empty());
        assert(s@.conflicts =~= Map::<Seq<char>, ConflictView>::empty());
        s
    }

    // Loading what is on disk.

    /// Records a blob read from disk under its file name.
    pub fn load_blob(&mut self, hash: String, content: Vec<u8>)
        ensures
            final(self).commit_keys == old(self).commit_keys,
            final(self).written == old(self).written,
            final(self).loaded@ == old(self).loaded@.insert((ObjectClass::Blob, hash@)),
            old(self).wf() ==> final(self).wf(),
            old(self).recorded() ==> final(self).recorded(),
            final(self)@ == (StoreView { blobs: old(self)@.blobs.insert(hash@, content@), ..old(self)@ }),
    {
        let ghost h = hash@;
        self.blobs.insert(hash, content);
        proof {
            self.loaded@ = self.loaded@.insert((ObjectClass::Blob, h));
        }
        assert(self@.blobs =~= old(self)@.blobs.insert(h, content@));
    }

    /// Records a tree read from disk under its file name.
    pub fn load_tree(&mut self, hash: String, tree: Tree)
        ensures
            final(self).commit_keys == old(self).commit_keys,
            final(self).written == old(self).written,
            final(self).loaded@ == old(self).loaded@.insert((ObjectClass::Tree, hash@)),
            old(self).wf() ==> final(self).wf(),
            old(self).recorded() ==> final(self).recorded(),
            final(self)@ == (StoreView { trees: old(self)@.trees.insert(hash@, tree@), ..old(self)@ }),
    {
        let ghost h = hash@;
        let ghost t = tree@;
        self.trees.insert(hash, tree);
        proof {
            self.loaded@ = self.loaded@.insert((ObjectClass::Tree, h));
        }
        assert(self@.trees =~= old(self)@.trees.insert(h, t));
    }

    /// Records a commit read from disk under its file name.
    pub fn load_commit(&mut self, hash: String, commit: Commit)
        ensures
            old(self).wf() ==> final(self).wf(),
            old(self).recorded() ==> final(self).recorded(),
            final(self).written == old(self).written,
            final(self).loaded@ == old(self).loaded@.insert((ObjectClass::Commit, hash@)),
            final(self)@ == (StoreView { commits: old(self)@.commits.insert(hash@, commit@), ..old(self)@ }),
    {
        let ghost h = hash@;
        let ghost c = commit@;
        let is_new = !self.commits.contains_key(hash.as_str());
        if is_new {
            self.commit_keys.push(hash.clone());
        }
        self.commits.insert(hash, commit);
        proof {
            self.loaded@ = self.loaded@.insert((ObjectClass::Commit, h));
        }
        assert(self@.commits =~= old(self)@.commits.insert(h, c));
        proof {
            let ks = crate::objects::str_views(self.commit_keys@);
            let oks = crate::objects::str_views(old(self).commit_keys@);
            if is_new {
                assert(ks =~= oks.push(h));
            } else {
                assert(ks =~= oks);
            }
            if old(self).wf() {
                assert forall|x: Seq<char>| #[trigger] self@.commits.contains_key(x) <==> ks.contains(x) by {
                    if x == h {
                        if is_new {
                            assert(ks[ks.len() - 1] == x);
                        } else {
                            assert(old(self)@.commits.contains_key(x));
                        }
                    } else {
                        if oks.contains(x) {
                            let k = choose|k: int| 0 <= k < oks.len() && oks[k] == x;
                            assert(ks[k] == x);
                        }
                        if ks.contains(x) {
                            let k = choose|k: int| 0 <= k < ks.len() && ks[k] == x;
                            assert(oks[k] == x);
                        }
                    }
                }
            }
        }
    }

    /// Records a conflict object read from disk under its file name.
    pub fn load_conflict(&mut self, hash: String, conflict: ConflictObject)
        ensures
            final(self).commit_keys == old(self).commit_keys,
            final(self).written == old(self).written,
            final(self).loaded@ == old(self).loaded@.insert((ObjectClass::Conflict, hash@)),
            old(self).wf() ==> final(self).wf(),
            old(self).recorded() ==> final(self).recorded(),
            final(self)@ == (StoreView {
                conflicts: old(self)@.conflicts.insert(hash@, conflict@),
                ..old(self)@
            }),
    {
        let ghost h = hash@;
        let ghost c = conflict@;
        self.conflicts.insert(hash, conflict);
        proof {
            self.loaded@ = self.loaded@.insert((ObjectClass::Conflict, h));
        }
        assert(self@.conflicts =~= old(self)@.conflicts.insert(h, c));
    }

    // Blobs

    /// Stores a file's content under its hash, unless that hash is already stored.
    pub fn write_blob(&mut self, content: &[u8]) -> (r: String)
        ensures
            final(self).commit_keys == old(self).commit_keys,
            r@ == spec_blake3_hex(content@),
            final(self).loaded == old(self).loaded,
            written_views(final(self).written@) == noted(
                written_views(old(self).written@),
                !old(self)@.blobs.contains_key(r@),
                ObjectClass::Blob,
                r@,
            ),
            old(self).wf() ==> final(self).wf(),
            old(self).recorded() ==> final(self).recorded(),
            final(self)@ == (StoreView {
                blobs: insert_new(old(self)@.blobs, r@, content@),
                ..old(self)@
            }),
    {
        let hash = blake3_hex(content);
        let ghost w0 = written_views(self.written@);
        if !self.blobs.contains_key(hash.as_str()) {
            let mut v: Vec<u8> = Vec::new();
            crate::json::push_bytes(&mut v, content);
            self.blobs.insert(hash.clone(), v);
            self.written.push(StoredObject { class: ObjectClass::Blob, hash: hash.clone() });
        }
        assert(self@.blobs =~= insert_new(old(self)@.blobs, hash@, content@));
        proof {
            lemma_noted(w0, !old(self)@.blobs.contains_key(hash@), ObjectClass::Blob, hash@);
            assert(written_views(self.written@) =~= noted(w0, !old(self)@.blobs.contains_key(hash@), ObjectClass::Blob, hash@));
        }
        hash
    }

    /// The content stored under `hash`.
    pub fn read_blob(&self, hash: &str) -> (r: Result<Vec<u8>, VaultError>)
        ensures
            match r {
                Ok(v) => self@.blobs.contains_key(hash@) && v@ == self@.blobs[hash@],
                Err(e) => !self@.blobs.contains_key(hash@) && is_not_found(e, hash@),
            },
    {
        match self.blobs.get(hash) {
            Some(b) => {
                let mut v: Vec<u8> = Vec::new();
                crate::json::push_bytes(&mut v, b.as_slice());
                Ok(v)
            },
            None => Err(VaultError::ObjectNotFound(crate::text::owned(hash))),
        }
    }

    // Trees

    /// Stores a tree under the hash of its stored form, unless that hash is already stored.
    pub fn write_tree(&mut self, tree: &Tree) -> (r: String)
        ensures
            final(self).commit_keys == old(self).commit_keys,
            r@ == tree_hash(tree@),
            final(self).loaded == old(self).loaded,
            written_views(final(self).written@) == noted(
                written_views(old(self).written@),
                !old(self)@.trees.contains_key(r@),
                ObjectClass::Tree,
                r@,
            ),
            old(self).wf() ==> final(self).wf(),
            old(self).recorded() ==> final(self).recorded(),
            final(self)@ == (StoreView {
                trees: insert_new(old(self)@.trees, r@, tree@),
                ..old(self)@
            }),
    {
        let hash = Tree::hash_of(tree.entries.as_slice());
        let ghost w0 = written_views(self.written@);
        if !self.trees.contains_key(hash.as_str()) {
            self.trees.insert(hash.clone(), tree.duplicate());
            self.written.push(StoredObject { class: ObjectClass::Tree, hash: hash.clone() });
        }
        assert(self@.trees =~= insert_new(old(self)@.trees, hash@, tree@));
        proof {
            lemma_noted(w0, !old(self)@.trees.contains_key(hash@), ObjectClass::Tree, hash@);
            assert(written_views(self.written@) =~= noted(w0, !old(self)@.trees.contains_key(hash@), ObjectClass::Tree, hash@));
        }
        hash
    }

    /// The tree stored under `hash`.
    pub fn read_tree(&self, hash: &str) -> (r: Result<Tree, VaultError>)
        ensures
            match r {
                Ok(t) => self@.trees.contains_key(hash@) && t@ == self@.trees[hash@],
                Err(e) => !self@.trees.contains_key(hash@) && is_not_found(e, hash@),
            },
    {
        match self.trees.get(hash) {
            Some(t) => Ok(t.duplicate()),
            None => Err(VaultError::ObjectNotFound(crate::text::owned(hash))),
        }
    }

    // Commits

    /// Stores a commit under the hash of its stored form, unless that hash is already stored.
    pub fn write_commit(&mut self, commit: &Commit) -> (r: String)
        ensures
            final(self).loaded == old(self).loaded,
            written_views(final(self).written@) == noted(
                written_views(old(self).written@),
                !old(self)@.commits.contains_key(r@),
                ObjectClass::Commit,
                r@,
            ),
            old(self).wf() ==> final(self).wf(),
            old(self).recorded() ==> final(self).recorded(),
            r@ == commit_hash(commit@),
            final(self)@ == (StoreView {
                commits: insert_new(old(self)@.commits, r@, commit@),
                ..old(self)@
            }),
    {
        let hash = Commit::hash_of(commit);
        let ghost w0 = written_views(self.written@);
        let is_new = !self.commits.contains_key(hash.as_str());
        if is_new {
            self.commits.insert(hash.clone(), commit.duplicate());
            self.written.push(StoredObject { class: ObjectClass::Commit, hash: hash.clone() });
            self.commit_keys.push(hash.clone());
        }
        assert(self@.commits =~= insert_new(old(self)@.commits, hash@, commit@));
        proof {
            lemma_noted(w0, is_new, ObjectClass::Commit, hash@);
            assert(written_views(self.written@) =~= noted(w0, is_new, ObjectClass::Commit, hash@));
            let ks = crate::objects::str_views(self.commit_keys@);
            let oks = crate::objects::str_views(old(self).commit_keys@);
            let h = hash@;
            if is_new {
                assert(ks =~= oks.push(h));
            } else {
                assert(ks =~= oks);
            }
            if old(self).wf() {
                assert forall|x: Seq<char>| #[trigger] self@.commits.contains_key(x) <==> ks.contains(x) by {
                    if x == h {
                        if is_new {
                            assert(ks[ks.len() - 1] == x);
                        } else {
                            assert(old(self)@.commits.contains_key(x));
                        }
                    } else {
                        if oks.contains(x) {
                            let k = choose|k: int| 0 <= k < oks.len() && oks[k] == x;
                            assert(ks[k] == x);
                        }
                        if ks.contains(x) {
                            let k = choose|k: int| 0 <= k < ks.len() && ks[k] == x;
                            assert(oks[k] == x);
                        }
                    }
                }
            }
        }
        hash
    }

    /// The commit stored under `hash`.
    pub fn read_commit(&self, hash: &str) -> (r: Result<Commit, VaultError>)
        ensures
            match r {
                Ok(c) => self@.commits.contains_key(hash@) && c@ == self@.commits[hash@],
                Err(e) => !self@.commits.contains_key(hash@) && is_not_found(e, hash@),
            },
    {
        match self.commits.get(hash) {
            Some(c) => Ok(c.duplicate()),
            None => Err(VaultError::ObjectNotFound(crate::text::owned(hash))),
        }
    }

    // Conflicts

    /// Stores a conflict object under the hash of its stored form, unless that hash is
    /// already stored.
    pub fn write_conflict(&mut self, conflict: &ConflictObject) -> (r: String)
        ensures
            final(self).commit_keys == old(self).commit_keys,
            r@ == conflict_hash(conflict@),
            final(self).loaded == old(self).loaded,
            written_views(final(self).written@) == noted(
                written_views(old(self).written@),
                !old(self)@.conflicts.contains_key(r@),
                ObjectClass::Conflict,
                r@,
            ),
            old(self).wf() ==> final(self).wf(),
            old(self).recorded() ==> final(self).recorded(),
            final(self)@ == (StoreView {
                conflicts: insert_new(old(self)@.conflicts, r@, conflict@),
                ..old(self)@
            }),
    {
        let bytes = conflict.encode();
        let hash = blake3_hex(bytes.as_slice());
        let ghost w0 = written_views(self.written@);
        if !self.conflicts.contains_key(hash.as_str()) {
            self.conflicts.insert(hash.clone(), conflict.duplicate());
            self.written.push(StoredObject { class: ObjectClass::Conflict, hash: hash.clone() });
        }
        assert(self@.conflicts =~= insert_new(old(self)@.conflicts, hash@, conflict@));
        proof {
            lemma_noted(w0, !old(self)@.conflicts.contains_key(hash@), ObjectClass::Conflict, hash@);
            assert(written_views(self.written@) =~= noted(w0, !old(self)@.conflicts.contains_key(hash@), ObjectClass::Conflict, hash@));
        }
        hash
    }

    /// The conflict object stored under `hash`.
    pub fn read_conflicts(&self, hash: &str) -> (r: Result<ConflictObject, VaultError>)
        ensures
            match r {
                Ok(c) => self@.conflicts.contains_key(hash@) && c@ == self@.conflicts[hash@],
                Err(e) => !self@.conflicts.contains_key(hash@) && is_not_found(e, hash@),
            },
    {
        match self.conflicts.get(hash) {
            Some(c) => Ok(c.duplicate()),
            None => Err(VaultError::ObjectNotFound(crate::text::owned(hash))),
        }
    }

    // Branches

    fn find_branch(&self, name: &str) -> (r: Option<usize>)
        ensures
            match r {
                Some(i) => i < self.branches@.len() && self.branches@[i as int].name@ == name@
                    && forall|j: int| 0 <= j < i ==> self.branches@[j].name@ != name@,
                None => forall|j: int| 0 <= j < self.branches@.len() ==> self.branches@[j].name@ != name@,
            },
    {
        let n = crate::text::owned(name);
        let mut i: usize = 0;
        while i < self.branches.len()
            invariant
                i <= self.branches@.len(),
                n@ == name@,
                forall|j: int| 0 <= j < i ==> self.branches@[j].name@ != name@,
            decreases self.branches.len() - i,
        {
            if self.branches[i].name == n {
                return Some(i);
            }
            i = i + 1;
        }
        None
    }

    /// What the lookup of a name in a list gives, by the position of its first match.
    proof fn lemma_branch_lookup(bs: Seq<BranchRef>, name: Seq<char>)
        ensures
            (forall|j: int| 0 <= j < bs.len() ==> bs[j].name@ != name) ==> branch_lookup(
                branch_views(bs),
                name,
            ) is None,
            forall|i: int|
                0 <= i < bs.len() && bs[i].name@ == name && (forall|j: int|
                    0 <= j < i ==> bs[j].name@ != name) ==> branch_lookup(branch_views(bs), name)
                    == Some(bs[i].target@),
        decreases bs.len(),
    {
        if bs.len() > 0 {
            Self::lemma_branch_lookup(bs.drop_first(), name);
            assert(branch_views(bs).drop_first() =~= branch_views(bs.drop_first()));
            assert forall|i: int|
                0 <= i < bs.len() && bs[i].name@ == name && (forall|j: int|
                    0 <= j < i ==> bs[j].name@ != name) implies branch_lookup(
                branch_views(bs),
                name,
            ) == Some(bs[i].target@) by {
                if i > 0 {
                    assert(bs.drop_first()[i - 1] == bs[i]);
                    assert forall|j: int| 0 <= j < i - 1 implies bs.drop_first()[j].name@ != name by {
                        assert(bs.drop_first()[j] == bs[j + 1]);
                    }
                }
            }
            if forall|j: int| 0 <= j < bs.len() ==> bs[j].name@ != name {
                assert forall|j: int| 0 <= j < bs.drop_first().len() implies bs.drop_first()[j].name@
                    != name by {
                    assert(bs.drop_first()[j] == bs[j + 1]);
                }
            }
        }
    }

    /// Sets `name` to point at `commit_hash`.
    pub fn write_branch(&mut self, name: &str, commit_hash: &str)
        ensures
            final(self).commit_keys == old(self).commit_keys,
            final(self).written == old(self).written,
            final(self).loaded == old(self).loaded,
            old(self).recorded() ==> final(self).recorded(),
            final(self)@ == (StoreView {
                branches: branch_set(old(self)@.branches, name@, commit_hash@),
                ..old(self)@
            }),
    {
        let r = self.find_branch(name);
        let ghost bs = self.branches@;
        proof {
            Self::lemma_branch_set(bs, name@, commit_hash@);
        }
        match r {
            Some(i) => {
                self.branches.set(
                    i,
                    BranchRef {
                        name: crate::text::owned(name),
                        target: crate::text::owned(commit_hash),
                    },
                );
                assert(branch_views(self.branches@) =~= branch_views(bs).update(
                    i as int,
                    (name@, commit_hash@),
                ));
            },
            None => {
                self.branches.push(
                    BranchRef {
                        name: crate::text::owned(name),
                        target: crate::text::owned(commit_hash),
                    },
                );
                assert(branch_views(self.branches@) =~= branch_views(bs).push(
                    (name@, commit_hash@),
                ));
            },
        }
        assert(self@.blobs == old(self)@.blobs && self@.trees == old(self)@.trees);
        assert(self@.commits == old(self)@.commits && self@.conflicts == old(self)@.conflicts);
    }

    /// Where `branch_set` changes a list, by the position of the first match.
    proof fn lemma_branch_set(bs: Seq<BranchRef>, name: Seq<char>, target: Seq<char>)
        ensures
            (forall|j: int| 0 <= j < bs.len() ==> bs[j].name@ != name) ==> branch_set(
                branch_views(bs),
                name,
                target,
            ) == branch_views(bs).push((name, target)),
            forall|i: int|
                0 <= i < bs.len() && bs[i].name@ == name && (forall|j: int|
                    0 <= j < i ==> bs[j].name@ != name) ==> branch_set(branch_views(bs), name, target)
                    == branch_views(bs).update(i, (name, target)),
        decreases bs.len(),
    {
        if bs.len() > 0 {
            let t = bs.drop_first();
            Self::lemma_branch_set(t, name, target);
            assert(branch_views(bs).drop_first() =~= branch_views(t));
            assert(branch_views(bs) =~= seq![branch_views(bs)[0]] + branch_views(t));
            if forall|j: int| 0 <= j < bs.len() ==> bs[j].name@ != name {
                assert forall|j: int| 0 <= j < t.len() implies t[j].name@ != name by {
                    assert(t[j] == bs[j + 1]);
                }
                assert(branch_set(branch_views(bs), name, target) =~= branch_views(bs).push(
                    (name, target),
                ));
            }
            assert forall|i: int|
                0 <= i < bs.len() && bs[i].name@ == name && (forall|j: int|
                    0 <= j < i ==> bs[j].name@ != name) implies branch_set(
                branch_views(bs),
                name,
                target,
            ) == branch_views(bs).update(i, (name, target)) by {
                if i > 0 {
                    assert(t[i - 1] == bs[i]);
                    assert forall|j: int| 0 <= j < i - 1 implies t[j].name@ != name by {
                        assert(t[j] == bs[j + 1]);
                    }
                    assert(bs[0].name@ != name);
                    assert(branch_set(branch_views(t), name, target) == branch_views(t).update(
                        i - 1,
                        (name, target),
                    ));
                    assert(branch_set(branch_views(bs), name, target) =~= branch_views(bs).update(
                        i,
                        (name, target),
                    ));
                }
            }
        } else {
            assert(branch_set(branch_views(bs), name, target) =~= branch_views(bs).push(
                (name, target),
            ));
        }
    }

    /// Removes the branch `name`.
    pub fn delete_branch(&mut self, name: &str)
        ensures
            final(self).commit_keys == old(self).commit_keys,
            final(self).written == old(self).written,
            final(self).loaded == old(self).loaded,
            old(self).recorded() ==> final(self).recorded(),
            final(self)@ == (StoreView { branches: branch_del(old(self)@.branches, name@), ..old(self)@ }),
    {
        let n = crate::text::owned(name);
        let ghost bs = branch_views(self.branches@);
        let mut kept: Vec<BranchRef> = Vec::new();
        let mut i: usize = 0;
        while i < self.branches.len()
            invariant
                i <= self.branches@.len(),
                n@ == name@,
                bs == branch_views(self.branches@),
                branch_views(kept@) == branch_del(bs.take(i as int), name@),
            decreases self.branches.len() - i,
        {
            assert(bs.take(i + 1).drop_last() =~= bs.take(i as int));
            assert(bs.take(i + 1).last() == bs[i as int]);
            if self.branches[i].name != n {
                let ghost k0 = branch_views(kept@);
                kept.push(
                    BranchRef {
                        name: self.branches[i].name.clone(),
                        target: self.branches[i].target.clone(),
                    },
                );
                assert(branch_views(kept@) =~= k0.push(bs[i as int]));
            }
            i = i + 1;
        }
        assert(bs.take(bs.len() as int) =~= bs);
        self.branches = kept;
        assert(self@.blobs == old(self)@.blobs && self@.trees == old(self)@.trees);
        assert(self@.commits == old(self)@.commits && self@.conflicts == old(self)@.conflicts);
    }

    /// The commit hash that branch `name` points at, without surrounding white space.
    pub fn read_branch(&self, name: &str) -> (r: Result<String, VaultError>)
        ensures
            match r {
                Ok(h) => branch_lookup(self@.branches, name@) matches Some(t) && h@ == spec_trim(t),
                Err(e) => branch_lookup(self@.branches, name@) is None && is_branch_not_found(
                    e,
                    name@,
                ),
            },
    {
        proof {
            Self::lemma_branch_lookup(self.branches@, name@);
        }
        match self.find_branch(name) {
            Some(i) => Ok(crate::text::trim(self.branches[i].target.as_str())),
            None => Err(VaultError::BranchNotFound(crate::text::owned(name))),
        }
    }

    /// Whether branch `name` exists.
    pub fn branch_exists(&self, name: &str) -> (r: bool)
        ensures
            r == branch_lookup(self@.branches, name@) is Some,
    {
        proof {
            Self::lemma_branch_lookup(self.branches@, name@);
        }
        self.find_branch(name).is_some()
    }

    /// The names of all branches.
    pub fn list_branches(&self) -> (r: Vec<String>)
        ensures
            r@.map_values(|s: String| s@) == self@.branches.map_values(
                |b: (Seq<char>, Seq<char>)| b.0,
            ),
    {
        let mut r: Vec<String> = Vec::new();
        let mut i: usize = 0;
        while i < self.branches.len()
            invariant
                i <= self.branches@.len(),
                r@.len() == i,
                forall|j: int| 0 <= j < i ==> (#[trigger] r@[j])@ == self.branches@[j].name@,
            decreases self.branches.len() - i,
        {
            r.push(self.branches[i].name.clone());
            i = i + 1;
        }
        assert(r@.map_values(|s: String| s@) =~= self@.branches.map_values(
            |b: (Seq<char>, Seq<char>)| b.0,
        ));
        r
    }

    // HEAD

    /// Sets the text of HEAD.
    pub fn write_head(&mut self, content: &str)
        ensures
            final(self).commit_keys == old(self).commit_keys,
            final(self).written == old(self).written,
            final(self).loaded == old(self).loaded,
            old(self).recorded() ==> final(self).recorded(),
            final(self)@ == (StoreView { head: content@, ..old(self)@ }),
    {
        self.head = crate::text::owned(content);
    }

    /// The text of HEAD without surrounding white space.
    pub fn read_head(&self) -> (r: String)
        ensures
            r@ == spec_trim(self@.head),
    {
        crate::text::trim(self.head.as_str())
    }

    /// The commit hash HEAD currently points at, or nothing for a branch without commits or
    /// an empty HEAD.
    pub fn resolve_head(&self) -> (r: Option<String>)
        ensures
            r matches Some(h) ==> resolve_head_of(self@) == Some(h@),
            r is None ==> resolve_head_of(self@) is None,
    {
        let head = self.read_head();
        if crate::text::starts_with(head.as_str(), "ref: ") {
            let branch = crate::text::trim_start_matches(head.as_str(), "ref: refs/heads/");
            proof {
                Self::lemma_branch_lookup(self.branches@, branch@);
            }
            match self.find_branch(branch.as_str()) {
                Some(i) => Some(crate::text::trim(self.branches[i].target.as_str())),
                None => None,
            }
        } else if head.as_str().unicode_len() == 0 {
            None
        } else {
            Some(head)
        }
    }

    /// The branch HEAD is on, if it names one.
    pub fn current_branch(&self) -> (r: Option<String>)
        ensures
            r matches Some(b) ==> current_branch_of(self@) == Some(b@),
            r is None ==> current_branch_of(self@) is None,
    {
        let head = self.read_head();
        if crate::text::starts_with(head.as_str(), "ref: refs/heads/") {
            Some(crate::text::trim_start_matches(head.as_str(), "ref: refs/heads/"))
        } else {
            None
        }
    }
}

/// What `noted` lists: all that was listed before, and the new object when it is fresh.
proof fn lemma_noted(ws: Seq<(ObjectClass, Seq<char>)>, fresh: bool, c: ObjectClass, h: Seq<char>)
    ensures
        forall|x: (ObjectClass, Seq<char>)| ws.contains(x) ==> #[trigger] noted(ws, fresh, c, h).contains(x),
        fresh ==> noted(ws, fresh, c, h).contains((c, h)),
{
    if fresh {
        assert(ws.push((c, h))[ws.len() as int] == (c, h));
        assert forall|x: (ObjectClass, Seq<char>)| ws.contains(x) implies #[trigger] noted(ws, fresh, c, h).contains(x) by {
            let k = choose|k: int| 0 <= k < ws.len() && ws[k] == x;
            assert(ws.push((c, h))[k] == x);
        }
    }
}

/// Reading a branch gives back what was last written to it, and writing one branch leaves
/// every other branch as it was.
pub proof fn lemma_branch_write_read(
    bs: Seq<(Seq<char>, Seq<char>)>,
    name: Seq<char>,
    target: Seq<char>,
    other: Seq<char>,
)
    ensures
        branch_lookup(branch_set(bs, name, target), name) == Some(target),
        other != name ==> branch_lookup(branch_set(bs, name, target), other) == branch_lookup(bs, other),
    decreases bs.len(),
{
    if bs.len() == 0 {
        let one = seq![(name, target)];
        assert(one.drop_first() =~= Seq::<(Seq<char>, Seq<char>)>::empty());
        assert(one[0] == (name, target));
        if other != name {
            assert(branch_lookup(one, other) == branch_lookup(one.drop_first(), other));
        }
    } else if bs[0].0 == name {
        let u = bs.update(0, (name, target));
        assert(u.drop_first() =~= bs.drop_first());
        assert(u[0] == (name, target));
        if other != name {
            assert(branch_lookup(u, other) == branch_lookup(u.drop_first(), other));
            assert(branch_lookup(bs, other) == branch_lookup(bs.drop_first(), other));
        }
    } else {
        lemma_branch_write_read(bs.drop_first(), name, target, other);
        let rest = branch_set(bs.drop_first(), name, target);
        let u = seq![bs[0]] + rest;
        assert(u.drop_first() =~= rest);
        assert(u[0] == bs[0]);
        if other != name {
            if bs[0].0 == other {
                assert(branch_lookup(u, other) == Some(bs[0].1));
            } else {
                assert(branch_lookup(u, other) == branch_lookup(rest, other));
                assert(branch_lookup(bs, other) == branch_lookup(bs.drop_first(), other));
            }
        }
    }
}

/// No two branches of `bs` have the same name.
pub open spec fn names_distinct(bs: Seq<(Seq<char>, Seq<char>)>) -> bool {
    forall|i: int, j: int| 0 <= i < j < bs.len() ==> (#[trigger] bs[i]).0 != (#[trigger] bs[j]).0
}

/// Some branch of `bs` is named `n`.
pub open spec fn names(bs: Seq<(Seq<char>, Seq<char>)>, n: Seq<char>) -> bool {
    exists|k: int| 0 <= k < bs.len() && (#[trigger] bs[k]).0 == n
}

/// Writing a branch keeps the names of a list distinct, so that listing the branches after any
/// writes into an empty list gives each name once: the list then names the branch written, and
/// names every other branch it named before, and no other.
pub proof fn lemma_branch_names_once(bs: Seq<(Seq<char>, Seq<char>)>, name: Seq<char>, target: Seq<char>)
    requires
        names_distinct(bs),
    ensures
        names_distinct(branch_set(bs, name, target)),
        names(branch_set(bs, name, target), name),
        forall|n: Seq<char>| n != name ==> (names(branch_set(bs, name, target), n) <==> names(bs, n)),
    decreases bs.len(),
{
    let r = branch_set(bs, name, target);
    if bs.len() == 0 {
        assert(r[0] == (name, target));
    } else if bs[0].0 == name {
        assert(r[0] == (name, target));
        assert forall|i: int, j: int| 0 <= i < j < r.len() implies (#[trigger] r[i]).0 != (#[trigger] r[j]).0 by {
            assert(r[i].0 == bs[i].0 && r[j].0 == bs[j].0);
        }
        assert forall|n: Seq<char>| n != name implies (names(r, n) <==> names(bs, n)) by {
            if names(r, n) {
                let k = choose|k: int| 0 <= k < r.len() && (#[trigger] r[k]).0 == n;
                assert(bs[k].0 == n);
            }
            if names(bs, n) {
                let k = choose|k: int| 0 <= k < bs.len() && (#[trigger] bs[k]).0 == n;
                assert(r[k].0 == n);
            }
        }
    } else {
        let t = bs.drop_first();
        assert(names_distinct(t)) by {
            assert forall|i: int, j: int| 0 <= i < j < t.len() implies (#[trigger] t[i]).0 != (#[trigger] t[j]).0 by {
                assert(t[i] == bs[i + 1] && t[j] == bs[j + 1]);
            }
        }
        lemma_branch_names_once(t, name, target);
        let rt = branch_set(t, name, target);
        assert(r == seq![bs[0]] + rt);
        assert(!names(t, bs[0].0)) by {
            if names(t, bs[0].0) {
                let k = choose|k: int| 0 <= k < t.len() && (#[trigger] t[k]).0 == bs[0].0;
                assert(bs[k + 1].0 == bs[0].0);
            }
        }
        assert(!names(rt, bs[0].0));
        assert forall|i: int, j: int| 0 <= i < j < r.len() implies (#[trigger] r[i]).0 != (#[trigger] r[j]).0 by {
            if i == 0 {
                assert(r[j] == rt[j - 1]);
                if rt[j - 1].0 == bs[0].0 {
                    assert(names(rt, bs[0].0));
                }
            } else {
                assert(r[i] == rt[i - 1] && r[j] == rt[j - 1]);
            }
        }
        let kn = choose|k: int| 0 <= k < rt.len() && (#[trigger] rt[k]).0 == name;
        assert(r[kn + 1] == rt[kn]);
        assert forall|n: Seq<char>| n != name implies (names(r, n) <==> names(bs, n)) by {
            if names(r, n) {
                let k = choose|k: int| 0 <= k < r.len() && (#[trigger] r[k]).0 == n;
                if k == 0 {
                    assert(bs[0].0 == n);
                } else {
                    assert(rt[k - 1].0 == n);
                    assert(names(rt, n));
                    assert(names(t, n));
                    let q = choose|q: int| 0 <= q < t.len() && (#[trigger] t[q]).0 == n;
                    assert(t[q] == bs[q + 1]);
                    assert(bs[q + 1].0 == n);
                }
            }
            if names(bs, n) {
                let k = choose|k: int| 0 <= k < bs.len() && (#[trigger] bs[k]).0 == n;
                if k == 0 {
                    assert(r[0].0 == n);
                } else {
                    assert(t[k - 1] == bs[k]);
                    assert(t[k - 1].0 == n);
                    assert(names(t, n));
                    let q = choose|q: int| 0 <= q < rt.len() && (#[trigger] rt[q]).0 == n;
                    assert(r[q + 1].0 == n);
                }
            }
        }
    }
}

/// The branch list after writing each `(name, target)` of `ws` in turn into `bs`.
pub open spec fn apply_branch_writes(bs: Seq<(Seq<char>, Seq<char>)>, ws: Seq<(Seq<char>, Seq<char>)>) -> Seq<
    (Seq<char>, Seq<char>),
>
    decreases ws.len(),
{
    if ws.len() == 0 {
        bs
    } else {
        branch_set(apply_branch_writes(bs, ws.drop_last()), ws.last().0, ws.last().1)
    }
}

/// Writing the branches `ws` in turn, into no branches, lists each name written once and no
/// other (nested names such as `feature/auth` like any other), and each name then reads as the
/// target it was last written with.
pub proof fn lemma_branch_listing(ws: Seq<(Seq<char>, Seq<char>)>)
    ensures
        names_distinct(apply_branch_writes(Seq::empty(), ws)),
        forall|n: Seq<char>|
            #[trigger] names(apply_branch_writes(Seq::empty(), ws), n) <==> exists|k: int|
                0 <= k < ws.len() && ws[k].0 == n,
        forall|k: int|
            0 <= k < ws.len() && (forall|j: int| k < j < ws.len() ==> ws[j].0 != ws[k].0) ==> branch_lookup(
                apply_branch_writes(Seq::empty(), ws),
                #[trigger] ws[k].0,
            ) == Some(ws[k].1),
    decreases ws.len(),
{
    if ws.len() > 0 {
        let t = ws.drop_last();
        lemma_branch_listing(t);
        let bt = apply_branch_writes(Seq::empty(), t);
        let (n0, t0) = ws.last();
        lemma_branch_names_once(bt, n0, t0);
        let r = apply_branch_writes(Seq::empty(), ws);
        assert(r == branch_set(bt, n0, t0));
        assert forall|n: Seq<char>| #[trigger] names(r, n) <==> exists|k: int| 0 <= k < ws.len() && ws[k].0 == n by {
            if n != n0 {
                if names(bt, n) {
                    let k = choose|k: int| 0 <= k < t.len() && t[k].0 == n;
                    assert(ws[k] == t[k]);
                }
                if exists|k: int| 0 <= k < ws.len() && ws[k].0 == n {
                    let k = choose|k: int| 0 <= k < ws.len() && ws[k].0 == n;
                    assert(k < ws.len() - 1);
                    assert(t[k] == ws[k]);
                }
            } else {
                assert(ws[ws.len() - 1].0 == n);
            }
        }
        assert forall|k: int|
            0 <= k < ws.len() && (forall|j: int| k < j < ws.len() ==> ws[j].0 != ws[k].0) implies branch_lookup(
            r,
            #[trigger] ws[k].0,
        ) == Some(ws[k].1) by {
            lemma_branch_write_read(bt, n0, t0, ws[k].0);
            if k < ws.len() - 1 {
                assert(t[k] == ws[k]);
                assert(ws[ws.len() - 1].0 != ws[k].0);
                assert forall|j: int| k < j < t.len() implies t[j].0 != t[k].0 by {
                    assert(t[j] == ws[j]);
                }
            }
        }
    }
}

/// No branch of `branch_del(bs, name)` is named `name`, so looking it up finds nothing.
pub proof fn lemma_branch_deleted(bs: Seq<(Seq<char>, Seq<char>)>, name: Seq<char>)
    ensures
        branch_lookup(branch_del(bs, name), name) is None,
{
    lemma_del_names(bs, name);
    lemma_lookup_absent(branch_del(bs, name), name);
}

proof fn lemma_del_names(bs: Seq<(Seq<char>, Seq<char>)>, name: Seq<char>)
    ensures
        forall|k: int| 0 <= k < branch_del(bs, name).len() ==> (#[trigger] branch_del(bs, name)[k]).0 != name,
    decreases bs.len(),
{
    if bs.len() > 0 {
        lemma_del_names(bs.drop_last(), name);
        let d = branch_del(bs.drop_last(), name);
        if bs.last().0 != name {
            assert forall|k: int| 0 <= k < d.push(bs.last()).len() implies (#[trigger] d.push(bs.last())[k]).0 != name by {
                if k < d.len() {
                    assert(d.push(bs.last())[k] == d[k]);
                }
            }
        }
    }
}

proof fn lemma_lookup_absent(bs: Seq<(Seq<char>, Seq<char>)>, name: Seq<char>)
    requires
        forall|k: int| 0 <= k < bs.len() ==> (#[trigger] bs[k]).0 != name,
    ensures
        branch_lookup(bs, name) is None,
    decreases bs.len(),
{
    if bs.len() > 0 {
        assert(bs[0].0 != name);
        assert forall|k: int| 0 <= k < bs.drop_first().len() implies (#[trigger] bs.drop_first()[k]).0 != name by {
            assert(bs.drop_first()[k] == bs[k + 1]);
        }
        lemma_lookup_absent(bs.drop_first(), name);
    }
}

/// An object written under a hash that is not stored yet is read back as written; one already
/// stored stays as it was.
pub proof fn lemma_object_write_read<V>(m: Map<Seq<char>, V>, k: Seq<char>, v: V)
    ensures
        insert_new(m, k, v).contains_key(k),
        !m.contains_key(k) ==> insert_new(m, k, v)[k] == v,
        m.contains_key(k) ==> insert_new(m, k, v) == m,
        forall|x: Seq<char>| x != k ==> #[trigger] insert_new(m, k, v).contains_key(x) == m.contains_key(x),
{
}

/// When HEAD is on a branch, moving that branch to `target` makes HEAD resolve to `target`,
/// without surrounding white space.
pub proof fn lemma_head_follows_branch(v: StoreView, target: Seq<char>)
    requires
        current_branch_of(v) is Some,
    ensures
        resolve_head_of(
            StoreView { branches: branch_set(v.branches, current_branch_of(v)->0, target), ..v },
        ) == Some(spec_trim(target)),
{
    let b = current_branch_of(v)->0;
    lemma_branch_write_read(v.branches, b, target, b);
    reveal_strlit("ref: refs/heads/");
    reveal_strlit("ref: ");
    let h = spec_trim(v.head);
    assert("ref: refs/heads/"@.is_prefix_of(h));
    assert(h.subrange(0, 16) =~= "ref: refs/heads/"@);
    assert(h.subrange(0, 5) =~= h.subrange(0, 16).subrange(0, 5));
    assert("ref: "@.is_prefix_of(h));
}

} // verus!
