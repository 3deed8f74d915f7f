//! The objects a repository stores: blobs, trees, commits and conflicts.
use vstd::prelude::*;
use vstd::string::StringSliceAdditionalSpecFns;
use crate::hashing::{blake3_hex, spec_blake3_hex};
use crate::json::{comma_join, json_str, json_str_array, push_json_str, push_json_str_array, push_text};

verus! {

/// A file's content.
pub struct Blob {
    pub content: Vec<u8>,
}

impl Blob {
    /// The content hash of a file.
    pub fn hash(content: &[u8]) -> (r: String)
        ensures
            r@ == spec_blake3_hex(content@),
    {
        blake3_hex(content)
    }
}

/// What a tree entry names.
#[derive(Clone, Copy, Debug, PartialEq, Eq, Structural)]
pub enum EntryKind {
    Blob,
    Tree,
    Conflict,
}

/// A tree entry as a value.
pub struct EntryView {
    pub name: Seq<char>,
    pub kind: EntryKind,
    pub hash: Seq<char>,
}

/// One named child of a tree.
#[derive(Debug)]
pub struct TreeEntry {
    pub name: String,
    pub kind: EntryKind,
    pub hash: String,
}

impl View for TreeEntry {
    type V = EntryView;

    open spec fn view(&self) -> EntryView {
        EntryView { name: self.name@, kind: self.kind, hash: self.hash@ }
    }
}

impl TreeEntry {
    /// A copy of the entry.
    pub fn duplicate(&self) -> (r: TreeEntry)
        ensures
            r@ == self@,
    {
        TreeEntry { name: self.name.clone(), kind: self.kind, hash: self.hash.clone() }
    }
}

/// A directory listing.
#[derive(Debug)]
pub struct Tree {
    pub entries: Vec<TreeEntry>,
}

/// The values of a sequence of tree entries.
pub open spec fn entry_views(es: Seq<TreeEntry>) -> Seq<EntryView> {
    es.map_values(|e: TreeEntry| e@)
}

impl View for Tree {
    type V = Seq<EntryView>;

    open spec fn view(&self) -> Seq<EntryView> {
        entry_views(self.entries@)
    }
}

/// The JSON name of an entry kind.
pub open spec fn kind_json(k: EntryKind) -> Seq<u8> {
    match k {
        EntryKind::Blob => "\"blob\"".spec_bytes(),
        EntryKind::Tree => "\"tree\"".spec_bytes(),
        EntryKind::Conflict => "\"conflict\"".spec_bytes(),
    }
}

/// The stored form of one tree entry.
pub open spec fn entry_json(e: EntryView) -> Seq<u8> {
    "{\"name\":".spec_bytes() + json_str(e.name) + ",\"kind\":".spec_bytes() + kind_json(e.kind)
        + ",\"hash\":".spec_bytes() + json_str(e.hash) + "}".spec_bytes()
}

/// The stored form of a tree.
pub open spec fn tree_json(es: Seq<EntryView>) -> Seq<u8> {
    "{\"entries\":[".spec_bytes() + comma_join(es.map_values(|e: EntryView| entry_json(e)))
        + "]}".spec_bytes()
}

/// The hash under which a tree is stored.
pub open spec fn tree_hash(es: Seq<EntryView>) -> Seq<char> {
    spec_blake3_hex(tree_json(es))
}

fn push_kind(out: &mut Vec<u8>, k: EntryKind)
    ensures
        final(out)@ == old(out)@ + kind_json(k),
{
    match k {
        EntryKind::Blob => push_text(out, "\"blob\""),
        EntryKind::Tree => push_text(out, "\"tree\""),
        EntryKind::Conflict => push_text(out, "\"conflict\""),
    }
}

fn push_entry(out: &mut Vec<u8>, e: &TreeEntry)
    ensures
        final(out)@ == old(out)@ + entry_json(e@),
{
    let ghost o = out@;
    push_text(out, "{\"name\":");
    push_json_str(out, e.name.as_str());
    push_text(out, ",\"kind\":");
    push_kind(out, e.kind);
    push_text(out, ",\"hash\":");
    push_json_str(out, e.hash.as_str());
    push_text(out, "}");
    assert(out@ =~= o + entry_json(e@));
}

/// The stored form of a tree with these entries.
pub fn encode_tree(entries: &[TreeEntry]) -> (r: Vec<u8>)
    ensures
        r@ == tree_json(entry_views(entries@)),
{
    let mut out: Vec<u8> = Vec::new();
    let ghost es = entry_views(entries@);
    let ghost js = es.map_values(|e: EntryView| entry_json(e));
    push_text(&mut out, "{\"entries\":[");
    let mut i: usize = 0;
    while i < entries.len()
        invariant
            i <= entries@.len(),
            es == entry_views(entries@),
            js == es.map_values(|e: EntryView| entry_json(e)),
            out@ == "{\"entries\":[".spec_bytes() + comma_join(js.take(i as int)),
        decreases entries.len() - i,
    {
        if i > 0 {
            out.push(0x2C);
        }
        push_entry(&mut out, &entries[i]);
        i = i + 1;
        assert(js.take(i as int).drop_last() =~= js.take(i - 1));
    }
    assert(js.take(entries@.len() as int) =~= js);
    push_text(&mut out, "]}");
    out
}

impl Tree {
    /// An empty tree.
    pub fn new() -> (t: Tree)
        ensures
            t@ == Seq::<EntryView>::empty(),
    {
        Tree { entries: Vec::new() }
    }

    /// The first entry with the given name.
    pub fn get(&self, name: &str) -> (r: Option<&TreeEntry>)
        ensures
            match r {
                Some(e) => exists|i: int|
                    0 <= i < self@.len() && self@[i].name == name@ && e@ == self@[i] && (forall|
                        j: int,
                    | 0 <= j < i ==> self@[j].name != name@),
                None => forall|i: int| 0 <= i < self@.len() ==> self@[i].name != name@,
            },
    {
        let n = crate::text::owned(name);
        let mut i: usize = 0;
        while i < self.entries.len()
            invariant
                i <= self.entries@.len(),
                n@ == name@,
                forall|j: int| 0 <= j < i ==> self@[j].name != name@,
            decreases self.entries.len() - i,
        {
            if self.entries[i].name == n {
                assert(self@[i as int] == self.entries@[i as int]@);
                return Some(&self.entries[i]);
            }
            i = i + 1;
        }
        None
    }

    /// The hash under which a tree with these entries is stored.
    pub fn hash_of(entries: &[TreeEntry]) -> (r: String)
        ensures
            r@ == tree_hash(entry_views(entries@)),
    {
        let bytes = encode_tree(entries);
        blake3_hex(bytes.as_slice())
    }

    /// A copy of the tree.
    pub fn duplicate(&self) -> (r: Tree)
        ensures
            r@ == self@,
    {
        let mut v: Vec<TreeEntry> = Vec::new();
        let mut i: usize = 0;
        while i < self.entries.len()
            invariant
                i <= self.entries@.len(),
                v@.len() == i,
                forall|j: int| 0 <= j < i ==> (#[trigger] v@[j])@ == self.entries@[j]@,
            decreases self.entries.len() - i,
        {
            v.push(self.entries[i].duplicate());
            i = i + 1;
        }
        assert(entry_views(v@) =~= entry_views(self.entries@));
        Tree { entries: v }
    }
}

impl Default for Tree {
    /// An empty tree.
    fn default() -> (t: Tree)
        ensures
            t@ == Seq::<EntryView>::empty(),
    {
        Tree::new()
    }
}

/// The two sides and the common ancestor of a conflicted file, by blob hash.
#[derive(Debug)]
pub struct ConflictObject {
    pub ours: String,
    pub theirs: String,
    pub ancestor: String,
}

/// A conflict object as a value.
pub struct ConflictView {
    pub ours: Seq<char>,
    pub theirs: Seq<char>,
    pub ancestor: Seq<char>,
}

impl View for ConflictObject {
    type V = ConflictView;

    open spec fn view(&self) -> ConflictView {
        ConflictView { ours: self.ours@, theirs: self.theirs@, ancestor: self.ancestor@ }
    }
}

/// The stored form of a conflict object.
pub open spec fn conflict_json(c: ConflictView) -> Seq<u8> {
    "{\"ours\":".spec_bytes() + json_str(c.ours) + ",\"theirs\":".spec_bytes() + json_str(
        c.theirs,
    ) + ",\"ancestor\":".spec_bytes() + json_str(c.ancestor) + "}".spec_bytes()
}

/// The hash under which a conflict object is stored.
pub open spec fn conflict_hash(c: ConflictView) -> Seq<char> {
    spec_blake3_hex(conflict_json(c))
}

impl ConflictObject {
    /// The stored form of the conflict object.
    pub fn encode(&self) -> (r: Vec<u8>)
        ensures
            r@ == conflict_json(self@),
    {
        let mut out: Vec<u8> = Vec::new();
        push_text(&mut out, "{\"ours\":");
        push_json_str(&mut out, self.ours.as_str());
        push_text(&mut out, ",\"theirs\":");
        push_json_str(&mut out, self.theirs.as_str());
        push_text(&mut out, ",\"ancestor\":");
        push_json_str(&mut out, self.ancestor.as_str());
        push_text(&mut out, "}");
        assert(out@ =~= conflict_json(self@));
        out
    }

    /// A copy of the conflict object.
    pub fn duplicate(&self) -> (r: ConflictObject)
        ensures
            r@ == self@,
    {
        ConflictObject {
            ours: self.ours.clone(),
            theirs: self.theirs.clone(),
            ancestor: self.ancestor.clone(),
        }
    }
}

/// Who made a commit.
#[derive(Debug)]
pub struct Author {
    pub name: String,
    pub email: String,
}

/// An author as a value.
pub struct AuthorView {
    pub name: Seq<char>,
    pub email: Seq<char>,
}

impl View for Author {
    type V = AuthorView;

    open spec fn view(&self) -> AuthorView {
        AuthorView { name: self.name@, email: self.email@ }
    }
}

impl Author {
    /// A copy of the author.
    pub fn duplicate(&self) -> (r: Author)
        ensures
            r@ == self@,
    {
        Author { name: self.name.clone(), email: self.email.clone() }
    }
}

/// A recorded state of the working directory. The timestamp is held as the RFC 3339 text
/// under which it is stored.
#[derive(Debug)]
pub struct Commit {
    pub tree: String,
    pub parents: Vec<String>,
    pub author: Author,
    pub timestamp: String,
    pub message: String,
    pub change_id: String,
}

/// A commit as a value.
pub struct CommitView {
    pub tree: Seq<char>,
    pub parents: Seq<Seq<char>>,
    pub author: AuthorView,
    pub timestamp: Seq<char>,
    pub message: Seq<char>,
    pub change_id: Seq<char>,
}

/// The values of a sequence of strings.
pub open spec fn str_views(v: Seq<String>) -> Seq<Seq<char>> {
    v.map_values(|s: String| s@)
}

impl View for Commit {
    type V = CommitView;

    open spec fn view(&self) -> CommitView {
        CommitView {
            tree: self.tree@,
            parents: str_views(self.parents@),
            author: self.author@,
            timestamp: self.timestamp@,
            message: self.message@,
            change_id: self.change_id@,
        }
    }
}

/// The stored form of a commit.
pub open spec fn commit_json(c: CommitView) -> Seq<u8> {
    "{\"tree\":".spec_bytes() + json_str(c.tree) + ",\"parents\":".spec_bytes()
        + json_str_array(c.parents) + ",\"author\":{\"name\":".spec_bytes() + json_str(
        c.author.name,
    ) + ",\"email\":".spec_bytes() + json_str(c.author.email) + "},\"timestamp\":".spec_bytes()
        + json_str(c.timestamp) + ",\"message\":".spec_bytes() + json_str(c.message)
        + ",\"change_id\":".spec_bytes() + json_str(c.change_id) + "}".spec_bytes()
}

/// The hash under which a commit is stored.
pub open spec fn commit_hash(c: CommitView) -> Seq<char> {
    spec_blake3_hex(commit_json(c))
}

/// A copy of a list of strings.
pub fn copy_strings(v: &Vec<String>) -> (r: Vec<String>)
    ensures
        r@ == v@,
{
    let mut r: Vec<String> = Vec::new();
    let mut i: usize = 0;
    while i < v.len()
        invariant
            i <= v@.len(),
            r@ == v@.take(i as int),
        decreases v.len() - i,
    {
        r.push(v[i].clone());
        i = i + 1;
        assert(r@ =~= v@.take(i as int));
    }
    assert(v@.take(v@.len() as int) =~= v@);
    r
}

impl Commit {
    /// The stored form of the commit.
    pub fn encode(&self) -> (r: Vec<u8>)
        ensures
            r@ == commit_json(self@),
    {
        let mut out: Vec<u8> = Vec::new();
        push_text(&mut out, "{\"tree\":");
        push_json_str(&mut out, self.tree.as_str());
        push_text(&mut out, ",\"parents\":");
        push_json_str_array(&mut out, &self.parents);
        push_text(&mut out, ",\"author\":{\"name\":");
        push_json_str(&mut out, self.author.name.as_str());
        push_text(&mut out, ",\"email\":");
        push_json_str(&mut out, self.author.email.as_str());
        push_text(&mut out, "},\"timestamp\":");
        push_json_str(&mut out, self.timestamp.as_str());
        push_text(&mut out, ",\"message\":");
        push_json_str(&mut out, self.message.as_str());
        push_text(&mut out, ",\"change_id\":");
        push_json_str(&mut out, self.change_id.as_str());
        push_text(&mut out, "}");
        assert(out@ =~= commit_json(self@));
        out
    }

    /// The hash under which `commit` is stored.
    pub fn hash_of(commit: &Commit) -> (r: String)
        ensures
            r@ == commit_hash(commit@),
    {
        let bytes = commit.encode();
        blake3_hex(bytes.as_slice())
    }

    /// A copy of the commit.
    pub fn duplicate(&self) -> (r: Commit)
        ensures
            r@ == self@,
    {
        Commit {
            tree: self.tree.clone(),
            parents: copy_strings(&self.parents),
            author: self.author.duplicate(),
            timestamp: self.timestamp.clone(),
            message: self.message.clone(),
            change_id: self.change_id.clone(),
        }
    }
}

/// How a path differs from the last commit.
#[derive(Clone, Copy, Debug, PartialEq, Eq, Structural)]
pub enum FileStatus {
    Added,
    Modified,
    Deleted,
    Untracked,
}

/// One changed path.
#[derive(Debug)]
pub struct StatusEntry {
    pub path: String,
    pub status: FileStatus,
}

} // verus!
