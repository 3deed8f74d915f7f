use vault_core::error::VaultError;
use vault_core::objects::{encode_tree, Author, Blob, Commit, ConflictObject, EntryKind, Tree, TreeEntry};
use vault_core::store::{ObjectClass, ObjectStore};

fn hex(data: &[u8]) -> String {
    blake3::hash(data).to_hex().to_string()
}

fn entry(name: &str, kind: EntryKind, hash: &str) -> TreeEntry {
    TreeEntry { name: name.to_string(), kind, hash: hash.to_string() }
}

fn sample_commit() -> Commit {
    Commit {
        tree: "t1".to_string(),
        parents: vec!["p1".to_string(), "p2".to_string()],
        author: Author { name: "Ann".to_string(), email: "ann@example.com".to_string() },
        timestamp: "2024-05-01T12:00:00Z".to_string(),
        message: "first \"quoted\"\nline".to_string(),
        change_id: "c-1".to_string(),
    }
}

#[test]
fn blob_hash_is_blake3_hex() {
    assert_eq!(Blob::hash(b"hello"), hex(b"hello"));
    assert_eq!(Blob::hash(b""), hex(b""));
    assert_eq!(Blob::hash(b"hello").len(), 64);
}

#[test]
fn tree_encoding_is_serde_json_text() {
    let es = vec![entry("a.txt", EntryKind::Blob, "h1"), entry("src", EntryKind::Tree, "h2"), entry("c", EntryKind::Conflict, "h3")];
    let expected = br#"{"entries":[{"name":"a.txt","kind":"blob","hash":"h1"},{"name":"src","kind":"tree","hash":"h2"},{"name":"c","kind":"conflict","hash":"h3"}]}"#;
    assert_eq!(encode_tree(&es), expected.to_vec());
    assert_eq!(encode_tree(&[]), br#"{"entries":[]}"#.to_vec());
    assert_eq!(Tree::hash_of(&es), hex(expected));
}

#[test]
fn tree_encoding_escapes_names() {
    let es = vec![entry("q\"b\\\n\t\u{1}é", EntryKind::Blob, "h")];
    let name_json = serde_json::to_string("q\"b\\\n\t\u{1}é").unwrap();
    let expected = format!(r#"{{"entries":[{{"name":{},"kind":"blob","hash":"h"}}]}}"#, name_json);
    assert_eq!(encode_tree(&es), expected.into_bytes());
}

#[test]
fn commit_encoding_is_serde_json_text() {
    let c = sample_commit();
    let msg = serde_json::to_string(&c.message).unwrap();
    let expected = format!(
        r#"{{"tree":"t1","parents":["p1","p2"],"author":{{"name":"Ann","email":"ann@example.com"}},"timestamp":"2024-05-01T12:00:00Z","message":{},"change_id":"c-1"}}"#,
        msg
    );
    assert_eq!(c.encode(), expected.clone().into_bytes());
    assert_eq!(Commit::hash_of(&c), hex(expected.as_bytes()));
}

#[test]
fn conflict_encoding_is_serde_json_text() {
    let c = ConflictObject { ours: "o".to_string(), theirs: "t".to_string(), ancestor: "".to_string() };
    assert_eq!(c.encode(), br#"{"ours":"o","theirs":"t","ancestor":""}"#.to_vec());
}

#[test]
fn tree_get_finds_first_entry_by_name() {
    let t = Tree { entries: vec![entry("a", EntryKind::Blob, "1"), entry("b", EntryKind::Tree, "2")] };
    assert_eq!(t.get("b").map(|e| e.hash.clone()), Some("2".to_string()));
    assert!(t.get("c").is_none());
    assert!(Tree::new().entries.is_empty());
    assert!(Tree::default().entries.is_empty());
}

#[test]
fn blob_write_then_read_gives_content_back() {
    let mut s = ObjectStore::new("/w/.vault");
    let h = s.write_blob(b"data");
    assert_eq!(h, hex(b"data"));
    assert_eq!(s.read_blob(&h).unwrap(), b"data".to_vec());
    let again = s.write_blob(b"data");
    assert_eq!(again, h);
    assert_eq!(s.written.len(), 1);
}

#[test]
fn reading_a_missing_object_reports_its_hash() {
    let s = ObjectStore::new("/w/.vault");
    assert!(matches!(s.read_blob("nope"), Err(VaultError::ObjectNotFound(h)) if h == "nope"));
    assert!(matches!(s.read_tree("t"), Err(VaultError::ObjectNotFound(h)) if h == "t"));
    assert!(matches!(s.read_commit("c"), Err(VaultError::ObjectNotFound(h)) if h == "c"));
    assert!(matches!(s.read_conflicts("x"), Err(VaultError::ObjectNotFound(h)) if h == "x"));
}

#[test]
fn tree_commit_and_conflict_round_trip() {
    let mut s = ObjectStore::new("/w/.vault");
    let t = Tree { entries: vec![entry("a", EntryKind::Blob, "1")] };
    let th = s.write_tree(&t);
    assert_eq!(th, Tree::hash_of(&t.entries));
    let back = s.read_tree(&th).unwrap();
    assert_eq!(back.entries.len(), 1);
    assert_eq!(back.entries[0].name, "a");

    let c = sample_commit();
    let ch = s.write_commit(&c);
    assert_eq!(ch, Commit::hash_of(&c));
    let cb = s.read_commit(&ch).unwrap();
    assert_eq!(cb.message, c.message);
    assert_eq!(cb.parents, c.parents);

    let k = ConflictObject { ours: "o".to_string(), theirs: "t".to_string(), ancestor: "a".to_string() };
    let kh = s.write_conflict(&k);
    assert_eq!(kh, hex(&k.encode()));
    assert_eq!(s.read_conflicts(&kh).unwrap().theirs, "t");
}

#[test]
fn branch_write_then_read_and_others_unchanged() {
    let mut s = ObjectStore::new("/w/.vault");
    s.write_branch("main", "aaa");
    s.write_branch("dev", "bbb");
    s.write_branch("main", "ccc\n");
    assert_eq!(s.read_branch("main").unwrap(), "ccc");
    assert_eq!(s.read_branch("dev").unwrap(), "bbb");
    assert!(s.branch_exists("dev"));
    assert!(!s.branch_exists("nope"));
    assert_eq!(s.list_branches(), vec!["main".to_string(), "dev".to_string()]);
    assert!(matches!(s.read_branch("nope"), Err(VaultError::BranchNotFound(n)) if n == "nope"));
}

#[test]
fn head_resolves_through_its_branch() {
    let mut s = ObjectStore::new("/w/.vault");
    assert_eq!(s.resolve_head(), None);
    s.write_head("ref: refs/heads/main");
    assert_eq!(s.resolve_head(), None);
    assert_eq!(s.current_branch(), Some("main".to_string()));
    s.write_branch("main", "abc");
    assert_eq!(s.resolve_head(), Some("abc".to_string()));
    s.write_branch("main", "def");
    assert_eq!(s.resolve_head(), Some("def".to_string()));
    s.write_head("abc\n");
    assert_eq!(s.read_head(), "abc");
    assert_eq!(s.resolve_head(), Some("abc".to_string()));
    assert_eq!(s.current_branch(), None);
}

#[test]
fn error_messages_name_what_failed() {
    assert_eq!(VaultError::NotARepo.message(), "Not a vault repository (no .vault directory found)");
    assert_eq!(VaultError::ObjectNotFound("h".to_string()).message(), "Object Not found: h");
    assert_eq!(VaultError::BranchNotFound("b".to_string()).message(), "Branch not found: b");
    assert_eq!(VaultError::BranchExists("b".to_string()).message(), "Branch already exists");
    assert_eq!(VaultError::NothingToUndo.message(), "Nothing to undo - operation log is empty");
    assert_eq!(VaultError::Io("x".to_string()).message(), "IO error: x");
    assert_eq!(VaultError::Json("y".to_string()).message(), "Serialization error: y");
    assert_eq!(VaultError::AlreadyInit("/p".to_string()).message(), "Repository already initialised at /p");
}

#[test]
fn each_new_object_is_listed_as_written_once() {
    let mut s = ObjectStore::new("/w/.vault");
    s.load_blob("old".to_string(), b"x".to_vec());
    assert!(s.written.is_empty());
    let b = s.write_blob(b"new");
    let t = s.write_tree(&Tree { entries: vec![TreeEntry { name: "f".to_string(), kind: EntryKind::Blob, hash: b.clone() }] });
    s.write_blob(b"new");
    s.write_tree(&Tree { entries: vec![TreeEntry { name: "f".to_string(), kind: EntryKind::Blob, hash: b.clone() }] });
    let listed: Vec<(ObjectClass, String)> = s.written.iter().map(|o| (o.class, o.hash.clone())).collect();
    assert_eq!(listed, vec![(ObjectClass::Blob, b), (ObjectClass::Tree, t)]);
}

#[test]
fn deleting_a_branch_leaves_the_others() {
    let mut s = ObjectStore::new("/w/.vault");
    s.write_branch("main", "a");
    s.write_branch("feature/x", "b");
    s.write_branch("main", "c");
    assert_eq!(s.list_branches(), vec!["main".to_string(), "feature/x".to_string()]);
    s.delete_branch("main");
    assert!(!s.branch_exists("main"));
    assert_eq!(s.read_branch("feature/x").unwrap(), "b");
    assert_eq!(s.list_branches(), vec!["feature/x".to_string()]);
}
