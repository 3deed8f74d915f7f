use vault_core::cherry::compute_cherry;
use vault_core::dag::{ancestors, head_commit, log_walk, merge_base};
use vault_core::diff::{diff_trees, flatten, DiffKind};
use vault_core::error::VaultError;
use vault_core::linediff::{line_diff, make_addition_hunks, make_deletion_hunks, DiffLine};
use vault_core::merge::three_way_merge;
use vault_core::objects::{Author, Commit, ConflictObject, EntryKind, Tree, TreeEntry};
use vault_core::flat::FlatEntry;
use vault_core::store::ObjectStore;
use vault_core::treebuild::build_tree_from_flat;
use vault_core::sync::{collect_local_objects, resolve_hash, resolve_short_hash, LookupError, PackWriter};

fn store() -> ObjectStore {
    ObjectStore::new("/w/.vault")
}

/// A tree of files (no directories), names given in sorted order.
fn files(s: &mut ObjectStore, fs: &[(&str, &str)]) -> String {
    let mut entries = Vec::new();
    for (name, content) in fs {
        let h = s.write_blob(content.as_bytes());
        entries.push(TreeEntry { name: name.to_string(), kind: EntryKind::Blob, hash: h });
    }
    s.write_tree(&Tree { entries })
}

fn commit(s: &mut ObjectStore, tree: &str, parents: &[&str], msg: &str) -> String {
    let c = Commit {
        tree: tree.to_string(),
        parents: parents.iter().map(|p| p.to_string()).collect(),
        author: Author { name: "A".to_string(), email: "a@x".to_string() },
        timestamp: "2024-01-01T00:00:00Z".to_string(),
        message: msg.to_string(),
        change_id: msg.to_string(),
    };
    s.write_commit(&c)
}

fn lines_of(ls: &[DiffLine]) -> Vec<String> {
    ls.iter()
        .map(|l| match l {
            DiffLine::Context(s) => format!(" {}", s),
            DiffLine::Added(s) => format!("+{}", s),
            DiffLine::Removed(s) => format!("-{}", s),
        })
        .collect()
}

/// r <- a, r <- b, m has parents a and b.
fn diamond(s: &mut ObjectStore) -> (String, String, String, String) {
    let t = files(s, &[("f", "1\n")]);
    let r = commit(s, &t, &[], "r");
    let a = commit(s, &t, &[&r], "a");
    let b = commit(s, &t, &[&r], "b");
    let m = commit(s, &t, &[&a, &b], "m");
    (r, a, b, m)
}

#[test]
fn ancestors_are_breadth_first_from_start() {
    let mut s = store();
    let (r, a, b, m) = diamond(&mut s);
    assert_eq!(ancestors(&s, &m).unwrap(), vec![m.clone(), a.clone(), b.clone(), r.clone()]);
    assert_eq!(ancestors(&s, &r).unwrap(), vec![r.clone()]);
    assert!(matches!(ancestors(&s, "missing"), Err(VaultError::ObjectNotFound(h)) if h == "missing"));
}

#[test]
fn log_walk_keeps_depth_first_order_among_equal_times() {
    let mut s = store();
    let (r, a, b, m) = diamond(&mut s);
    let order: Vec<String> = log_walk(&s, &m).unwrap().into_iter().map(|(h, _)| h).collect();
    assert_eq!(order, vec![m, a, r, b]);
}

fn commit_at(s: &mut ObjectStore, tree: &str, parents: &[&str], msg: &str, time: &str) -> String {
    let c = Commit {
        tree: tree.to_string(),
        parents: parents.iter().map(|p| p.to_string()).collect(),
        author: Author { name: "A".to_string(), email: "a@x".to_string() },
        timestamp: time.to_string(),
        message: msg.to_string(),
        change_id: msg.to_string(),
    };
    s.write_commit(&c)
}

#[test]
fn log_walk_lists_newest_first() {
    let mut s = store();
    let t = files(&mut s, &[("f", "1\n")]);
    let r = commit_at(&mut s, &t, &[], "r", "2024-01-01T00:00:00Z");
    let a = commit_at(&mut s, &t, &[&r], "a", "2024-01-01T00:00:01Z");
    let b = commit_at(&mut s, &t, &[&r], "b", "2024-01-01T00:00:05Z");
    let b2 = commit_at(&mut s, &t, &[&b], "b2", "2024-01-01T00:00:05.250Z");
    let m = commit_at(&mut s, &t, &[&a, &b2], "m", "2024-01-01T00:00:09Z");
    let order: Vec<String> = log_walk(&s, &m).unwrap().into_iter().map(|(h, _)| h).collect();
    assert_eq!(order, vec![m, b2, b, a, r]);
}

#[test]
fn merge_base_is_common_ancestor_or_none() {
    let mut s = store();
    let (r, a, b, m) = diamond(&mut s);
    assert_eq!(merge_base(&s, &a, &b).unwrap(), Some(r.clone()));
    assert_eq!(merge_base(&s, &m, &a).unwrap(), Some(a.clone()));
    let t = files(&mut s, &[("g", "2\n")]);
    let lone = commit(&mut s, &t, &[], "lone");
    assert_eq!(merge_base(&s, &lone, &m).unwrap(), None);
}

#[test]
fn merge_base_is_the_lowest_common_ancestor() {
    // d's parent is c; b's parents are c and d; a's parent is d.
    let mut s = store();
    let t = files(&mut s, &[("f", "1\n")]);
    let c = commit(&mut s, &t, &[], "c");
    let d = commit(&mut s, &t, &[&c], "d");
    let b = commit(&mut s, &t, &[&c, &d], "b");
    let a = commit(&mut s, &t, &[&d], "a");
    assert_eq!(merge_base(&s, &a, &b).unwrap(), Some(d.clone()));
    assert_eq!(merge_base(&s, &b, &a).unwrap(), Some(d));
}

#[test]
fn head_commit_follows_head() {
    let mut s = store();
    s.write_head("ref: refs/heads/main");
    assert_eq!(head_commit(&s), None);
    s.write_branch("main", "abc");
    assert_eq!(head_commit(&s), Some("abc".to_string()));
}

#[test]
fn line_diff_shows_replaced_line_with_context() {
    let hunks = line_diff("a\nb\nc\n", "a\nx\nc\n");
    assert_eq!(hunks.len(), 1);
    assert_eq!((hunks[0].old_start, hunks[0].new_start), (1, 1));
    assert_eq!(lines_of(&hunks[0].lines), vec![" a", "+x", "-b", " c"]);
}

#[test]
fn line_diff_of_equal_texts_is_empty() {
    assert!(line_diff("a\nb\n", "a\nb\n").is_empty());
    assert!(line_diff("", "").is_empty());
}

#[test]
fn line_diff_splits_distant_changes_into_hunks() {
    let old: String = (1..=20).map(|i| format!("l{}\n", i)).collect();
    let new = old.replace("l2\n", "L2\n").replace("l18\n", "L18\n");
    let hunks = line_diff(&old, &new);
    assert_eq!(hunks.len(), 2);
    assert_eq!((hunks[0].old_start, hunks[0].new_start), (1, 1));
    assert_eq!(lines_of(&hunks[0].lines), vec![" l1", "+L2", "-l2", " l3", " l4", " l5"]);
    assert_eq!((hunks[1].old_start, hunks[1].new_start), (15, 15));
    assert_eq!(lines_of(&hunks[1].lines), vec![" l15", " l16", " l17", "+L18", "-l18", " l19", " l20"]);
}

#[test]
fn whole_file_hunks_for_added_and_deleted_files() {
    let add = make_addition_hunks("x\ny\n");
    assert_eq!(add.len(), 1);
    assert_eq!((add[0].old_start, add[0].new_start), (0, 1));
    assert_eq!(lines_of(&add[0].lines), vec!["+x", "+y"]);
    let del = make_deletion_hunks("x\n");
    assert_eq!((del[0].old_start, del[0].new_start), (1, 0));
    assert_eq!(lines_of(&del[0].lines), vec!["-x"]);
    assert!(make_addition_hunks("").is_empty());
    assert!(make_deletion_hunks("").is_empty());
}

#[test]
fn flatten_lists_files_under_directories() {
    let mut s = store();
    let inner = files(&mut s, &[("b.txt", "b")]);
    let hb = s.write_blob(b"a");
    let root = s.write_tree(&Tree {
        entries: vec![
            TreeEntry { name: "a.txt".to_string(), kind: EntryKind::Blob, hash: hb.clone() },
            TreeEntry { name: "dir".to_string(), kind: EntryKind::Tree, hash: inner },
        ],
    });
    let f = flatten(&s, &root).unwrap();
    assert_eq!(f.len(), 2);
    assert_eq!(f.get("a.txt").unwrap().hash, hb);
    assert!(f.contains_key("dir/b.txt"));
    assert!(!f.contains_key("dir"));
}

#[test]
fn diff_trees_reports_each_changed_file_sorted() {
    let mut s = store();
    let old = files(&mut s, &[("a.txt", "1\n2\n"), ("gone.txt", "x\n"), ("same", "s\n")]);
    let new = files(&mut s, &[("a.txt", "1\n3\n"), ("new.txt", "y\n"), ("same", "s\n")]);
    let ds = diff_trees(&s, Some(&old), Some(&new)).unwrap();
    let summary: Vec<(String, DiffKind)> = ds.iter().map(|d| (d.path.clone(), d.kind)).collect();
    assert_eq!(
        summary,
        vec![
            ("a.txt".to_string(), DiffKind::Modified),
            ("gone.txt".to_string(), DiffKind::Deleted),
            ("new.txt".to_string(), DiffKind::Added),
        ]
    );
    assert_eq!(lines_of(&ds[0].hunks[0].lines), vec![" 1", "+3", "-2"]);
    assert_eq!(lines_of(&ds[1].hunks[0].lines), vec!["-x"]);
    assert_eq!(lines_of(&ds[2].hunks[0].lines), vec!["+y"]);
    let all_new = diff_trees(&s, None, Some(&new)).unwrap();
    assert_eq!(all_new.len(), 3);
    assert!(all_new.iter().all(|d| d.kind == DiffKind::Added));
    assert!(diff_trees(&s, Some(&old), Some(&old)).unwrap().is_empty());
    assert!(matches!(diff_trees(&s, Some("nope"), None), Err(VaultError::ObjectNotFound(_))));
}

#[test]
fn three_way_merge_takes_each_side_change() {
    let mut s = store();
    let anc = files(&mut s, &[("f", "A\n"), ("gone", "G\n")]);
    let ours = files(&mut s, &[("f", "B\n"), ("gone", "G\n")]);
    let theirs = files(&mut s, &[("f", "A\n"), ("g", "C\n")]);
    let r = three_way_merge(&mut s, &ours, &theirs, Some(&anc)).unwrap();
    assert!(!r.had_conflicts);
    assert!(r.conflict_paths.is_empty());
    let expected = files(&mut s, &[("f", "B\n"), ("g", "C\n")]);
    assert_eq!(r.tree_hash, expected);
}

#[test]
fn three_way_merge_keeps_a_deletion_of_an_unchanged_file() {
    let mut s = store();
    let anc = files(&mut s, &[("f", "A\n"), ("k", "K\n")]);
    let ours = files(&mut s, &[("k", "K\n")]);
    let theirs = files(&mut s, &[("f", "A\n"), ("k", "K\n")]);
    let r = three_way_merge(&mut s, &ours, &theirs, Some(&anc)).unwrap();
    assert!(!r.had_conflicts);
    assert_eq!(r.tree_hash, ours);
    let r2 = three_way_merge(&mut s, &theirs, &ours, Some(&anc)).unwrap();
    assert!(!r2.had_conflicts);
    assert_eq!(r2.tree_hash, ours);
}

#[test]
fn three_way_merge_reports_a_change_against_a_deletion() {
    let mut s = store();
    let anc = files(&mut s, &[("f", "A\n")]);
    let changed = files(&mut s, &[("f", "B\n")]);
    let deleted = files(&mut s, &[]);
    let r = three_way_merge(&mut s, &changed, &deleted, Some(&anc)).unwrap();
    assert!(r.had_conflicts);
    assert_eq!(r.conflict_paths, vec!["f".to_string()]);
    let f = flatten(&s, &r.tree_hash).unwrap();
    let c = s.read_conflicts(&f.get("f").unwrap().hash).unwrap();
    assert_eq!(c.ours, vault_core::objects::Blob::hash(b"B\n"));
    assert_eq!(c.theirs, "");
    assert_eq!(c.ancestor, vault_core::objects::Blob::hash(b"A\n"));
    let r2 = three_way_merge(&mut s, &deleted, &changed, Some(&anc)).unwrap();
    assert_eq!(r2.conflict_paths, vec!["f".to_string()]);
}

#[test]
fn three_way_merge_records_conflicts() {
    let mut s = store();
    let anc = files(&mut s, &[("f", "A\n")]);
    let ours = files(&mut s, &[("f", "B\n")]);
    let theirs = files(&mut s, &[("f", "C\n")]);
    let r = three_way_merge(&mut s, &ours, &theirs, Some(&anc)).unwrap();
    assert!(r.had_conflicts);
    assert_eq!(r.conflict_paths, vec!["f".to_string()]);
    let t = s.read_tree(&r.tree_hash).unwrap();
    assert_eq!(t.entries.len(), 1);
    assert_eq!(t.entries[0].kind, EntryKind::Conflict);
    let c = s.read_conflicts(&t.entries[0].hash).unwrap();
    assert_eq!(c.ours, vault_core::objects::Blob::hash(b"B\n"));
    assert_eq!(c.theirs, vault_core::objects::Blob::hash(b"C\n"));
    assert_eq!(c.ancestor, vault_core::objects::Blob::hash(b"A\n"));
    let k = ConflictObject { ours: c.ours.clone(), theirs: c.theirs.clone(), ancestor: c.ancestor.clone() };
    assert_eq!(t.entries[0].hash, blake3::hash(&k.encode()).to_hex().to_string());
}

#[test]
fn three_way_merge_without_ancestor_conflicts_on_differing_files() {
    let mut s = store();
    let ours = files(&mut s, &[("f", "B\n"), ("o", "1")]);
    let theirs = files(&mut s, &[("f", "C\n"), ("t", "2")]);
    let r = three_way_merge(&mut s, &ours, &theirs, None).unwrap();
    assert_eq!(r.conflict_paths, vec!["f".to_string()]);
    let f = flatten(&s, &r.tree_hash).unwrap();
    assert_eq!(f.len(), 3);
    let c = s.read_conflicts(&f.get("f").unwrap().hash).unwrap();
    assert_eq!(c.ancestor, "");
}

#[test]
fn merging_a_tree_with_itself_gives_it_back() {
    let mut s = store();
    let t = files(&mut s, &[("a", "1"), ("b", "2")]);
    let anc = files(&mut s, &[("a", "0")]);
    let r = three_way_merge(&mut s, &t, &t, Some(&anc)).unwrap();
    assert!(!r.had_conflicts);
    assert_eq!(r.tree_hash, t);
}

#[test]
fn cherry_pick_applies_added_file_onto_other_tree() {
    let mut s = store();
    let pt = files(&mut s, &[("a", "1\n")]);
    let p = commit(&mut s, &pt, &[], "p");
    let ct = files(&mut s, &[("a", "1\n"), ("b", "2\n")]);
    let c = commit(&mut s, &ct, &[&p], "c");
    let onto = files(&mut s, &[("a", "1\n"), ("z", "3\n")]);
    let r = compute_cherry(&mut s, &c, &onto).unwrap();
    assert!(r.conflicts.is_empty());
    let expected = files(&mut s, &[("a", "1\n"), ("b", "2\n"), ("z", "3\n")]);
    assert_eq!(r.new_tree_hash, expected);
}

#[test]
fn cherry_pick_onto_parent_tree_reproduces_commit() {
    let mut s = store();
    let pt = files(&mut s, &[("a", "1\n"), ("b", "2\n")]);
    let p = commit(&mut s, &pt, &[], "p");
    let ct = files(&mut s, &[("a", "9\n"), ("c", "3\n")]);
    let c = commit(&mut s, &ct, &[&p], "c");
    let r = compute_cherry(&mut s, &c, &pt).unwrap();
    assert!(r.conflicts.is_empty());
    assert_eq!(r.new_tree_hash, ct);
}

#[test]
fn cherry_pick_conflicts_when_target_has_other_version() {
    let mut s = store();
    let pt = files(&mut s, &[("a", "1\n")]);
    let p = commit(&mut s, &pt, &[], "p");
    let ct = files(&mut s, &[("a", "2\n")]);
    let c = commit(&mut s, &ct, &[&p], "c");
    let onto = files(&mut s, &[("a", "3\n")]);
    let r = compute_cherry(&mut s, &c, &onto).unwrap();
    assert_eq!(r.conflicts, vec!["a".to_string()]);
}

#[test]
fn cherry_pick_of_root_commit_is_refused() {
    let mut s = store();
    let t = files(&mut s, &[("a", "1\n")]);
    let root = commit(&mut s, &t, &[], "root");
    let r = compute_cherry(&mut s, &root, &t);
    assert!(matches!(r, Err(VaultError::ObjectNotFound(m)) if m == "cherry-pick: cannot pick an initial commit (No parent diff)"));
}

#[test]
fn resolve_hash_finds_head_or_history_commit() {
    let mut s = store();
    assert!(matches!(resolve_hash(&s, "ab"), Err(LookupError::NoCommits)));
    let (r, _a, _b, m) = diamond(&mut s);
    s.write_head("ref: refs/heads/main");
    s.write_branch("main", &m);
    assert_eq!(resolve_hash(&s, &m[..6]).unwrap(), m);
    assert_eq!(resolve_short_hash(&s, &r[..10]).unwrap(), r);
    assert!(matches!(resolve_hash(&s, "zz"), Err(LookupError::NoMatch)));
}

#[test]
fn local_objects_leave_out_known_history() {
    let mut s = store();
    let t1 = files(&mut s, &[("a", "1")]);
    let c1 = commit(&mut s, &t1, &[], "one");
    let t2 = files(&mut s, &[("a", "1"), ("b", "2")]);
    let c2 = commit(&mut s, &t2, &[&c1], "two");
    let all = collect_local_objects(&s, &c2, &vec![]).unwrap();
    let ha = vault_core::objects::Blob::hash(b"1");
    let hb = vault_core::objects::Blob::hash(b"2");
    let expect_all: Vec<(String, String)> = vec![
        ("commit".to_string(), c2.clone()),
        ("tree".to_string(), t2.clone()),
        ("blob".to_string(), ha.clone()),
        ("blob".to_string(), hb.clone()),
        ("commit".to_string(), c1.clone()),
        ("tree".to_string(), t1.clone()),
    ];
    assert_eq!(all, expect_all);
    let new_only = collect_local_objects(&s, &c2, &vec![c1.clone()]).unwrap();
    assert_eq!(new_only.len(), 4);
    assert!(collect_local_objects(&s, &c2, &vec![c2.clone()]).unwrap().is_empty());
}

#[test]
fn local_objects_include_history_the_other_side_lacks() {
    // m has parents a and b; the other side has a, which is newer than b.
    let mut s = store();
    let tr = files(&mut s, &[("r", "0")]);
    let r = commit_at(&mut s, &tr, &[], "r", "2024-01-01T00:00:00Z");
    let tb = files(&mut s, &[("b", "b")]);
    let b = commit_at(&mut s, &tb, &[&r], "b", "2024-01-01T00:00:01Z");
    let ta = files(&mut s, &[("a", "a")]);
    let a = commit_at(&mut s, &ta, &[&r], "a", "2024-01-01T00:00:02Z");
    let tm = files(&mut s, &[("m", "m")]);
    let m = commit_at(&mut s, &tm, &[&a, &b], "m", "2024-01-01T00:00:03Z");
    let objs = collect_local_objects(&s, &m, &vec![a.clone()]).unwrap();
    let commits: Vec<String> = objs.iter().filter(|(k, _)| k == "commit").map(|(_, h)| h.clone()).collect();
    assert_eq!(commits, vec![m.clone(), b.clone()]);
    assert!(objs.contains(&("tree".to_string(), tb.clone())));
    assert!(!objs.contains(&("tree".to_string(), ta.clone())));
    // a hash the store does not hold is known only as itself
    let all = collect_local_objects(&s, &m, &vec!["0000".to_string()]).unwrap();
    assert_eq!(all.iter().filter(|(k, _)| k == "commit").count(), 4);
}

#[test]
fn pack_records_have_sorted_json_header() {
    let mut w = PackWriter::new(Vec::new());
    w.write("blob", "abc", b"hi\n").unwrap();
    w.write("tree", "d\"e", b"").unwrap();
    w.flush().unwrap();
    let expected = b"{\"hash\":\"abc\",\"kind\":\"blob\",\"size\":3}\nhi\n\n{\"hash\":\"d\\\"e\",\"kind\":\"tree\",\"size\":0}\n\n".to_vec();
    assert_eq!(w.buf, expected);
}

#[test]
fn flattening_a_built_tree_gives_back_its_files() {
    let mut s = store();
    let ha = s.write_blob(b"a");
    let hb = s.write_blob(b"b");
    let files = vec![
        FlatEntry { path: "a.txt".to_string(), kind: EntryKind::Blob, hash: ha.clone() },
        FlatEntry { path: "src/deep/b.rs".to_string(), kind: EntryKind::Blob, hash: hb.clone() },
        FlatEntry { path: "src/x".to_string(), kind: EntryKind::Conflict, hash: "c1".to_string() },
    ];
    let root = build_tree_from_flat(&mut s, &files);
    let f = flatten(&s, &root).unwrap();
    let got: Vec<(String, EntryKind, String)> = f.entries.iter().map(|e| (e.path.clone(), e.kind, e.hash.clone())).collect();
    assert_eq!(
        got,
        vec![
            ("a.txt".to_string(), EntryKind::Blob, ha),
            ("src/deep/b.rs".to_string(), EntryKind::Blob, hb),
            ("src/x".to_string(), EntryKind::Conflict, "c1".to_string()),
        ]
    );
    let t = s.read_tree(&root).unwrap();
    let names: Vec<&str> = t.entries.iter().map(|e| e.name.as_str()).collect();
    assert_eq!(names, vec!["a.txt", "src"]);
}

#[test]
fn diff_shows_invalid_utf8_as_replacement_characters() {
    let mut s = store();
    let h = s.write_blob(&[0x41, 0xff, 0x0a]);
    let t = s.write_tree(&Tree { entries: vec![TreeEntry { name: "bin".to_string(), kind: EntryKind::Blob, hash: h }] });
    let ds = diff_trees(&s, None, Some(&t)).unwrap();
    assert_eq!(lines_of(&ds[0].hunks[0].lines), vec!["+A\u{fffd}"]);
}
