use vault_core::diff::{flatten, DiffKind};
use vault_core::error::VaultError;
use vault_core::history::{commit_split, update_tree_resolve, CherryPickOutcome, MergeOutcome, UndoOutcome};
use vault_core::objects::FileStatus;
use vault_core::repo::Repo;
use vault_core::workdir::WorkDir;

const DEFAULT_IGNORE: &str = ".vault/\n.git/\ntarget/\nnode_modules/\n*.class\n";

fn new_repo() -> Repo {
    Repo::init("/w", false, WorkDir::new(), "Ann", "ann@x").unwrap()
}

fn put(r: &mut Repo, path: &str, text: &str) {
    r.work.write_file(path, text.as_bytes());
}

fn content(r: &Repo, path: &str) -> Option<String> {
    r.work.file(path).map(|c| String::from_utf8(c.clone()).unwrap())
}

fn head(r: &Repo) -> String {
    r.store.resolve_head().unwrap()
}

fn files_of(r: &Repo, commit: &str) -> Vec<String> {
    let c = r.store.read_commit(commit).unwrap();
    let f = flatten(&r.store, &c.tree).unwrap();
    f.entries.iter().map(|e| e.path.clone()).collect()
}

#[test]
fn init_sets_up_head_config_ignore_file_and_log() {
    let r = new_repo();
    assert_eq!(r.work_dir, "/w");
    assert_eq!(r.vault_dir, "/w/.vault");
    assert_eq!(r.store.read_head(), "ref: refs/heads/main");
    assert_eq!(r.config, "[user]\nname = Ann\nemail = ann@x\n");
    assert_eq!(content(&r, ".vaultignore"), Some(DEFAULT_IGNORE.to_string()));
    let ops = r.oplog.read_all();
    assert_eq!(ops.len(), 1);
    assert_eq!(ops[0].op, "init");
    assert_eq!(ops[0].branch, Some("main".to_string()));
    let a = r.author();
    assert_eq!((a.name.as_str(), a.email.as_str()), ("Ann", "ann@x"));
    assert_eq!(r.ignored_patterns(), vec![".vault/", ".git/", "target/", "node_modules/", "*.class"]);
}

#[test]
fn init_keeps_an_existing_ignore_file() {
    let mut w = WorkDir::new();
    w.add_file(".vaultignore".to_string(), b"build/\n".to_vec());
    let r = Repo::init("/w", false, w, "Ann", "ann@x").unwrap();
    assert_eq!(content(&r, ".vaultignore"), Some("build/\n".to_string()));
}

#[test]
fn init_over_existing_repository_fails() {
    let r = Repo::init("/w", true, WorkDir::new(), "Ann", "ann@x");
    assert!(matches!(r, Err(VaultError::AlreadyInit(p)) if p == "/w"));
}

#[test]
fn author_defaults_and_takes_last_lines() {
    let mut r = new_repo();
    r.config = "[user]\n  name = Bob  \n name =   Carl  \r\n".to_string();
    let a = r.author();
    assert_eq!((a.name.as_str(), a.email.as_str()), ("Carl", "unknown@vault.com"));
    r.config = String::new();
    assert_eq!(r.author().name, "Unknown");
}

#[test]
fn save_commits_and_moves_branch() {
    let mut r = new_repo();
    put(&mut r, "a.txt", "one\n");
    let h1 = r.save("first").unwrap();
    assert_eq!(head(&r), h1);
    assert_eq!(r.store.read_branch("main").unwrap(), h1);
    let c1 = r.store.read_commit(&h1).unwrap();
    assert_eq!(c1.message, "first");
    assert!(c1.parents.is_empty());
    assert_eq!(c1.author.name, "Ann");
    assert_eq!(files_of(&r, &h1), vec![".vaultignore".to_string(), "a.txt".to_string()]);
    put(&mut r, "a.txt", "two\n");
    let h2 = r.save("second").unwrap();
    assert_ne!(h1, h2);
    assert_eq!(r.store.read_commit(&h2).unwrap().parents, vec![h1.clone()]);
    let ops = r.oplog.read_all();
    assert_eq!(ops.last().unwrap().op, "save");
    assert_eq!(ops.last().unwrap().head_before, Some(h1));
    assert_eq!(ops.last().unwrap().head_after, Some(h2));
}

#[test]
fn save_without_changes_returns_head() {
    let mut r = new_repo();
    put(&mut r, "a.txt", "one\n");
    let h1 = r.save("first").unwrap();
    let n = r.oplog.read_all().len();
    assert_eq!(r.save("again").unwrap(), h1);
    assert_eq!(r.oplog.read_all().len(), n);
}

#[test]
fn snapshot_leaves_out_ignored_paths() {
    let mut r = new_repo();
    put(&mut r, "a.txt", "one\n");
    r.work.create_dir("target");
    put(&mut r, "target/out.bin", "x");
    put(&mut r, "Main.class", "x");
    r.work.create_dir("src");
    put(&mut r, "src/lib.rs", "fn f() {}\n");
    let h = r.save("first").unwrap();
    assert_eq!(files_of(&r, &h), vec![".vaultignore".to_string(), "a.txt".to_string(), "src/lib.rs".to_string()]);
    assert!(r.is_ignored("target/out.bin", &r.ignored_patterns()));
}

#[test]
fn status_lists_changes_against_head() {
    let mut r = new_repo();
    put(&mut r, "a.txt", "one\n");
    put(&mut r, "c.txt", "gone\n");
    r.save("first").unwrap();
    put(&mut r, "a.txt", "two\n");
    put(&mut r, "b.txt", "new\n");
    r.work.remove_file("c.txt");
    let st = r.status().unwrap();
    let got: Vec<(String, FileStatus)> = st.iter().map(|e| (e.path.clone(), e.status)).collect();
    assert_eq!(
        got,
        vec![
            ("a.txt".to_string(), FileStatus::Modified),
            ("b.txt".to_string(), FileStatus::Added),
            ("c.txt".to_string(), FileStatus::Deleted),
        ]
    );
    let d = r.diff().unwrap();
    assert_eq!(d.len(), 3);
    assert_eq!(d[0].kind, DiffKind::Modified);
}

#[test]
fn status_of_fresh_repository_shows_everything_added() {
    let mut r = new_repo();
    put(&mut r, "a.txt", "one\n");
    let st = r.status().unwrap();
    assert_eq!(st.len(), 2);
    assert!(st.iter().all(|e| e.status == FileStatus::Added));
}

#[test]
fn branch_and_switch_restore_working_directory() {
    let mut r = new_repo();
    assert!(matches!(r.create_branch("dev"), Err(VaultError::ObjectNotFound(m)) if m == "HEAD (no commits yet)"));
    put(&mut r, "a.txt", "one\n");
    let h1 = r.save("first").unwrap();
    r.create_branch("dev").unwrap();
    assert_eq!(r.store.read_branch("dev").unwrap(), h1);
    assert!(matches!(r.create_branch("dev"), Err(VaultError::BranchExists(n)) if n == "dev"));
    put(&mut r, "a.txt", "two\n");
    put(&mut r, "b.txt", "bee\n");
    r.save("second").unwrap();
    r.switch("dev").unwrap();
    assert_eq!(r.store.read_head(), "ref: refs/heads/dev");
    assert_eq!(content(&r, "a.txt"), Some("one\n".to_string()));
    assert_eq!(content(&r, "b.txt"), None);
    assert!(matches!(r.switch("nope"), Err(VaultError::BranchNotFound(n)) if n == "nope"));
    assert_eq!(r.oplog.read_all().last().unwrap().op, "switch");
}

#[test]
fn undo_moves_branch_back_one_operation_at_a_time() {
    let mut r = new_repo();
    put(&mut r, "a.txt", "one\n");
    let h1 = r.save("first").unwrap();
    put(&mut r, "a.txt", "two\n");
    r.save("second").unwrap();
    assert!(matches!(r.undo().unwrap(), UndoOutcome::Restored(h) if h == h1));
    assert_eq!(head(&r), h1);
    assert_eq!(content(&r, "a.txt"), Some("one\n".to_string()));
    assert!(matches!(r.undo().unwrap(), UndoOutcome::RestoredToEmpty));
    assert_eq!(r.store.resolve_head(), None);
    assert!(!r.store.branch_exists("main"));
    assert!(matches!(r.undo(), Err(VaultError::NothingToUndo)));
}

#[test]
fn undo_of_first_save_leaves_no_commit() {
    let mut r = new_repo();
    put(&mut r, "a.txt", "one\n");
    r.save("first").unwrap();
    assert!(matches!(r.undo().unwrap(), UndoOutcome::RestoredToEmpty));
    assert_eq!(r.store.resolve_head(), None);
    assert_eq!(r.store.read_head(), "ref: refs/heads/main");
    let h = r.save("again").unwrap();
    assert_eq!(head(&r), h);
}

#[test]
fn undo_of_switch_goes_back_to_first_branch() {
    let mut r = new_repo();
    put(&mut r, "a.txt", "one\n");
    r.save("first").unwrap();
    r.create_branch("dev").unwrap();
    put(&mut r, "a.txt", "two\n");
    let h_main = r.save("second").unwrap();
    let h_dev = r.store.read_branch("dev").unwrap();
    r.switch("dev").unwrap();
    assert_eq!(r.oplog.read_all().last().unwrap().extra, Some("main".to_string()));
    assert!(matches!(r.undo().unwrap(), UndoOutcome::Restored(h) if h == h_main));
    assert_eq!(r.store.current_branch(), Some("main".to_string()));
    assert_eq!(r.store.read_branch("dev").unwrap(), h_dev);
    assert_eq!(r.store.read_branch("main").unwrap(), h_main);
    assert_eq!(content(&r, "a.txt"), Some("two\n".to_string()));
}

#[test]
fn amend_replaces_head_commit_keeping_parents() {
    let mut r = new_repo();
    put(&mut r, "a.txt", "one\n");
    let h1 = r.save("first").unwrap();
    put(&mut r, "a.txt", "two\n");
    let h2 = r.save("second").unwrap();
    put(&mut r, "b.txt", "bee\n");
    let out = r.amend(None).unwrap();
    assert_eq!(out.old_hash, h2);
    assert_eq!(head(&r), out.new_hash);
    let c = r.store.read_commit(&out.new_hash).unwrap();
    assert_eq!(c.message, "second");
    assert_eq!(c.parents, vec![h1]);
    assert_eq!(c.change_id, r.store.read_commit(&h2).unwrap().change_id);
    assert!(files_of(&r, &out.new_hash).contains(&"b.txt".to_string()));
    let out2 = r.amend(Some("better")).unwrap();
    assert_eq!(r.store.read_commit(&out2.new_hash).unwrap().message, "better");
    assert_eq!(r.oplog.read_all().last().unwrap().op, "ammend");
}

#[test]
fn amend_without_commits_fails() {
    let mut r = new_repo();
    assert!(matches!(r.amend(None), Err(VaultError::ObjectNotFound(m)) if m == "HEAD - Nothing to amend"));
}

#[test]
fn show_and_diff_commits_compare_trees() {
    let mut r = new_repo();
    put(&mut r, "a.txt", "one\n");
    let h1 = r.save("first").unwrap();
    put(&mut r, "a.txt", "two\n");
    let h2 = r.save("second").unwrap();
    let s1 = r.show(&h1).unwrap();
    assert_eq!(s1.diffs.len(), 2);
    assert!(s1.diffs.iter().all(|d| d.kind == DiffKind::Added));
    let s2 = r.show(&h2).unwrap();
    assert_eq!(s2.commit.message, "second");
    assert_eq!(s2.diffs.len(), 1);
    assert_eq!(s2.diffs[0].path, "a.txt");
    let d = r.diff_commits(&h2, &h1).unwrap();
    assert_eq!(d.len(), 1);
    assert!(r.diff_commits(&h2, &h2).unwrap().is_empty());
    put(&mut r, "b.txt", "bee\n");
    let h3 = r.save("third").unwrap();
    let fwd = r.diff_commits(&h1, &h3).unwrap();
    let back = r.diff_commits(&h3, &h1).unwrap();
    let kinds = |ds: &Vec<vault_core::diff::FileDiff>| ds.iter().map(|d| (d.path.clone(), d.kind)).collect::<Vec<_>>();
    assert_eq!(kinds(&fwd), vec![("a.txt".to_string(), DiffKind::Modified), ("b.txt".to_string(), DiffKind::Added)]);
    assert_eq!(kinds(&back), vec![("a.txt".to_string(), DiffKind::Modified), ("b.txt".to_string(), DiffKind::Deleted)]);
    assert!(matches!(r.show("nope"), Err(VaultError::ObjectNotFound(h)) if h == "nope"));
}

#[test]
fn stash_save_sets_work_aside_and_restore_brings_it_back() {
    let mut r = new_repo();
    put(&mut r, "a.txt", "one\n");
    r.save("first").unwrap();
    put(&mut r, "a.txt", "wip\n");
    put(&mut r, "new.txt", "n\n");
    r.stash_save("w1").unwrap();
    assert_eq!(content(&r, "a.txt"), Some("one\n".to_string()));
    assert_eq!(content(&r, "new.txt"), None);
    let list = r.stash_list().unwrap();
    assert_eq!(list.len(), 1);
    assert_eq!(list[0].branch, "main");
    assert_eq!(r.oplog.read_all().last().unwrap().op, "stash-save");
    r.stash_restore("w1").unwrap();
    assert_eq!(content(&r, "a.txt"), Some("wip\n".to_string()));
    assert_eq!(content(&r, "new.txt"), Some("n\n".to_string()));
    assert!(r.stash_save("w1").is_err());
    r.stash_drop("w1").unwrap();
    assert!(r.stash_list().unwrap().is_empty());
    assert!(matches!(r.stash_restore("w1"), Err(VaultError::ObjectNotFound(m)) if m == "stash 'w1' "));
}

#[test]
fn restore_file_brings_back_or_deletes() {
    let mut r = new_repo();
    put(&mut r, "a.txt", "one\n");
    let h1 = r.save("first").unwrap();
    put(&mut r, "a.txt", "two\n");
    r.save("second").unwrap();
    put(&mut r, "a.txt", "scratch\n");
    put(&mut r, "extra.txt", "x\n");
    r.restore_file("a.txt", None).unwrap();
    assert_eq!(content(&r, "a.txt"), Some("two\n".to_string()));
    r.restore_file("a.txt", Some(&h1)).unwrap();
    assert_eq!(content(&r, "a.txt"), Some("one\n".to_string()));
    r.restore_file("extra.txt", None).unwrap();
    assert_eq!(content(&r, "extra.txt"), None);
}

#[test]
fn squash_joins_last_commits() {
    let mut r = new_repo();
    put(&mut r, "a.txt", "1\n");
    let h1 = r.save("one").unwrap();
    put(&mut r, "a.txt", "2\n");
    let h2 = r.save("two").unwrap();
    put(&mut r, "a.txt", "3\n");
    let h3 = r.save("three").unwrap();
    let s = r.squash(2, "two and three").unwrap();
    assert_eq!(head(&r), s);
    let c = r.store.read_commit(&s).unwrap();
    assert_eq!(c.parents, vec![h1.clone()]);
    assert_eq!(c.tree, r.store.read_commit(&h3).unwrap().tree);
    assert_eq!(c.change_id, r.store.read_commit(&h2).unwrap().change_id);
    assert_eq!(c.change_id.len(), 36);
    assert!(c.change_id.chars().enumerate().all(|(i, ch)| if [8, 13, 18, 23].contains(&i) {
        ch == '-'
    } else {
        ch.is_ascii_hexdigit() && !ch.is_ascii_uppercase()
    }));
    assert!(c.timestamp.ends_with('Z'));
    assert_eq!(c.message, "two and three");
    let last = r.oplog.read_all().pop().unwrap();
    assert_eq!(last.extra, Some("squashed 2 commits".to_string()));
}

#[test]
fn squash_refuses_too_few_commits() {
    let mut r = new_repo();
    assert!(matches!(r.squash(1, "x"), Err(VaultError::ObjectNotFound(m)) if m == "squash requires at least 2 commits"));
    put(&mut r, "a.txt", "1\n");
    r.save("one").unwrap();
    assert!(matches!(r.squash(3, "x"), Err(VaultError::ObjectNotFound(m)) if m == "only 1 commit(s) in history, cannot squash 3"));
}

#[test]
fn merge_of_branch_in_head_history_changes_nothing() {
    let mut r = new_repo();
    put(&mut r, "a.txt", "1\n");
    r.save("one").unwrap();
    r.create_branch("old").unwrap();
    put(&mut r, "b.txt", "b\n");
    let h2 = r.save("two").unwrap();
    let ops = r.oplog.read_all().len();
    assert!(matches!(r.merge("old").unwrap(), MergeOutcome::AlreadyUpToDate));
    assert_eq!(r.store.read_branch("main").unwrap(), h2);
    assert_eq!(content(&r, "b.txt"), Some("b\n".to_string()));
    assert_eq!(r.oplog.read_all().len(), ops);
    assert!(matches!(r.merge("nope"), Err(VaultError::BranchNotFound(n)) if n == "nope"));
}

#[test]
fn merge_of_branch_ahead_makes_merge_commit() {
    let mut r = new_repo();
    put(&mut r, "a.txt", "1\n");
    let h1 = r.save("one").unwrap();
    r.create_branch("dev").unwrap();
    r.switch("dev").unwrap();
    put(&mut r, "b.txt", "b\n");
    let h2 = r.save("two").unwrap();
    r.switch("main").unwrap();
    assert_eq!(content(&r, "b.txt"), None);
    let h = match r.merge("dev").unwrap() {
        MergeOutcome::Clean(h) => h,
        other => panic!("unexpected {:?}", other),
    };
    assert_eq!(r.store.read_commit(&h).unwrap().parents, vec![h1, h2]);
    assert_eq!(r.store.read_branch("main").unwrap(), h);
    assert_eq!(content(&r, "b.txt"), Some("b\n".to_string()));
    assert_eq!(r.oplog.read_all().last().unwrap().op, "merge");
    assert!(matches!(r.merge("dev").unwrap(), MergeOutcome::AlreadyUpToDate));
}

#[test]
fn merge_of_diverged_branches_makes_merge_commit() {
    let mut r = new_repo();
    put(&mut r, "a.txt", "1\n");
    r.save("one").unwrap();
    r.create_branch("dev").unwrap();
    put(&mut r, "m.txt", "main\n");
    let ours = r.save("on main").unwrap();
    r.switch("dev").unwrap();
    put(&mut r, "d.txt", "dev\n");
    let theirs = r.save("on dev").unwrap();
    r.switch("main").unwrap();
    let out = r.merge("dev").unwrap();
    let h = match out {
        MergeOutcome::Clean(h) => h,
        other => panic!("unexpected {:?}", other),
    };
    let c = r.store.read_commit(&h).unwrap();
    assert_eq!(c.parents, vec![ours, theirs]);
    assert_eq!(c.message, "Merge branch 'dev'");
    assert_eq!(content(&r, "d.txt"), Some("dev\n".to_string()));
    assert_eq!(content(&r, "m.txt"), Some("main\n".to_string()));
    assert_eq!(r.oplog.read_all().last().unwrap().extra, Some("dev".to_string()));
}

#[test]
fn merge_with_conflicting_edits_reports_paths() {
    let mut r = new_repo();
    put(&mut r, "a.txt", "1\n");
    r.save("one").unwrap();
    r.create_branch("dev").unwrap();
    put(&mut r, "a.txt", "main\n");
    r.save("on main").unwrap();
    r.switch("dev").unwrap();
    put(&mut r, "a.txt", "dev\n");
    r.save("on dev").unwrap();
    r.switch("main").unwrap();
    match r.merge("dev").unwrap() {
        MergeOutcome::Conflicts(_, paths) => assert_eq!(paths, vec!["a.txt".to_string()]),
        other => panic!("unexpected {:?}", other),
    }
    assert_eq!(
        content(&r, "a.txt"),
        Some("<<<<<<<< ours\nmain\n\n================\ndev\n\n>>>>>>>> theirs\n".to_string())
    );
}

#[test]
fn cherry_pick_copies_change_onto_head() {
    let mut r = new_repo();
    put(&mut r, "a.txt", "1\n");
    r.save("one").unwrap();
    r.create_branch("dev").unwrap();
    r.switch("dev").unwrap();
    put(&mut r, "feature.txt", "f\n");
    let picked = r.save("feature").unwrap();
    r.switch("main").unwrap();
    let before = head(&r);
    let out = r.cherry_pick(&picked, false).unwrap();
    let h = match out {
        CherryPickOutcome::Clean(h) => h,
        other => panic!("unexpected {:?}", other),
    };
    let c = r.store.read_commit(&h).unwrap();
    assert_eq!(c.parents, vec![before]);
    assert_eq!(c.message, "cherry-pick: feature");
    assert_eq!(c.change_id, r.store.read_commit(&picked).unwrap().change_id);
    assert_eq!(content(&r, "feature.txt"), Some("f\n".to_string()));
}

#[test]
fn cherry_pick_with_conflicts_stops_unless_forced() {
    let mut r = new_repo();
    put(&mut r, "a.txt", "1\n");
    r.save("one").unwrap();
    r.create_branch("dev").unwrap();
    put(&mut r, "a.txt", "main\n");
    let main_head = r.save("main edit").unwrap();
    r.switch("dev").unwrap();
    put(&mut r, "a.txt", "dev\n");
    let picked = r.save("dev edit").unwrap();
    r.switch("main").unwrap();
    match r.cherry_pick(&picked, false).unwrap() {
        CherryPickOutcome::Conflict(ps) => assert_eq!(ps, vec!["a.txt".to_string()]),
        other => panic!("unexpected {:?}", other),
    }
    assert_eq!(head(&r), main_head);
    match r.cherry_pick(&picked, true).unwrap() {
        CherryPickOutcome::ConflictSaved(h, ps) => {
            assert_eq!(ps, vec!["a.txt".to_string()]);
            assert_eq!(head(&r), h);
        }
        other => panic!("unexpected {:?}", other),
    }
}

#[test]
fn split_makes_two_commits_from_chosen_paths() {
    let mut r = new_repo();
    put(&mut r, "a.txt", "1\n");
    put(&mut r, "b.txt", "1\n");
    let h0 = r.save("base").unwrap();
    put(&mut r, "a.txt", "2\n");
    put(&mut r, "b.txt", "2\n");
    let out = r.split("first", "second", &vec!["a.txt".to_string()], &vec!["b.txt".to_string()]).unwrap();
    assert_eq!(head(&r), out.second_hash);
    let c1 = r.store.read_commit(&out.first_hash).unwrap();
    assert_eq!(c1.parents, vec![h0]);
    assert_eq!(c1.message, "first");
    let f1 = flatten(&r.store, &c1.tree).unwrap();
    assert_eq!(f1.get("a.txt").unwrap().hash, vault_core::objects::Blob::hash(b"2\n"));
    assert_eq!(f1.get("b.txt").unwrap().hash, vault_core::objects::Blob::hash(b"1\n"));
    let c2 = r.store.read_commit(&out.second_hash).unwrap();
    assert_eq!(c2.parents, vec![out.first_hash.clone()]);
    let f2 = flatten(&r.store, &c2.tree).unwrap();
    assert_eq!(f2.get("b.txt").unwrap().hash, vault_core::objects::Blob::hash(b"2\n"));
    let last = r.oplog.read_all().pop().unwrap();
    assert_eq!(last.message, Some("first / second".to_string()));
}

#[test]
fn commit_split_returns_both_hashes() {
    let mut r = new_repo();
    put(&mut r, "a.txt", "1\n");
    let h0 = r.save("base").unwrap();
    put(&mut r, "a.txt", "2\n");
    put(&mut r, "n.txt", "n\n");
    let (h1, h2) = commit_split(&mut r, &vec!["n.txt".to_string()], "add n", &vec!["a.txt".to_string()], "edit a").unwrap();
    assert_eq!(r.store.read_commit(&h1).unwrap().parents, vec![h0]);
    assert_eq!(r.store.read_commit(&h2).unwrap().parents, vec![h1.clone()]);
    assert_eq!(head(&r), h2);
}

#[test]
fn update_tree_resolve_rewrites_one_path() {
    let mut r = new_repo();
    put(&mut r, "a.txt", "1\n");
    let h = r.save("base").unwrap();
    let blob = r.store.write_blob(b"resolved\n");
    update_tree_resolve(&mut r, &h, "a.txt", &blob).unwrap();
    let nh = head(&r);
    assert_ne!(nh, h);
    let old_c = r.store.read_commit(&h).unwrap();
    let c = r.store.read_commit(&nh).unwrap();
    assert_eq!(c.message, old_c.message);
    assert_eq!(c.timestamp, old_c.timestamp);
    let f = flatten(&r.store, &c.tree).unwrap();
    assert_eq!(f.get("a.txt").unwrap().hash, blob);
    assert!(update_tree_resolve(&mut r, "nope", "a.txt", &blob).is_err());
}

#[test]
fn tags_name_commits_once() {
    let mut r = new_repo();
    assert!(matches!(r.create_tag("v0", None), Err(VaultError::ObjectNotFound(m)) if m == "HEAD"));
    put(&mut r, "a.txt", "1\n");
    let h = r.save("one").unwrap();
    r.create_tag("v1", None).unwrap();
    r.create_tag("other", Some("abc")).unwrap();
    assert_eq!(r.list_tags().unwrap(), vec![("v1".to_string(), h), ("other".to_string(), "abc".to_string())]);
    assert!(matches!(r.create_tag("v1", None), Err(VaultError::BranchExists(m)) if m == "tag 'v1'"));
}

#[test]
fn snapshot_save_restore_and_drop() {
    let mut r = new_repo();
    put(&mut r, "a.txt", "1\n");
    r.snapshot_save("s1", Some("note")).unwrap();
    put(&mut r, "a.txt", "2\n");
    put(&mut r, "b.txt", "b\n");
    r.snapshot_restore("s1").unwrap();
    assert_eq!(content(&r, "a.txt"), Some("1\n".to_string()));
    assert_eq!(content(&r, "b.txt"), None);
    let l = r.snapshot_list().unwrap();
    assert_eq!(l.len(), 1);
    assert_eq!(l[0].note, Some("note".to_string()));
    assert!(r.snapshot_save("s1", None).is_err());
    r.snapshot_drop("s1").unwrap();
    assert!(r.snapshot_drop("s1").is_err());
}

#[test]
fn restore_tree_keeps_ignored_files() {
    let mut r = new_repo();
    put(&mut r, "a.txt", "1\n");
    let h = r.save("one").unwrap();
    r.work.create_dir("target");
    put(&mut r, "target/keep", "k");
    put(&mut r, "junk.txt", "j");
    let tree = r.store.read_commit(&h).unwrap().tree;
    r.restore_tree(&tree).unwrap();
    assert_eq!(content(&r, "target/keep"), Some("k".to_string()));
    assert_eq!(content(&r, "junk.txt"), None);
    assert_eq!(content(&r, "a.txt"), Some("1\n".to_string()));
    assert!(r.restore_tree("missing").is_err());
}

#[test]
fn ignore_add_list_and_check() {
    let mut r = new_repo();
    r.ignore_add("*.tmp").unwrap();
    assert_eq!(content(&r, ".vaultignore"), Some(format!("{}\n*.tmp\n", DEFAULT_IGNORE.trim_end())));
    r.ignore_add("*.tmp").unwrap();
    let l = r.ignore_list().unwrap();
    assert_eq!(l.iter().filter(|p| p.as_str() == "*.tmp").count(), 1);
    assert_eq!(r.ignore_check("x.tmp").unwrap(), Some("*.tmp".to_string()));
    assert_eq!(r.ignore_check("x.rs").unwrap(), None);
    assert_eq!(r.ignore_check("target/a").unwrap(), Some("target/".to_string()));
}

#[test]
fn work_dir_changes_are_logged_for_replay() {
    let mut r = new_repo();
    let n0 = r.work.ops.len();
    put(&mut r, "a.txt", "1\n");
    r.save("one").unwrap();
    put(&mut r, "a.txt", "2\n");
    r.restore_file("a.txt", None).unwrap();
    assert!(r.work.ops.len() > n0 + 1);
    assert!(r.work.holds("a.txt"));
    assert!(!r.work.is_dir("a.txt"));
}

#[test]
fn ignore_list_refuses_a_file_that_is_not_text() {
    let mut r = new_repo();
    r.work.write_file(".vaultignore", &[0xff, 0xfe]);
    assert!(matches!(r.ignore_list(), Err(VaultError::Io(m)) if m == "stream did not contain valid UTF-8"));
    assert!(r.ignored_patterns().is_empty());
}

fn listing(r: &Repo) -> Vec<(String, Option<String>)> {
    r.work.paths.entries.iter().map(|e| (e.path.clone(), content(r, &e.path))).collect()
}

#[test]
fn saved_tree_restores_working_directory() {
    let mut r = new_repo();
    r.work.create_dir("src");
    r.work.create_dir("src/deep");
    put(&mut r, "src/deep/a.rs", "a\n");
    put(&mut r, "src/b.rs", "b\n");
    r.work.create_dir("empty");
    put(&mut r, "top.txt", "t\n");
    r.work.create_dir("target");
    put(&mut r, "target/out", "o");
    let before = listing(&r);
    let h = r.save("snapshot").unwrap();
    r.work.remove_file("src/b.rs");
    put(&mut r, "src/deep/a.rs", "changed\n");
    put(&mut r, "new.txt", "n\n");
    r.work.create_dir("other");
    put(&mut r, "target/out", "o2");
    let tree = r.store.read_commit(&h).unwrap().tree;
    r.restore_tree(&tree).unwrap();
    let mut expected = before.clone();
    for e in expected.iter_mut() {
        if e.0 == "target/out" {
            e.1 = Some("o2".to_string());
        }
    }
    assert_eq!(listing(&r), expected);
    assert_eq!(r.snapshot_working_dir(), tree);
    assert_eq!(r.snapshot_working_dir(), tree);
}

#[test]
fn nested_branch_names_work_like_others() {
    let mut r = new_repo();
    put(&mut r, "a.txt", "1\n");
    let h = r.save("one").unwrap();
    r.create_branch("feature/auth").unwrap();
    r.switch("feature/auth").unwrap();
    assert_eq!(r.store.current_branch(), Some("feature/auth".to_string()));
    assert_eq!(r.store.resolve_head(), Some(h));
    put(&mut r, "b.txt", "2\n");
    let h2 = r.save("two").unwrap();
    assert_eq!(r.store.read_branch("feature/auth").unwrap(), h2);
    assert_eq!(r.store.list_branches(), vec!["main".to_string(), "feature/auth".to_string()]);
}
