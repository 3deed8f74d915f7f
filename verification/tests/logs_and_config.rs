use vault_core::error::VaultError;
use vault_core::ignore::{first_matching, is_ignored, parse_patterns, pattern_line_list};
use vault_core::oplog::{OpEntry, OpLog};
use vault_core::remote::{add_remote, get_remote, list_remotes};
use vault_core::snapshot::{SnapshotEntry, SnapshotStore};
use vault_core::stash::{StashEntry, StashStore};

fn op(name: &str, before: Option<&str>, after: Option<&str>) -> OpEntry {
    OpEntry {
        op: name.to_string(),
        timestamp: "2024-01-01T00:00:00Z".to_string(),
        head_before: before.map(|s| s.to_string()),
        head_after: after.map(|s| s.to_string()),
        branch: Some("main".to_string()),
        message: None,
        extra: None,
        undone: false,
    }
}

fn stash(name: &str, tree: &str) -> StashEntry {
    StashEntry { name: name.to_string(), tree_hash: tree.to_string(), created_at: "t".to_string(), branch: "main".to_string() }
}

fn snap(name: &str, tree: &str) -> SnapshotEntry {
    SnapshotEntry { name: name.to_string(), tree_hash: tree.to_string(), created_at: "t".to_string(), note: Some("n".to_string()) }
}

#[test]
fn oplog_keeps_entries_in_order() {
    let mut log = OpLog::new("/w/.vault");
    assert_eq!(log.path, "/w/.vault/oplog/ops.jsonl");
    log.append(op("init", None, None));
    log.append(op("save", None, Some("a")));
    let all = log.read_all();
    assert_eq!(all.len(), 2);
    assert_eq!(all[0].op, "init");
    assert_eq!(all[1].head_after, Some("a".to_string()));
}

#[test]
fn undo_last_takes_latest_head_move_and_never_twice() {
    let mut log = OpLog::new("/w/.vault");
    log.append(op("init", None, None));
    log.append(op("save", None, Some("a")));
    log.append(op("save", Some("a"), Some("b")));
    log.append(op("branch", Some("b"), Some("b")));
    assert_eq!(log.undo_last(), Some(Some("a".to_string())));
    assert!(log.entries[2].undone);
    assert_eq!(log.undo_last(), Some(None));
    assert!(log.entries[1].undone);
    assert_eq!(log.undo_last(), None);
    assert!(!log.entries[0].undone);
    assert!(!log.entries[3].undone);
}

#[test]
fn stash_save_then_get_and_drop() {
    let mut s = StashStore::new("/w/.vault");
    assert_eq!(s.index_path, "/w/.vault/stash/index.json");
    s.save(stash("wip", "t1")).unwrap();
    s.save(stash("other", "t2")).unwrap();
    assert_eq!(s.get("wip").unwrap().tree_hash, "t1");
    let dup = s.save(stash("wip", "t3"));
    assert!(matches!(dup, Err(VaultError::ObjectNotFound(m)) if m == "stash 'wip' already exists -- drop it first"));
    s.drop("wip").unwrap();
    assert!(matches!(s.get("wip"), Err(VaultError::ObjectNotFound(m)) if m == "stash 'wip' "));
    assert_eq!(s.get("other").unwrap().tree_hash, "t2");
    assert!(matches!(s.drop("wip"), Err(VaultError::ObjectNotFound(m)) if m == "stash 'wip' "));
    assert_eq!(s.list().len(), 1);
}

#[test]
fn snapshot_save_then_get_and_drop() {
    let mut s = SnapshotStore::new("/w/.vault");
    s.save(snap("v1", "t1")).unwrap();
    assert_eq!(s.get("v1").unwrap().note, Some("n".to_string()));
    let dup = s.save(snap("v1", "t2"));
    assert!(matches!(dup, Err(VaultError::ObjectNotFound(m)) if m == "snapshot 'v1' already exists"));
    s.save(snap("v2", "t2")).unwrap();
    s.drop("v1").unwrap();
    assert!(matches!(s.get("v1"), Err(VaultError::ObjectNotFound(m)) if m == "snapshot 'v1' "));
    assert_eq!(s.get("v2").unwrap().tree_hash, "t2");
    assert_eq!(s.list().len(), 1);
}

#[test]
fn remotes_are_read_from_config_sections() {
    let config = "[user]\nname = A\n\n[remote \"origin\"]\nurl = https://h/a/r \n[remote \"nourl\"]\n[remote \"b\"]\n  url = u2\n";
    let rs = list_remotes(config);
    assert_eq!(rs.len(), 2);
    assert_eq!((rs[0].name.as_str(), rs[0].url.as_str()), ("origin", "https://h/a/r"));
    assert_eq!((rs[1].name.as_str(), rs[1].url.as_str()), ("b", "u2"));
    assert!(list_remotes("").is_empty());
}

#[test]
fn added_remote_can_be_found() {
    let c = add_remote("[user]\nname = A\n", "origin", "https://h/a/r");
    assert_eq!(c, "[user]\nname = A\n\n[remote \"origin\"]\nurl = https://h/a/r\n");
    let r = get_remote(&c, "origin").unwrap();
    assert_eq!(r.url, "https://h/a/r");
    assert!(matches!(get_remote(&c, "up"), Err(VaultError::BranchNotFound(m)) if m == "remote 'up'"));
}

#[test]
fn ignore_patterns_skip_blank_and_comment_lines() {
    let text = "target/\n\n# comment\n  *.log  \n .vault/\n";
    assert_eq!(parse_patterns(text), vec!["target/", "*.log", ".vault/"]);
    assert_eq!(pattern_line_list(text), vec!["target/", "  *.log  ", " .vault/"]);
}

#[test]
fn ignore_matches_prefix_or_star_suffix() {
    let pats = vec!["target/".to_string(), "*.class".to_string(), ".vault".to_string()];
    assert!(is_ignored("target/debug/x", &pats));
    assert!(is_ignored("src/A.class", &pats));
    assert!(is_ignored(".vaultignore", &pats));
    assert!(!is_ignored("src/main.rs", &pats));
    assert_eq!(first_matching("target/x.class", &pats), Some("target/".to_string()));
    assert_eq!(first_matching("a.class", &pats), Some("*.class".to_string()));
    assert_eq!(first_matching("a.rs", &pats), None);
}

#[test]
fn added_remote_comes_last_with_trimmed_url() {
    let c = add_remote("[remote \"a\"]\nurl = x\n", "b", "  https://h/r  ");
    let rs = list_remotes(&c);
    assert_eq!(rs.len(), 2);
    assert_eq!((rs[1].name.as_str(), rs[1].url.as_str()), ("b", "https://h/r"));
    assert_eq!(get_remote(&c, "b").unwrap().url, "https://h/r");
}

#[test]
fn remote_with_blank_url_is_not_listed() {
    let c = add_remote("", "b", "");
    assert!(list_remotes(&c).is_empty());
    assert!(get_remote(&c, "b").is_err());
}
