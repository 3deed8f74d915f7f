use vault_core::diff::{count_lines, DiffKind, FileDiff};
use vault_core::linediff::{DiffHunk, DiffLine};
use vault_core::repo::find_root;
use vault_core::screens::{
    resolution_lines, resolve_step, split_sides, split_step, Key, Resolution, ResolveState, SplitState, Step,
};
use vault_core::text::{lines, trim, trim_end, trim_start};

#[test]
fn resolve_keys_choose_scroll_and_finish() {
    let s0 = ResolveState { choice: Resolution::Unresolved, scroll: 0 };
    assert_eq!(resolve_step(s0, Key::Enter, 5), (s0, Step::Stay));
    let (s1, st) = resolve_step(s0, Key::Char('t'), 5);
    assert_eq!(s1.choice, Resolution::Theirs);
    assert_eq!(st, Step::Stay);
    let (s2, _) = resolve_step(s1, Key::Char(' '), 5);
    assert_eq!(s2.choice, Resolution::Ours);
    let (s3, _) = resolve_step(s2, Key::Char('b'), 5);
    assert_eq!(s3.choice, Resolution::Both);
    let (s4, _) = resolve_step(s3, Key::Down, 2);
    assert_eq!(s4.scroll, 1);
    let (s5, _) = resolve_step(s4, Key::Char('j'), 2);
    assert_eq!(s5.scroll, 1);
    let (s6, _) = resolve_step(s5, Key::Up, 2);
    assert_eq!(s6.scroll, 0);
    let (s7, _) = resolve_step(s6, Key::Char('k'), 2);
    assert_eq!(s7.scroll, 0);
    assert_eq!(resolve_step(s7, Key::Enter, 2).1, Step::Accept);
    assert_eq!(resolve_step(s7, Key::Esc, 2).1, Step::Cancel);
    assert_eq!(resolve_step(s7, Key::Char('q'), 2).1, Step::Cancel);
    assert_eq!(resolve_step(s7, Key::Other, 2), (s7, Step::Stay));
}

#[test]
fn resolution_keeps_the_chosen_lines() {
    let ours = vec!["a".to_string(), "b".to_string()];
    let theirs = vec!["c".to_string()];
    assert_eq!(resolution_lines(Resolution::Ours, &ours, &theirs), ours);
    assert_eq!(resolution_lines(Resolution::Theirs, &ours, &theirs), theirs);
    assert_eq!(
        resolution_lines(Resolution::Both, &ours, &theirs),
        vec!["a".to_string(), "b".to_string(), "c".to_string()]
    );
}

#[test]
fn split_keys_move_and_toggle_and_sides_follow_flags() {
    let mut s = SplitState { in_second: vec![false, false, false], cursor: 0 };
    assert_eq!(split_step(&mut s, Key::Up), Step::Stay);
    assert_eq!(s.cursor, 0);
    split_step(&mut s, Key::Down);
    split_step(&mut s, Key::Char(' '));
    assert_eq!(s.in_second, vec![false, true, false]);
    split_step(&mut s, Key::Char('j'));
    split_step(&mut s, Key::Char('j'));
    assert_eq!(s.cursor, 2);
    assert_eq!(split_step(&mut s, Key::Enter), Step::Accept);
    assert_eq!(split_step(&mut s, Key::Esc), Step::Cancel);
    let paths = vec!["a".to_string(), "b".to_string(), "c".to_string()];
    let (first, second) = split_sides(&paths, &s.in_second);
    assert_eq!(first, vec!["a".to_string(), "c".to_string()]);
    assert_eq!(second, vec!["b".to_string()]);
}

#[test]
fn count_lines_counts_additions_or_removals() {
    let fd = FileDiff {
        path: "f".to_string(),
        kind: DiffKind::Modified,
        hunks: vec![
            DiffHunk {
                old_start: 1,
                new_start: 1,
                lines: vec![
                    DiffLine::Context("x".to_string()),
                    DiffLine::Removed("a".to_string()),
                    DiffLine::Added("b".to_string()),
                    DiffLine::Added("c".to_string()),
                ],
            },
            DiffHunk { old_start: 9, new_start: 10, lines: vec![DiffLine::Removed("z".to_string())] },
        ],
    };
    assert_eq!(count_lines(&fd, true), 2);
    assert_eq!(count_lines(&fd, false), 2);
}

#[test]
fn find_root_takes_the_nearest_vault() {
    assert_eq!(find_root(&vec![false, true, true]), Some(1));
    assert_eq!(find_root(&vec![false, false]), None);
    assert_eq!(find_root(&vec![]), None);
}

#[test]
fn trimming_and_lines_follow_str() {
    for s in ["  a b \t\n", "", "   ", "\u{3000}x\u{a0}", "x"] {
        assert_eq!(trim(s), s.trim());
        assert_eq!(trim_end(s), s.trim_end());
        assert_eq!(trim_start(s), s.trim_start());
    }
    for s in ["a\nb\r\nc", "a\n", "", "\n\n", "x\r", "a\r\n\r\nb\n"] {
        let want: Vec<String> = s.lines().map(|l| l.to_string()).collect();
        assert_eq!(lines(s), want);
    }
}
