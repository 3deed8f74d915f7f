use vault_core::diff::join;
use vault_core::order::str_lt;
use vault_core::sync::{repo_name_from_url, server_base_url_from_remote_url};
use vault_core::term::Term;
use vault_core::text::{decimal, trim_end_matches};

#[test]
fn decimal_writes_digits_without_leading_zeros() {
    assert_eq!(decimal(0), "0");
    assert_eq!(decimal(7), "7");
    assert_eq!(decimal(1234), "1234");
    assert_eq!(decimal(1000), "1000");
}

#[test]
fn trim_end_matches_drops_repeated_suffix() {
    assert_eq!(trim_end_matches("a///", "/"), "a");
    assert_eq!(trim_end_matches("a", "/"), "a");
}

#[test]
fn fit_pads_short_text_to_width() {
    assert_eq!(Term::fit("abc", 6), "abc   ");
}

#[test]
fn fit_cuts_long_text_with_ellipsis() {
    assert_eq!(Term::fit("abcdef", 4), "abc…");
    assert_eq!(Term::fit("abcd", 4), "abc…");
    assert_eq!(Term::fit("ab", 0), "");
}

#[test]
fn fit_gives_exactly_width_characters() {
    for w in 0..10usize {
        for s in ["", "a", "hello", "a much longer line of text", "éé", "ünïcödé text"] {
            assert_eq!(Term::fit(s, w).chars().count(), w);
        }
    }
}

#[test]
fn fit_counts_characters_not_bytes() {
    assert_eq!(Term::fit("éé", 3), "éé ");
    assert_eq!(Term::fit("ééé", 3), "éé…");
    assert_eq!(Term::fit("éé", 5), "éé   ");
}

#[test]
fn repo_name_is_last_url_segment() {
    assert_eq!(repo_name_from_url("https://host:8443/alice/project"), "project");
    assert_eq!(repo_name_from_url("https://host:8443/alice/project///"), "project");
    assert_eq!(repo_name_from_url("project"), "project");
}

#[test]
fn server_base_url_drops_last_segment() {
    assert_eq!(server_base_url_from_remote_url("https://host:8443/alice/project"), "https://host:8443/alice");
    assert_eq!(server_base_url_from_remote_url("https://host/project/"), "https://host");
    assert_eq!(server_base_url_from_remote_url("project"), "project");
}

#[test]
fn join_adds_separator_only_after_prefix() {
    assert_eq!(join("", "a.txt"), "a.txt");
    assert_eq!(join("src", "a.txt"), "src/a.txt");
}

#[test]
fn str_lt_is_code_point_order() {
    assert!(str_lt("a", "b"));
    assert!(str_lt("a", "ab"));
    assert!(!str_lt("b", "a"));
    assert!(!str_lt("a", "a"));
    assert!(str_lt("B", "a"));
}
