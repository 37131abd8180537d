use dtstree::parse::split_lines;
use dtstree::text::{contains_char, contains_substr, find_substr, starts_with_str, str_eq, trim_str};

#[test]
fn trim_removes_edge_whitespace_only() {
    assert_eq!(trim_str("  a b \t"), "a b");
    assert_eq!(trim_str("\r\n x \r\n"), "x");
    assert_eq!(trim_str(""), "");
    assert_eq!(trim_str(" \t "), "");
    assert_eq!(trim_str("none"), "none");
}

#[test]
fn find_substr_returns_first_occurrence() {
    assert_eq!(find_substr("a = b = c", " = "), Some(1));
    assert_eq!(find_substr("abc", "bc"), Some(1));
    assert_eq!(find_substr("abc", "zx"), None);
    assert_eq!(find_substr("abc", ""), Some(0));
}

#[test]
fn contains_and_prefix_tests() {
    assert!(contains_char("a{b", '{'));
    assert!(!contains_char("ab", '{'));
    assert!(contains_substr("x };", "};"));
    assert!(!contains_substr("x }", "};"));
    assert!(starts_with_str("LABEL x", "LABEL"));
    assert!(!starts_with_str(" LABEL x", "LABEL"));
    assert!(str_eq("same", "same"));
    assert!(!str_eq("same", "samé"));
}

#[test]
fn split_lines_keeps_every_piece() {
    assert_eq!(split_lines("a\nb"), vec!["a", "b"]);
    assert_eq!(split_lines("a\nb\n"), vec!["a", "b", ""]);
    assert_eq!(split_lines(""), vec![""]);
    assert_eq!(split_lines("\n"), vec!["", ""]);
}
