//! Tests for the text primitives.

use tbcompare::text::{split_lines, split_on, str_eq, str_le, trim};

#[test]
fn test_split_lines() {
    assert_eq!(split_lines("a\nb\n"), vec!["a", "b"]);
    assert_eq!(split_lines("a\nb"), vec!["a", "b"]);
    assert_eq!(split_lines("a\n\nb"), vec!["a", "", "b"]);
    assert_eq!(split_lines("\n"), vec![""]);
    assert!(split_lines("").is_empty());
}

#[test]
fn test_split_on_underscore() {
    assert_eq!(split_on("a_b_c", '_'), vec!["a", "b", "c"]);
    assert_eq!(split_on("a_", '_'), vec!["a", ""]);
    assert_eq!(split_on("_a", '_'), vec!["", "a"]);
    assert_eq!(split_on("", '_'), vec![""]);
    assert_eq!(split_on("abc", '_'), vec!["abc"]);
}

#[test]
fn test_trim() {
    assert_eq!(trim("  x  "), "x");
    assert_eq!(trim("\t a b \r\n"), "a b");
    assert_eq!(trim("\t \r\n"), "");
    assert_eq!(trim(""), "");
    assert_eq!(trim("x"), "x");
}

#[test]
fn test_str_compare() {
    assert!(str_eq("abc", "abc"));
    assert!(!str_eq("abc", "abd"));
    assert!(!str_eq("abc", "ab"));
    assert!(str_le("abc", "abd"));
    assert!(str_le("ab", "abc"));
    assert!(!str_le("b", "abc"));
    assert!(str_le("same", "same"));
}
