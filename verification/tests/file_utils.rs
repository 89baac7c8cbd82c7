//! Tests for file loading, normalization, and sorting.

use tbcompare::error::CompareError;
use tbcompare::file_utils::{
    finish_external_sort, internal_sort, is_file_too_large, needs_external_sort, normalize_lines,
    process_content, process_lines, read_and_normalize_file,
};
use tbcompare::{detect_encoding, read_and_process_file};

fn lines(list: &[&str]) -> Vec<String> {
    list.iter().map(|s| s.to_string()).collect()
}

#[test]
fn test_detect_encoding_utf8() {
    let sample = b"Test content with UTF-8 encoding\n";
    let encoding = detect_encoding(sample, true);
    assert_eq!(encoding, encoding_rs::UTF_8);
}

#[test]
fn test_read_and_process_file() {
    let content = b"Header line\nLine 3\nLine 1\nLine 2\n".to_vec();
    let result = read_and_process_file(&content);
    assert_eq!(result, vec!["Line 1", "Line 2", "Line 3"]);
}

#[test]
fn test_read_and_process_decodes_multibyte() {
    let content = "Header\nCaf\u{e9}\n".as_bytes().to_vec();
    let result = read_and_process_file(&content);
    assert_eq!(result, vec!["Caf\u{e9}"]);
}

#[test]
fn test_read_and_normalize_keeps_file_order() {
    let content = b"Header line\nLine 3\n Line 1 \nLine 2\n".to_vec();
    let result = read_and_normalize_file(&content);
    assert_eq!(result, vec!["Line 3", "Line 1", "Line 2"]);
}

#[test]
fn test_read_and_process_empty_file() {
    let result = read_and_process_file(&Vec::new());
    assert!(result.is_empty());
}

#[test]
fn test_header_line_always_excluded() {
    // Whatever stands in line 0 never reaches the body, even when it
    // repeats a body line.
    assert_eq!(process_content("b\nb\na\n"), vec!["a", "b"]);
    assert_eq!(process_content("anything at all\nx\n"), vec!["x"]);
    assert!(process_content("only a header\n").is_empty());
    assert!(process_content("").is_empty());
}

#[test]
fn test_process_content_trims_lines() {
    assert_eq!(process_content("h\n  a  \n\tb\r\n"), vec!["a", "b"]);
}

#[test]
fn test_process_lines_matches_process_content() {
    // The streamed large-file path hands the raw lines over one by
    // one; it must normalize to the same result as the in-memory path.
    let raw = lines(&["Header line", "Line 3", "Line 1", "Line 2"]);
    let streamed = process_lines(&raw);
    let in_memory = process_content("Header line\nLine 3\nLine 1\nLine 2\n");
    assert_eq!(streamed, in_memory);
    assert_eq!(streamed, vec!["Line 1", "Line 2", "Line 3"]);
}

#[test]
fn test_normalize_lines_drops_header_and_trims() {
    let raw = lines(&["header", " b ", "a"]);
    assert_eq!(normalize_lines(&raw), vec!["b", "a"]);
    assert!(normalize_lines(&Vec::new()).is_empty());
}

#[test]
fn test_internal_sort() {
    let mut v = lines(&["pear", "apple", "orange", "apple"]);
    internal_sort(&mut v);
    assert_eq!(v, vec!["apple", "apple", "orange", "pear"]);
    let mut empty: Vec<String> = Vec::new();
    internal_sort(&mut empty);
    assert!(empty.is_empty());
}

#[test]
fn test_internal_sort_is_codepoint_order() {
    let mut v = lines(&["b", "B", "a", "\u{e9}", "Z"]);
    internal_sort(&mut v);
    assert_eq!(v, vec!["B", "Z", "a", "b", "\u{e9}"]);
}

#[test]
fn test_finish_external_sort_success() {
    let output = b"line1\nline2\n".to_vec();
    let result = finish_external_sort(true, output).unwrap();
    assert_eq!(result, vec!["line1", "line2"]);
}

#[test]
fn test_finish_external_sort_failure_status() {
    let result = finish_external_sort(false, Vec::new());
    assert!(matches!(result, Err(CompareError::Sort(_))));
}

#[test]
fn test_finish_external_sort_invalid_output() {
    let result = finish_external_sort(true, vec![0xff, 0xfe, 0xfd]);
    assert!(matches!(result, Err(CompareError::Sort(_))));
}

#[test]
fn test_size_thresholds() {
    assert!(!is_file_too_large(104857600));
    assert!(is_file_too_large(104857601));
    assert!(!needs_external_sort(100000));
    assert!(needs_external_sort(100001));
}

#[test]
fn test_error_detail() {
    let err = CompareError::NotFound("missing.txt".to_string());
    assert!(matches!(&err, CompareError::NotFound(_)));
    assert_eq!(err.detail(), "missing.txt");
    let err = CompareError::Io("read failed".to_string());
    assert_eq!(err.detail(), "read failed");
    let err = CompareError::Encoding("bad bytes".to_string());
    assert_eq!(err.detail(), "bad bytes");
    let err = CompareError::Process("no compare tool".to_string());
    assert_eq!(err.detail(), "no compare tool");
}
