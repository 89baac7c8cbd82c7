//! Tests for pairing and content comparison.

use tbcompare::comparison::{compare_line_collections, extract_pair_key, FileDifferences};
use tbcompare::{compare_files, generate_file_pairs};

fn names(list: &[&str]) -> Vec<String> {
    list.iter().map(|s| s.to_string()).collect()
}

#[test]
fn test_compare_files_identical() {
    let content = "Header line\nLine 2\nLine 1\nLine 3\n";
    let result = compare_files(content, content);
    assert!(result.is_none());
}

#[test]
fn test_compare_files_different() {
    let c1 = "Header line\nLine 2\nLine 1\nLine 3\n";
    let c2 = "Header line\nLine 2\nLine 4\nLine 3\n";
    let result = compare_files(c1, c2);
    assert!(result.is_some());
    let diff = result.unwrap();
    assert_eq!(diff.only_in_first, vec!["Line 1"]);
    assert_eq!(diff.only_in_second, vec!["Line 4"]);
}

#[test]
fn test_generate_file_pairs() {
    let dir1 = names(&[
        "SC_13260000_20190820_019N_A05_Z.txt",
        "SC_13260000_20190820_020N_A01_Z.txt",
    ]);
    let dir2 = names(&[
        "SC_13260000_20190820_019N_A05_Z.txt",
        "SC_13260001_20190820_020N_A01_Z.txt",
    ]);
    let pairs = generate_file_pairs(&dir1, &dir2);
    assert_eq!(pairs.len(), 1);
    assert_eq!(pairs[0].0, "SC_13260000_20190820_019N_A05_Z.txt");
    assert_eq!(pairs[0].1, "SC_13260000_20190820_019N_A05_Z.txt");
}

#[test]
fn test_pair_key_requires_matching_variant() {
    // idGroup and dateStamp agree, but the variant code differs
    // (A05 against A01), so the names do not match.
    let dir1 = names(&["SC_13260000_20190820_019N_A05_Z.txt"]);
    let dir2 = names(&["SC_13260000_20190820_020N_A01_Z.txt"]);
    let pairs = generate_file_pairs(&dir1, &dir2);
    assert!(pairs.is_empty());
}

#[test]
fn test_pair_version_segment_ignored() {
    // Only the version segment differs (019N against 999X), so the
    // names do match.
    let dir1 = names(&["SC_13260000_20190820_019N_A05_Z.txt"]);
    let dir2 = names(&["SC_13260000_20190820_999X_A05_Z.txt"]);
    let pairs = generate_file_pairs(&dir1, &dir2);
    assert_eq!(pairs.len(), 1);
    assert_eq!(pairs[0].0, "SC_13260000_20190820_019N_A05_Z.txt");
    assert_eq!(pairs[0].1, "SC_13260000_20190820_999X_A05_Z.txt");
}

#[test]
fn test_nonconforming_names_excluded() {
    // Wrong first segment, wrong last segment, or fewer than six
    // segments: none of these takes part in pairing, on either side.
    let bad = names(&[
        "XX_13260000_20190820_019N_A05_Z.txt",
        "SC_13260000_20190820_019N_A05_Q.txt",
        "SC_13260000_20190820_Z.txt",
        "plain.txt",
    ]);
    let pairs = generate_file_pairs(&bad, &bad);
    assert!(pairs.is_empty());
}

#[test]
fn test_duplicate_keys_resolve_to_last() {
    // Two names in the second directory carry the same key; the lookup
    // resolves to the one listed last.
    let dir1 = names(&["SC_1_20200101_001N_A01_Z.txt"]);
    let dir2 = names(&[
        "SC_1_20200101_002N_A01_Z.txt",
        "SC_1_20200101_003N_A01_Z.txt",
    ]);
    let pairs = generate_file_pairs(&dir1, &dir2);
    assert_eq!(pairs.len(), 1);
    assert_eq!(pairs[0].1, "SC_1_20200101_003N_A01_Z.txt");
}

#[test]
fn test_pairs_follow_first_listing_order() {
    let dir1 = names(&[
        "SC_2_20200101_001N_A01_Z.txt",
        "SC_1_20200101_001N_A01_Z.txt",
    ]);
    let dir2 = names(&[
        "SC_1_20200101_002N_A01_Z.txt",
        "SC_2_20200101_002N_A01_Z.txt",
    ]);
    let pairs = generate_file_pairs(&dir1, &dir2);
    assert_eq!(pairs.len(), 2);
    assert_eq!(pairs[0].0, "SC_2_20200101_001N_A01_Z.txt");
    assert_eq!(pairs[0].1, "SC_2_20200101_002N_A01_Z.txt");
    assert_eq!(pairs[1].0, "SC_1_20200101_001N_A01_Z.txt");
    assert_eq!(pairs[1].1, "SC_1_20200101_002N_A01_Z.txt");
}

#[test]
fn test_single_pair_scenario() {
    let dir1 = names(&["SC_1_20200101_001N_A01_Z.txt"]);
    let dir2 = names(&["SC_1_20200101_002N_A01_Z.txt"]);
    let pairs = generate_file_pairs(&dir1, &dir2);
    assert_eq!(pairs.len(), 1);
    let diff = compare_files("h\nb\na\n", "h\na\nc\n").unwrap();
    assert_eq!(diff.only_in_first, vec!["b"]);
    assert_eq!(diff.only_in_second, vec!["c"]);
}

#[test]
fn test_header_only_difference_is_no_difference() {
    // The slow path ignores line 0, so contents differing only there
    // compare as identical.
    let result = compare_files("header one\na\nb\n", "another header\na\nb\n");
    assert!(result.is_none());
}

#[test]
fn test_compare_empty_contents() {
    assert!(compare_files("", "").is_none());
    assert!(compare_files("only a header", "different header").is_none());
}

#[test]
fn test_compare_ignores_line_order_and_duplicates() {
    assert!(compare_files("h\na\nb\nb\n", "h\nb\na\n").is_none());
}

#[test]
fn test_compare_line_collections() {
    // The collections stand for already normalized, sorted file bodies.
    let a = names(&["a", "b"]);
    let b = names(&["b", "c"]);
    let diff = compare_line_collections(&a, &b).unwrap();
    assert_eq!(diff.only_in_first, vec!["a"]);
    assert_eq!(diff.only_in_second, vec!["c"]);
    assert!(compare_line_collections(&a, &a).is_none());
}

#[test]
fn test_extract_pair_key() {
    let key = extract_pair_key("SC_13260000_20190820_019N_A05_Z.txt").unwrap();
    assert_eq!(key.0, "13260000");
    assert_eq!(key.1, "20190820");
    assert_eq!(key.2, "A05");
    // Extra middle segments shift nothing: the key still takes the
    // second, third, and second-to-last segments.
    let key = extract_pair_key("SC_a_b_x_y_d_Z").unwrap();
    assert_eq!((key.0.as_str(), key.1.as_str(), key.2.as_str()), ("a", "b", "d"));
    assert!(extract_pair_key("SC_a_b_c_Z.txt").is_none());
    assert!(extract_pair_key("sc_a_b_c_d_Z.txt").is_none());
}

#[test]
fn test_difference_sides_partition_line_sets() {
    // only_in_first and only_in_second are disjoint from each other
    // and from the shared lines, and only_in_first together with the
    // shared lines recovers the first file's line set.
    let c1 = "h\na\nb\nc\n";
    let c2 = "h\nb\nc\nd\n";
    let diff = compare_files(c1, c2).unwrap();
    assert_eq!(diff.only_in_first, vec!["a"]);
    assert_eq!(diff.only_in_second, vec!["d"]);
    let shared = ["b", "c"];
    for line in &diff.only_in_first {
        assert!(!diff.only_in_second.contains(line));
        assert!(!shared.contains(&line.as_str()));
    }
    for line in &diff.only_in_second {
        assert!(!shared.contains(&line.as_str()));
    }
    let mut recovered: Vec<&str> = diff.only_in_first.iter().map(|s| s.as_str()).collect();
    recovered.extend(shared.iter());
    recovered.sort();
    assert_eq!(recovered, vec!["a", "b", "c"]);
}

#[test]
fn test_differences_are_clonable() {
    let diff = FileDifferences {
        only_in_first: vec!["a".to_string()],
        only_in_second: vec![],
    };
    let copy = diff.clone();
    assert_eq!(copy.only_in_first, vec!["a"]);
    assert!(copy.only_in_second.is_empty());
}
