use diffcore::{batch_calculate_diffs, calculate_diff, calculate_similarity, get_line_changes,
    DiffError};

#[test]
fn identity_diff_is_empty() {
    let d = calculate_diff("a\nb\nc\n".to_string(), "a\nb\nc\n".to_string(), None, None).unwrap();
    assert_eq!(d.diff_size, 0);
    assert!(!d.is_significant);
    assert_eq!(d.lines_added, 0);
    assert_eq!(d.lines_removed, 0);
    assert_eq!(d.chars_added, 0);
    assert_eq!(d.chars_deleted, 0);
    assert_eq!(d.summary, "no change");
    assert_eq!(d.after_content, "a\nb\nc\n");
    assert!(d.unified_diff.is_none());
}

#[test]
fn one_line_replaced() {
    let d = calculate_diff("a\nb\nc\n".to_string(), "a\nx\nc\n".to_string(), Some(1), None)
        .unwrap();
    assert_eq!(d.lines_added, 1);
    assert_eq!(d.lines_removed, 1);
    assert_eq!(d.diff_size, 0);
    assert!(!d.is_significant);
    assert_eq!(d.summary, "no change");
}

#[test]
fn growth_summary_and_counts() {
    let d = calculate_diff("ab".to_string(), "abcde".to_string(), None, None).unwrap();
    assert_eq!(d.diff_size, 3);
    assert_eq!(d.chars_added, 3);
    assert_eq!(d.chars_deleted, 0);
    assert_eq!(d.summary, "+3 chars");
    assert!(!d.is_significant);
}

#[test]
fn shrink_summary_and_counts() {
    let d = calculate_diff("abcdefghijklmno".to_string(), "ab".to_string(), Some(13), None)
        .unwrap();
    assert_eq!(d.diff_size, 13);
    assert_eq!(d.chars_added, 0);
    assert_eq!(d.chars_deleted, 13);
    assert_eq!(d.summary, "-13 chars");
    assert!(d.is_significant);
}

#[test]
fn threshold_flips_significance_one_way() {
    let low = calculate_diff("ab".to_string(), "abcdef".to_string(), Some(3), None).unwrap();
    let high = calculate_diff("ab".to_string(), "abcdef".to_string(), Some(100), None).unwrap();
    assert!(low.is_significant);
    assert!(!high.is_significant);
}

#[test]
fn unified_diff_small() {
    let d = calculate_diff("a\nb\nc\n".to_string(), "a\nx\nc\n".to_string(), Some(1), Some(true))
        .unwrap();
    let u = d.unified_diff.unwrap();
    assert_eq!(u, "@@ -1,3 +1,3 @@\n a\n-b\n+x\n c\n");
}

#[test]
fn unified_diff_trims_context() {
    let before = "0\n1\n2\n3\n4\n5\n6\n7\n8\n";
    let after = "0\n1\n2\n3\nx\n5\n6\n7\n8\n";
    let d = calculate_diff(before.to_string(), after.to_string(), Some(1), Some(true)).unwrap();
    let u = d.unified_diff.unwrap();
    assert_eq!(u, "@@ -2,7 +2,7 @@\n 1\n 2\n 3\n-4\n+x\n 5\n 6\n 7\n");
}

#[test]
fn unified_diff_two_hunks() {
    let before = "0\n1\n2\n3\n4\n5\n6\n7\n8\n9\n10\n11\n12\n";
    let after = "0\nx\n2\n3\n4\n5\n6\n7\n8\n9\n10\ny\n12\n";
    let d = calculate_diff(before.to_string(), after.to_string(), Some(1), Some(true)).unwrap();
    let u = d.unified_diff.unwrap();
    assert_eq!(
        u,
        "@@ -1,5 +1,5 @@\n 0\n-1\n+x\n 2\n 3\n 4\n@@ -9,5 +9,5 @@\n 8\n 9\n 10\n-11\n+y\n 12\n"
    );
}

#[test]
fn unified_diff_insert_into_empty() {
    let d = calculate_diff(String::new(), "a\n".to_string(), Some(1), Some(true)).unwrap();
    let u = d.unified_diff.unwrap();
    assert_eq!(u, "@@ -0,0 +1,1 @@\n+a\n");
}

#[test]
fn line_changes_insert_at_end() {
    let v = get_line_changes("a\nb\n".to_string(), "a\nb\nc\n".to_string()).unwrap();
    assert_eq!(v.len(), 1);
    assert_eq!(v[0].line_number, 3);
    assert_eq!(v[0].change_type, "insert");
    assert_eq!(v[0].content, "c");
}

#[test]
fn line_changes_delete() {
    let v = get_line_changes("a\nb\n".to_string(), "a\n".to_string()).unwrap();
    assert_eq!(v.len(), 1);
    assert_eq!(v[0].line_number, 2);
    assert_eq!(v[0].change_type, "delete");
    assert_eq!(v[0].content, "b");
}

#[test]
fn line_changes_replace_orders_delete_first() {
    let v = get_line_changes("a\nb\nc\n".to_string(), "a\nx\nc\n".to_string()).unwrap();
    assert_eq!(v.len(), 2);
    assert_eq!(v[0].change_type, "delete");
    assert_eq!(v[0].content, "b");
    assert_eq!(v[0].line_number, 2);
    assert_eq!(v[1].change_type, "insert");
    assert_eq!(v[1].content, "x");
    assert_eq!(v[1].line_number, 3);
}

#[test]
fn similarity_identical_is_full() {
    let (num, den) = calculate_similarity("abc".to_string(), "abc".to_string()).unwrap();
    assert_eq!(num, 6);
    assert_eq!(den, 6);
}

#[test]
fn similarity_empty_pair() {
    let (num, den) = calculate_similarity(String::new(), String::new()).unwrap();
    assert_eq!(num, 0);
    assert_eq!(den, 0);
}

#[test]
fn similarity_disjoint_is_zero() {
    let (num, den) = calculate_similarity("abc".to_string(), "xyz".to_string()).unwrap();
    assert_eq!(num, 0);
    assert_eq!(den, 6);
}

#[test]
fn batch_matches_single_calls() {
    let pairs = vec![
        ("a\nb\n".to_string(), "a\nx\n".to_string()),
        ("same".to_string(), "same".to_string()),
        ("".to_string(), "new\n".to_string()),
    ];
    let batch = batch_calculate_diffs(pairs.clone(), Some(2));
    assert_eq!(batch.len(), 3);
    for (slot, (before, after)) in batch.iter().zip(pairs.iter()) {
        let single =
            calculate_diff(before.clone(), after.clone(), Some(2), Some(false)).unwrap();
        let got = slot.as_ref().unwrap();
        assert_eq!(got.diff_size, single.diff_size);
        assert_eq!(got.is_significant, single.is_significant);
        assert_eq!(got.summary, single.summary);
        assert_eq!(got.lines_added, single.lines_added);
        assert_eq!(got.lines_removed, single.lines_removed);
        assert_eq!(got.chars_added, single.chars_added);
        assert_eq!(got.chars_deleted, single.chars_deleted);
        assert_eq!(got.after_content, single.after_content);
    }
}

#[test]
fn oversized_change_is_rejected_per_item() {
    // over two thousand lines change, none shared to trim away
    let mut big = String::new();
    for i in 0..2002 {
        big.push_str(&i.to_string());
        big.push('\n');
    }
    let r = calculate_diff(big.clone(), "z\n".to_string(), None, None);
    assert_eq!(r.unwrap_err(), DiffError::ResourceExceeded);
    let batch = batch_calculate_diffs(
        vec![(big.clone(), "z\n".to_string()), ("a".to_string(), "b".to_string())],
        None,
    );
    assert_eq!(batch.len(), 2);
    assert!(batch[0].is_err());
    assert!(batch[1].is_ok());
}

#[test]
fn similarity_oversized_change_is_rejected() {
    let big = "ab".repeat(1501);
    let r = calculate_similarity(big, "z".to_string());
    assert_eq!(r.unwrap_err(), DiffError::ResourceExceeded);
}

#[test]
fn large_document_with_small_change_is_accepted() {
    let before = "line\n".repeat(10_000);
    let d = calculate_diff(before.clone(), before.clone(), None, None).unwrap();
    assert_eq!(d.diff_size, 0);
    assert_eq!(d.lines_added, 0);
    assert_eq!(d.lines_removed, 0);
    let mut after_lines: Vec<String> = vec!["line".to_string(); 10_000];
    after_lines[5_000] = "changed".to_string();
    let after = after_lines.join("\n") + "\n";
    let d = calculate_diff(before.clone(), after, Some(1), None).unwrap();
    assert_eq!(d.lines_added, 1);
    assert_eq!(d.lines_removed, 1);
    let big_text = "abc".repeat(5_000);
    let (num, den) = calculate_similarity(big_text.clone(), big_text.clone()).unwrap();
    assert_eq!(num, den);
}

#[test]
fn crlf_terminators_are_stripped() {
    let d = calculate_diff("a\r\nb\r\n".to_string(), "a\nb\n".to_string(), Some(1), None)
        .unwrap();
    assert_eq!(d.lines_added, 0);
    assert_eq!(d.lines_removed, 0);
    assert_eq!(d.diff_size, 2);
    let v = get_line_changes("x\r\n".to_string(), "x\r\ny\r\n".to_string()).unwrap();
    assert_eq!(v.len(), 1);
    assert_eq!(v[0].line_number, 2);
    assert_eq!(v[0].content, "y");
}

#[test]
fn bare_carriage_return_stays_in_line() {
    let v = get_line_changes("a\r".to_string(), "".to_string()).unwrap();
    assert_eq!(v.len(), 1);
    assert_eq!(v[0].change_type, "delete");
    assert_eq!(v[0].content, "a\r");
}

#[test]
fn no_trailing_newline_still_compares() {
    let d = calculate_diff("a\nb".to_string(), "a\nc".to_string(), Some(1), None).unwrap();
    assert_eq!(d.lines_added, 1);
    assert_eq!(d.lines_removed, 1);
    let v = get_line_changes("a\nb".to_string(), "a\nc".to_string()).unwrap();
    assert_eq!(v[0].content, "b");
    assert_eq!(v[1].content, "c");
}
