use diffcore::analyze::{calculate_file_stats, deduplicate_strings, detect_language,
    estimate_tokens};
use diffcore::patterns::{extract_functions, search_patterns};

#[test]
fn stats_counts_lines_words_and_kinds() {
    let s = calculate_file_stats("// hi\n\ncode x\n  # note\n".to_string());
    assert_eq!(s.lines, 4);
    assert_eq!(s.chars, 23);
    assert_eq!(s.words, 6);
    assert_eq!(s.blank_lines, 1);
    assert_eq!(s.comment_lines, 2);
}

#[test]
fn stats_honour_unicode_whitespace() {
    // vertical tab separates words and makes a line blank
    let s = calculate_file_stats("a\u{b}b".to_string());
    assert_eq!(s.words, 2);
    let s = calculate_file_stats("\u{b}".to_string());
    assert_eq!(s.lines, 1);
    assert_eq!(s.blank_lines, 1);
    // no-break space separates words and counts as leading space
    let s = calculate_file_stats("a\u{a0}b\n\u{a0}//x\n".to_string());
    assert_eq!(s.words, 3);
    assert_eq!(s.comment_lines, 1);
}

#[test]
fn estimate_tokens_unicode_whitespace() {
    // two words, four bytes: (26 * 2 + 5 * 4 + 39) / 40 = 2
    assert_eq!(estimate_tokens("a\u{a0}b".to_string()), 2);
}

#[test]
fn stats_empty_document() {
    let s = calculate_file_stats(String::new());
    assert_eq!(s.lines, 0);
    assert_eq!(s.chars, 0);
    assert_eq!(s.words, 0);
    assert_eq!(s.blank_lines, 0);
    assert_eq!(s.comment_lines, 0);
}

#[test]
fn language_from_extension_wins() {
    let l = detect_language("def f():\n".to_string(), Some("x.rs".to_string()));
    assert_eq!(l, "rust");
    let l = detect_language(String::new(), Some("a/b/app.tsx".to_string()));
    assert_eq!(l, "typescript");
    let l = detect_language(String::new(), Some("m.go".to_string()));
    assert_eq!(l, "go");
}

#[test]
fn language_from_content_fallback() {
    let l = detect_language("fn main() {}".to_string(), Some("notes.txt".to_string()));
    assert_eq!(l, "rust");
    let l = detect_language("import os\ndef f():\n".to_string(), None);
    assert_eq!(l, "python");
    let l = detect_language("const x = 1".to_string(), None);
    assert_eq!(l, "javascript");
    let l = detect_language("package main".to_string(), None);
    assert_eq!(l, "go");
    let l = detect_language("plain words".to_string(), None);
    assert_eq!(l, "unknown");
}

#[test]
fn dedup_keeps_first_occurrences() {
    let r = deduplicate_strings(vec![
        "b".to_string(),
        "a".to_string(),
        "b".to_string(),
        "c".to_string(),
        "a".to_string(),
    ]);
    assert_eq!(r, vec!["b".to_string(), "a".to_string(), "c".to_string()]);
}

#[test]
fn estimate_tokens_formula() {
    // words 2, bytes 11: (26 * 2 + 5 * 11 + 39) / 40 = 146 / 40 = 3
    assert_eq!(estimate_tokens("hello world".to_string()), 3);
    assert_eq!(estimate_tokens(String::new()), 0);
    // words 1, bytes 4: (26 + 20 + 39) / 40 = 2
    assert_eq!(estimate_tokens("abcd".to_string()), 2);
}

#[test]
fn search_patterns_skips_bad_and_counts() {
    let r = search_patterns(
        "aaa".to_string(),
        vec!["a".to_string(), "[".to_string(), "aa".to_string()],
    );
    assert_eq!(r.len(), 2);
    assert_eq!(r[0].0, "a");
    assert_eq!(r[0].1, 3);
    assert_eq!(r[1].0, "aa");
    assert_eq!(r[1].1, 1);
}

#[test]
fn extract_functions_rust_and_python() {
    let names = extract_functions(
        "fn foo() {}\npub fn bar() {}\n".to_string(),
        "rust".to_string(),
    );
    assert_eq!(names, vec!["foo".to_string(), "bar".to_string()]);
    let names = extract_functions(
        "def alpha():\n    pass\ndef beta(x):\n    pass\n".to_string(),
        "python".to_string(),
    );
    assert_eq!(names, vec!["alpha".to_string(), "beta".to_string()]);
    let names = extract_functions(
        "const go = () => {}\nfunction run() {}\n".to_string(),
        "javascript".to_string(),
    );
    assert_eq!(names, vec!["go".to_string(), "run".to_string()]);
}

#[test]
fn extract_functions_unsupported_is_empty() {
    let names = extract_functions("fn foo() {}".to_string(), "cobol".to_string());
    assert!(names.is_empty());
}
