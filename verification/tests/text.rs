use minigrep::fold::fold;
use minigrep::text::{chars_of, contains, contains_chars, starts_at};

#[test]
fn contains_finds_parts_only() {
    assert!(contains("productive", "duct"));
    assert!(contains("productive", "productive"));
    assert!(contains("productive", ""));
    assert!(contains("", ""));
    assert!(!contains("productive", "ducts"));
    assert!(!contains("duct", "productive"));
    assert!(!contains("", "a"));
    assert!(contains("aab", "ab"));
    assert!(contains("naïve café", "ïve c"));
    assert!(!contains("naive", "ï"));
}

#[test]
fn chars_of_lists_characters() {
    assert_eq!(vec!['a', 'ß', '→', '𝄞'], chars_of("aß→𝄞"));
    assert!(chars_of("").is_empty());
}

#[test]
fn fold_lowers_case() {
    assert_eq!("rust", fold("rUsT"));
    assert_eq!("", fold(""));
    assert_eq!("ärger 123", fold("ÄRGER 123"));
    assert_eq!("i\u{307}", fold("İ"));
}

#[test]
fn starts_at_compares_in_place() {
    let hay = ['a', 'b', 'a', 'b', 'c'];
    assert!(starts_at(&['a', 'b'], &hay, 0));
    assert!(!starts_at(&['a', 'b'], &hay, 1));
    assert!(starts_at(&['a', 'b'], &hay, 2));
    assert!(starts_at(&['c'], &hay, 4));
    assert!(!starts_at(&['c', 'd'], &hay, 4));
    assert!(!starts_at(&['a'], &hay, 5));
    assert!(!starts_at(&['a'], &hay, usize::MAX));
    assert!(starts_at(&[], &hay, 5));
    assert!(!starts_at(&[], &hay, 6));
    assert!(starts_at(&[], &[], 0));
}

#[test]
fn contains_chars_finds_parts_only() {
    let hay = ['a', 'a', 'b'];
    assert!(contains_chars(&hay, &['a', 'b']));
    assert!(contains_chars(&hay, &['a', 'a', 'b']));
    assert!(contains_chars(&hay, &[]));
    assert!(contains_chars(&[], &[]));
    assert!(!contains_chars(&hay, &['b', 'a']));
    assert!(!contains_chars(&hay, &['a', 'a', 'b', 'a']));
    assert!(!contains_chars(&[], &['a']));
}
