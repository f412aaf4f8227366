use std::borrow::Cow;

use lazy_regex::{
    bytes_remove_all_matches, bytes_remove_match, bytes_remove_span, bytes_remove_spans,
    remove_all_matches, remove_match, remove_span, remove_spans,
};
use regex::bytes::Regex as BytesRegex;
use regex::Regex;

#[test]
fn no_span_borrows_the_text() {
    let text = "154681string63731";
    let r = remove_spans(text, &[]);
    assert!(matches!(r, Cow::Borrowed("154681string63731")));
    let r = bytes_remove_spans(b"abc", &[]);
    assert!(matches!(r, Cow::Borrowed(b"abc")));
    let r = remove_spans("", &[]);
    assert!(matches!(r, Cow::Borrowed("")));
}

#[test]
fn prefix_run_borrows() {
    let r = remove_spans("154681string63731", &[(0, 3), (3, 6)]);
    assert!(matches!(r, Cow::Borrowed("string63731")));
}

#[test]
fn suffix_run_borrows() {
    let r = remove_spans("154681string63731", &[(12, 14), (14, 17)]);
    assert!(matches!(r, Cow::Borrowed("154681string")));
}

#[test]
fn prefix_and_suffix_runs_borrow() {
    let r = remove_spans("154681string63731", &[(0, 6), (12, 17)]);
    assert!(matches!(r, Cow::Borrowed("string")));
    let r = bytes_remove_spans(b"154681string63731", &[(0, 2), (2, 6), (12, 15), (15, 17)]);
    assert!(matches!(r, Cow::Borrowed(b"string")));
}

#[test]
fn whole_text_as_one_span_borrows_empty() {
    let r = remove_spans("abc", &[(0, 3)]);
    assert!(matches!(r, Cow::Borrowed("")));
    let r = bytes_remove_spans(b"abc", &[(0, 1), (1, 3)]);
    assert!(matches!(r, Cow::Borrowed(b"")));
}

#[test]
fn interior_span_copies() {
    let r = remove_spans("154681string63731", &[(6, 12)]);
    assert_eq!(r, "15468163731");
    assert!(matches!(r, Cow::Owned(_)));
}

#[test]
fn abutting_interior_spans_make_one_hole() {
    let r = remove_spans("a11b22c", &[(1, 2), (2, 3), (4, 5), (5, 6)]);
    assert_eq!(r, "abc");
    assert!(matches!(r, Cow::Owned(_)));
}

#[test]
fn spaced_spans_copy_every_piece() {
    let r = bytes_remove_spans(b"a1b2c3d4e5", &[(1, 2), (3, 4), (5, 6), (7, 8), (9, 10)]);
    assert_eq!(&r[..], b"abcde");
    assert!(matches!(r, Cow::Owned(_)));
}

#[test]
fn prefix_run_then_interior_hole_copies() {
    let r = remove_spans("xxabyycd", &[(0, 2), (4, 6)]);
    assert_eq!(r, "abcd");
    assert!(matches!(r, Cow::Owned(_)));
}

#[test]
fn empty_spans_remove_nothing() {
    // empty spans strictly inside the text leave two pieces to join
    let r = remove_spans("ab", &[(0, 0), (1, 1), (2, 2)]);
    assert_eq!(r, "ab");
    let r = remove_spans("ab", &[(0, 0), (2, 2)]);
    assert!(matches!(r, Cow::Borrowed("ab")));
}

#[test]
fn multibyte_text_is_cut_on_byte_offsets() {
    // "é" is two bytes long
    let r = remove_spans("aébéc", &[(1, 3), (4, 6)]);
    assert_eq!(r, "abc");
    let r = remove_spans("éaé", &[(0, 2), (3, 5)]);
    assert!(matches!(r, Cow::Borrowed("a")));
}

#[test]
fn length_is_text_less_covered() {
    let text = "a11b22c33d44e55";
    let spans = [(1, 2), (2, 3), (4, 5), (5, 6), (7, 8), (8, 9), (10, 11), (11, 12), (13, 14), (14, 15)];
    let covered: usize = spans.iter().map(|s| s.1 - s.0).sum();
    let r = remove_spans(text, &spans);
    assert_eq!(r.len(), text.len() - covered);
    assert_eq!(r, "abcde");
}

#[test]
fn removing_again_with_nothing_to_match_is_identity() {
    let first = remove_all_matches(&Regex::new(r"\d").unwrap(), "a1b2c3");
    assert_eq!(first, "abc");
    let again = remove_all_matches(&Regex::new(r"\d").unwrap(), &first);
    assert!(matches!(again, Cow::Borrowed("abc")));
}

#[test]
fn first_span_agrees_with_all_spans() {
    let text = "154681string63731";
    for m in [(0usize, 6usize), (6, 12), (12, 17), (0, 17), (3, 3)] {
        let one = remove_span(text, Some(m));
        let all = remove_spans(text, &[m]);
        assert_eq!(one, all);
        assert_eq!(matches!(one, Cow::Borrowed(_)), matches!(all, Cow::Borrowed(_)));
    }
    let one = bytes_remove_span(b"xyz", None);
    let all = bytes_remove_spans(b"xyz", &[]);
    assert_eq!(one, all);
    assert!(matches!(one, Cow::Borrowed(b"xyz")));
}

#[test]
fn remove_span_cases() {
    let text = "154681string63731";
    assert!(matches!(remove_span(text, None), Cow::Borrowed("154681string63731")));
    assert!(matches!(remove_span(text, Some((0, 6))), Cow::Borrowed("string63731")));
    assert!(matches!(remove_span(text, Some((12, 17))), Cow::Borrowed("154681string")));
    let r = remove_span(text, Some((6, 12)));
    assert_eq!(r, "15468163731");
    assert!(matches!(r, Cow::Owned(_)));
    let r = bytes_remove_span(b"154681string63731", Some((6, 12)));
    assert_eq!(&r[..], b"15468163731");
    assert!(matches!(r, Cow::Owned(_)));
}

#[test]
fn interior_match_is_removed_by_first_match() {
    let r = bytes_remove_match(&BytesRegex::new("[a-z]+").unwrap(), b"154681string63731");
    assert_eq!(&r[..], b"15468163731");
    assert!(matches!(r, Cow::Owned(_)));
    // only the first of several matches goes
    let r = remove_match(&Regex::new(r"\d").unwrap(), "a1b2");
    assert_eq!(r, "ab2");
}

#[test]
fn lowercase_run_in_the_middle_is_copied_out() {
    let r = remove_all_matches(&Regex::new("[a-z]+").unwrap(), "154681string63731");
    assert_eq!(r, "15468163731");
    assert!(matches!(r, Cow::Owned(_)));
}

#[test]
fn digit_pairs_merge_into_holes() {
    let r = remove_all_matches(&Regex::new(r"\d").unwrap(), "a11b22c33d44e55");
    assert_eq!(r, "abcde");
    assert!(matches!(r, Cow::Owned(_)));
    let r = bytes_remove_all_matches(&BytesRegex::new(r"\d").unwrap(), b"a1b2c3d4e5");
    assert_eq!(&r[..], b"abcde");
    assert!(matches!(r, Cow::Owned(_)));
}

#[test]
fn successive_end_removals_borrow() {
    let text = "string63731";
    let r = remove_all_matches(&Regex::new(r"^\d+").unwrap(), text);
    assert!(matches!(r, Cow::Borrowed("string63731")));
    let r = remove_all_matches(&Regex::new(r"\d+$").unwrap(), &r);
    assert!(matches!(r, Cow::Borrowed("string")));
}

#[test]
fn empty_matches_of_the_regex_keep_the_content() {
    let r = remove_all_matches(&Regex::new(r"x*").unwrap(), "ab");
    assert_eq!(r, "ab");
    let r = remove_all_matches(&Regex::new(r"").unwrap(), "");
    assert!(matches!(r, Cow::Borrowed("")));
}
