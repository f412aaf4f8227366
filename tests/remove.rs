use std::borrow::Cow;

use lazy_regex::{bytes_remove_all_matches, bytes_remove_match, remove_all_matches, remove_match};
use regex::bytes::Regex as BytesRegex;
use regex::Regex;

#[test]
fn test_regex_remove() {
    let input = "154681string63731";

    // no match: borrowed and unchanged
    let output = remove_match(&Regex::new("[A-Z]+").unwrap(), input);
    assert!(matches!(output, Cow::Borrowed("154681string63731")));

    // removing in the middle (a new string is created)
    let output = remove_match(&Regex::new("[a-z]+").unwrap(), input);
    assert_eq!(output, "15468163731");

    // removing at ends, no new string is created
    let output = remove_match(&Regex::new(r"^\d+").unwrap(), input);
    let output = remove_match(&Regex::new(r"\d+$").unwrap(), &output);
    assert_eq!(output, "string");
    assert!(matches!(output, Cow::Borrowed("string")));
}

#[test]
fn test_bytes_regex_remove() {
    let input = b"154681string63731";

    // removing at ends, no new Vec is created
    let output = bytes_remove_match(&BytesRegex::new("^\\d+").unwrap(), input);
    let output = bytes_remove_match(&BytesRegex::new("\\d+$").unwrap(), &output);
    assert_eq!(&output[..], b"string");
    assert!(matches!(output, Cow::Borrowed(b"string")));
}

#[test]
fn test_regex_remove_all() {
    let input = "154681string63731";

    // no match: borrowed and unchanged
    let output = remove_all_matches(&Regex::new("[A-Z]+").unwrap(), input);
    assert!(matches!(output, Cow::Borrowed("154681string63731")));

    // removing in the middle (a new string is created)
    let output = remove_all_matches(&Regex::new("[a-z]+").unwrap(), input);
    assert_eq!(output, "15468163731");

    // removing one hole in the middle, in several matches (a new string is created)
    let output = remove_all_matches(&Regex::new("[a-z]{2}").unwrap(), input);
    assert_eq!(output, "15468163731");

    // removing on ends (one match each side), no new string is created
    let output = remove_all_matches(&Regex::new(r"\d+").unwrap(), input);
    assert_eq!(output, "string");
    assert!(matches!(output, Cow::Borrowed("string")));

    // removing on start, no new string is created
    let output = remove_all_matches(&Regex::new(r"^\d+").unwrap(), input);
    assert_eq!(output, "string63731");
    assert!(matches!(output, Cow::Borrowed("string63731")));

    // removing on end, no new string is created
    let output = remove_all_matches(&Regex::new(r"\d+$").unwrap(), input);
    assert_eq!(output, "154681string");
    assert!(matches!(output, Cow::Borrowed("154681string")));

    // removing on ends (several matches each side), no new string is created
    let output = remove_all_matches(&Regex::new(r"\d").unwrap(), input);
    assert_eq!(output, "string");
    assert!(matches!(output, Cow::Borrowed("string")));

    // a few hard cases with various holes
    assert_eq!(remove_all_matches(&Regex::new(r"\d").unwrap(), "a1b2c3d4e5"), "abcde");
    assert_eq!(remove_all_matches(&Regex::new(r"[a-z]").unwrap(), "a1b2c3d4e5"), "12345");
    assert_eq!(remove_all_matches(&Regex::new(r"\d").unwrap(), "a11b22c33d44e55"), "abcde");
}

#[test]
fn test_bytes_regex_remove_all() {
    let input = b"154681string63731";

    // removing on ends (several matches each side), no new vec is created
    let output = bytes_remove_all_matches(&BytesRegex::new(r"\d").unwrap(), input);
    assert_eq!(&output[..], b"string");
    assert!(matches!(output, Cow::Borrowed(b"string")));
}
