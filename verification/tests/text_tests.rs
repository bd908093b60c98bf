use skely::cli_util::is_yes;
use skely::text::replace_all;
use skely::util::path_buf_filename;
use skely::util::path_buf_to_string;

#[test]
fn is_yes_test() {
    assert!(is_yes("y").unwrap());
    assert!(is_yes("yes").unwrap());
    assert!(is_yes("Y").unwrap());
    assert!(is_yes("yEs").unwrap());

    assert!(!is_yes("n").unwrap());
    assert!(!is_yes("no").unwrap());
    assert!(!is_yes("N").unwrap());
    assert!(!is_yes("nO").unwrap());

    assert!(is_yes("balls").is_err());
    assert!(is_yes("yesno").is_err());
    assert!(is_yes("I <3 Mia").is_err());
}

#[test]
fn is_yes_invalid_input_error() {
    assert_eq!(is_yes("maybe"), Err(skely::error::SkError::InvalidInput));
}

#[test]
fn path_buf_to_string_test() {
    let mut path1: Vec<String> = Vec::new();
    path1.push("the".to_string());
    path1.push("dread".to_string());
    path1.push("pirate".to_string());
    path1.push("roberts".to_string());
    assert_eq!(path_buf_to_string(&path1), "the/dread/pirate/roberts");
}

#[test]
fn path_buf_to_string_empty_and_single() {
    let none: Vec<String> = Vec::new();
    assert_eq!(path_buf_to_string(&none), "");
    let one = vec!["solo".to_string()];
    assert_eq!(path_buf_to_string(&one), "solo");
}

#[test]
fn replace_all_simple() {
    assert_eq!(replace_all("Hello PLACEHOLDER", "PLACEHOLDER", "demo"), "Hello demo");
}

#[test]
fn replace_all_multiple_occurrences() {
    assert_eq!(replace_all("x-x-x", "x", "yz"), "yz-yz-yz");
}

#[test]
fn replace_all_no_occurrence_is_identity() {
    assert_eq!(replace_all("untouched text", "PLACEHOLDER", "demo"), "untouched text");
}

#[test]
fn replace_all_non_overlapping() {
    // matches do not overlap: scanning resumes past each replaced span
    assert_eq!(replace_all("aaa", "aa", "b"), "ba");
    assert_eq!("aaa".replace("aa", "b"), replace_all("aaa", "aa", "b"));
}

#[test]
fn replace_all_empty_token_interleaves() {
    assert_eq!(replace_all("ab", "", "X"), "XaXbX");
    assert_eq!("ab".replace("", "X"), replace_all("ab", "", "X"));
}

#[test]
fn replace_all_can_recreate_token_across_boundary() {
    // a replacement that shares characters with the token can splice a new
    // occurrence out of kept and inserted text
    assert_eq!(replace_all("aab", "ab", "b"), "ab");
    assert_eq!("aab".replace("ab", "b"), replace_all("aab", "ab", "b"));
}

#[test]
fn replace_all_removes_token_when_alphabets_disjoint() {
    let out = replace_all("one two one two one", "one", "33");
    assert_eq!(out, "33 two 33 two 33");
    assert!(!out.contains("one"));
}

#[test]
fn replace_all_matches_std_replace() {
    let cases = [
        ("", "a", "b"),
        ("abc", "abc", ""),
        ("aaaa", "aa", "a"),
        ("the dread pirate", "r", "RR"),
        ("PLACEHOLDER.PLACEHOLDER", "PLACEHOLDER", "p"),
    ];
    for (s, from, to) in cases {
        assert_eq!(replace_all(s, from, to), s.replace(from, to));
    }
}

#[test]
fn path_buf_filename_basic() {
    assert_eq!(path_buf_filename("foo/bar.txt").unwrap(), "bar.txt");
    assert_eq!(path_buf_filename("bar.txt").unwrap(), "bar.txt");
    assert_eq!(path_buf_filename("/abs/path/name").unwrap(), "name");
}

#[test]
fn path_buf_filename_trailing_slashes() {
    assert_eq!(path_buf_filename("foo/").unwrap(), "foo");
    assert_eq!(path_buf_filename("a/b///").unwrap(), "b");
}

#[test]
fn executable_mode_bits() {
    assert!(skely::util::is_executable_mode(0o755));
    assert!(skely::util::is_executable_mode(0o100));
    assert!(skely::util::is_executable_mode(0o010));
    assert!(skely::util::is_executable_mode(0o001));
    assert!(!skely::util::is_executable_mode(0o644));
    assert!(!skely::util::is_executable_mode(0));
}

#[test]
fn path_buf_filename_none() {
    assert!(path_buf_filename("/").is_err());
    assert!(path_buf_filename("").is_err());
    assert!(path_buf_filename("a/..").is_err());
    assert!(path_buf_filename(".").is_err());
}
