use reqwest_rewire::text::{lex_less_than, segment_prefix_of};
use reqwest_rewire::url::{path_after_segments, segment_count_of};

#[test]
fn segment_prefix_cases() {
    assert!(segment_prefix_of("/request", "/request"));
    assert!(segment_prefix_of("/request", "/request/nested"));
    assert!(!segment_prefix_of("/request", "/requestful"));
    assert!(segment_prefix_of("/", "/anything"));
    assert!(segment_prefix_of("/a/", "/a/b"));
    assert!(!segment_prefix_of("/a/b", "/a"));
    assert!(segment_prefix_of("", ""));
}

#[test]
fn lex_order_cases() {
    assert!(lex_less_than("a", "b"));
    assert!(lex_less_than("ab", "abc"));
    assert!(!lex_less_than("abc", "ab"));
    assert!(!lex_less_than("a", "a"));
    assert!(lex_less_than("", "a"));
    assert!(!lex_less_than("", ""));
    assert!(lex_less_than("http://h", "https://h"));
}

#[test]
fn segment_counts() {
    assert_eq!(segment_count_of("/a/b"), 2);
    assert_eq!(segment_count_of("/"), 1);
    assert_eq!(segment_count_of("/a/"), 2);
    assert_eq!(segment_count_of(""), 0);
    assert_eq!(segment_count_of("mailto-path"), 0);
}

#[test]
fn path_after_segment_cases() {
    assert_eq!(path_after_segments("/a/b/c", 0), "a/b/c");
    assert_eq!(path_after_segments("/a/b/c", 1), "b/c");
    assert_eq!(path_after_segments("/a/b/c", 2), "c");
    assert_eq!(path_after_segments("/a/b/c", 3), "");
    assert_eq!(path_after_segments("/a/b/c", 9), "");
    assert_eq!(path_after_segments("/a//c", 1), "/c");
    assert_eq!(path_after_segments("no-slash", 0), "");
}
