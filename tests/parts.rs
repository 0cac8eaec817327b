use reqwest_rewire::rules::{key_admits_request, rewrite, select_rule};
use reqwest_rewire::url::UrlParts;

fn parts(host: Option<&str>, path: &str, query: Option<&str>, serialization: &str) -> UrlParts {
    UrlParts {
        host: host.map(String::from),
        path: path.to_string(),
        query: query.map(String::from),
        serialization: serialization.to_string(),
    }
}

#[test]
fn rewrite_splices_suffix_and_query() {
    let phys = parts(Some("h"), "/b", None, "http://h/b");
    let req = parts(Some("h"), "/a/x", Some("q=1"), "http://h/a/x?q=1");
    assert_eq!(rewrite(&phys, &req), "http://h/b/x?q=1");
}

#[test]
fn rewrite_without_suffix_or_query() {
    let phys = parts(Some("m"), "/p/q", None, "http://m/p/q");
    let req = parts(Some("h"), "/a", Some(""), "http://h/a?");
    assert_eq!(rewrite(&phys, &req), "http://m/p/q");
}

#[test]
fn key_admission_needs_host_and_segment_prefix() {
    let req = parts(Some("h"), "/a/b", None, "http://h/a/b");
    assert!(key_admits_request(&parts(Some("h"), "/a", None, "http://h/a"), &req));
    assert!(!key_admits_request(&parts(Some("g"), "/a", None, "http://g/a"), &req));
    assert!(!key_admits_request(&parts(None, "/a", None, "x:/a"), &req));
    assert!(!key_admits_request(&parts(Some("h"), "/a/bc", None, "http://h/a/bc"), &req));
    let hostless = parts(None, "/a/b", None, "x:/a/b");
    assert!(!key_admits_request(&parts(None, "/a", None, "x:/a"), &hostless));
}

#[test]
fn select_prefers_longest_applicable_key() {
    let keys = vec!["http://h/a".to_string(), "http://h/a/b".to_string(), "bad".to_string()];
    let parsed = vec![
        Some(parts(Some("h"), "/a", None, "http://h/a")),
        Some(parts(Some("h"), "/a/b", None, "http://h/a/b")),
        None,
    ];
    let req = parts(Some("h"), "/a/b/c", None, "http://h/a/b/c");
    assert_eq!(select_rule(&keys, &parsed, &req), Some(1));
    let req = parts(Some("h"), "/a/x", None, "http://h/a/x");
    assert_eq!(select_rule(&keys, &parsed, &req), Some(0));
    let req = parts(Some("h"), "/z", None, "http://h/z");
    assert_eq!(select_rule(&keys, &parsed, &req), None);
}

#[test]
fn select_breaks_ties_by_key_order() {
    let keys = vec!["https://h/a".to_string(), "http://h/a".to_string()];
    let parsed = vec![
        Some(parts(Some("h"), "/a", None, "https://h/a")),
        Some(parts(Some("h"), "/a", None, "http://h/a")),
    ];
    let req = parts(Some("h"), "/a", None, "http://h/a");
    assert_eq!(select_rule(&keys, &parsed, &req), Some(1));
}
