use reqwest_rewire::RuleSet;

fn rules(pairs: &[(&str, &str)]) -> RuleSet {
    RuleSet::new(pairs.iter().map(|(k, v)| (k.to_string(), v.to_string())).collect())
}

#[test]
fn exact_match_keeps_query() {
    let r = rules(&[("http://h/a", "http://h/b")]);
    assert_eq!(r.resolve("http://h/a?x=1"), "http://h/b?x=1");
}

#[test]
fn prefix_match_appends_suffix() {
    let r = rules(&[("http://h/request", "http://h/rewired")]);
    assert_eq!(r.resolve("http://h/request/nested_path"), "http://h/rewired/nested_path");
}

#[test]
fn prefix_match_keeps_query() {
    let r = rules(&[("http://h/request", "http://h/rewired")]);
    assert_eq!(r.resolve("http://h/request?foo=bar"), "http://h/rewired?foo=bar");
}

#[test]
fn prefix_match_with_suffix_and_query() {
    let r = rules(&[("http://h/request", "http://h/rewired")]);
    assert_eq!(
        r.resolve("http://h/request/nested_path?foo=bar"),
        "http://h/rewired/nested_path?foo=bar"
    );
}

#[test]
fn longer_key_wins() {
    let r = rules(&[
        ("http://h/request", "http://h/A"),
        ("http://h/request/sub", "http://h/B/C"),
    ]);
    assert_eq!(r.resolve("http://h/request/sub/x"), "http://h/B/C/x");
    assert_eq!(r.resolve("http://h/request/sub"), "http://h/B/C");
    assert_eq!(r.resolve("http://h/request/other"), "http://h/A/other");
}

#[test]
fn longer_key_wins_in_any_insertion_order() {
    let r = rules(&[
        ("http://h/request/sub", "http://h/B/C"),
        ("http://h/request", "http://h/A"),
    ]);
    assert_eq!(r.resolve("http://h/request/sub/x"), "http://h/B/C/x");
}

#[test]
fn equal_key_paths_pick_first_key_in_order() {
    let r = rules(&[("https://h/api", "http://m/two"), ("http://h/api", "http://m/one")]);
    assert_eq!(r.resolve("http://h/api/x"), "http://m/one/x");
}

#[test]
fn star_key_is_a_literal_segment() {
    let r = rules(&[
        ("http://127.0.0.1:5000/request", "http://127.0.0.1:5000/rewire_request"),
        ("http://127.0.0.1:5000/request/*", "http://127.0.0.1:5000/rewire_request/*"),
    ]);
    assert_eq!(
        r.resolve("http://127.0.0.1:5000/request?stop=stop_area:GST:SA:HLCRT&line=T1"),
        "http://127.0.0.1:5000/rewire_request?stop=stop_area:GST:SA:HLCRT&line=T1"
    );
    assert_eq!(
        r.resolve("http://127.0.0.1:5000/request/nested_path"),
        "http://127.0.0.1:5000/rewire_request/nested_path"
    );
}

#[test]
fn prefix_must_end_at_a_segment_boundary() {
    let r = rules(&[("http://h/request", "http://h/rewired")]);
    assert_eq!(r.resolve("http://h/requestful"), "http://h/requestful");
}

#[test]
fn other_host_is_not_rewired() {
    let r = rules(&[("http://h/request", "http://h/rewired")]);
    assert_eq!(r.resolve("http://other/request"), "http://other/request");
}

#[test]
fn no_rules_keep_url_exactly() {
    let r = rules(&[]);
    assert_eq!(r.resolve("HTTP://H/a/../b?q"), "HTTP://H/a/../b?q");
}

#[test]
fn unparsable_request_is_kept() {
    let r = rules(&[("http://h/request", "http://h/rewired")]);
    assert_eq!(r.resolve("not a url"), "not a url");
    assert_eq!(r.resolve(""), "");
}

#[test]
fn unparsable_key_is_ignored() {
    let r = rules(&[("http://[bad/request", "http://h/x"), ("http://h/request", "http://h/rewired")]);
    assert_eq!(r.resolve("http://h/request/a"), "http://h/rewired/a");
}

#[test]
fn unparsable_target_keeps_url() {
    let r = rules(&[("http://h/request", "::not a url")]);
    assert_eq!(r.resolve("http://h/request/a?q=1"), "http://h/request/a?q=1");
}

#[test]
fn later_duplicate_key_stands() {
    let r = rules(&[("http://h/a", "http://h/first"), ("http://h/a", "http://h/second")]);
    assert_eq!(r.resolve("http://h/a"), "http://h/second");
}

#[test]
fn empty_query_is_dropped_and_fragment_too() {
    let r = rules(&[("http://h/request", "http://h/rewired")]);
    assert_eq!(r.resolve("http://h/request?"), "http://h/rewired");
    assert_eq!(r.resolve("http://h/request#frag"), "http://h/rewired");
}

#[test]
fn target_is_written_in_normal_form() {
    let r = rules(&[("http://h/request", "HTTP://H/rewired")]);
    assert_eq!(r.resolve("http://h/request"), "http://h/rewired");
    let r = rules(&[("http://h/request", "http://m")]);
    assert_eq!(r.resolve("http://h/request"), "http://m/");
}

#[test]
fn skipped_segments_follow_target_path() {
    let r = rules(&[("http://h/", "http://m/api")]);
    assert_eq!(r.resolve("http://h/x/y"), "http://m/api/y");
    let r = rules(&[("http://h/a", "http://m/p/q/r")]);
    assert_eq!(r.resolve("http://h/a/b/c/d"), "http://m/p/q/r/d");
    assert_eq!(r.resolve("http://h/a/b"), "http://m/p/q/r");
}

#[test]
fn key_with_trailing_slash_matches_below_it() {
    let r = rules(&[("http://h/api/", "http://m/v2/")]);
    assert_eq!(r.resolve("http://h/api/users"), "http://m/v2/");
    assert_eq!(r.resolve("http://h/api/users/7"), "http://m/v2//7");
    assert_eq!(r.resolve("http://h/api"), "http://h/api");
}

#[test]
fn port_is_not_compared() {
    let r = rules(&[("http://h:1/a", "http://m/b")]);
    assert_eq!(r.resolve("http://h:2/a?z"), "http://m/b?z");
}

#[test]
fn resolving_twice_gives_the_same_url() {
    let r = rules(&[("http://h/request", "http://h/rewired")]);
    let once = r.resolve("http://h/request/x?y=1");
    assert_eq!(once, r.resolve("http://h/request/x?y=1"));
}
