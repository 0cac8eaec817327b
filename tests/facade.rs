use reqwest_rewire::{AnyClient, RewireClient, TestableClient};

fn rewiring() -> RewireClient {
    RewireClient::new(vec![(
        "http://localhost:8080/request".to_string(),
        "http://localhost:8080/rewired".to_string(),
    )])
}

fn sent_to(builder: reqwest::RequestBuilder) -> String {
    builder.build().unwrap().url().as_str().to_string()
}

fn all_verbs<C: TestableClient>(client: &C, url: &str) -> Vec<String> {
    vec![
        sent_to(client.get(url)),
        sent_to(client.post(url)),
        sent_to(client.put(url)),
        sent_to(client.patch(url)),
        sent_to(client.delete(url)),
        sent_to(client.head(url)),
        sent_to(client.request(http::Method::GET, url)),
        sent_to(client.request(http::Method::POST, url)),
        sent_to(client.request(http::Method::OPTIONS, url)),
    ]
}

#[test]
fn get_url_rewires() {
    let client = rewiring();
    assert_eq!(
        client.get_url("http://localhost:8080/request/nested_path?foo=bar"),
        "http://localhost:8080/rewired/nested_path?foo=bar"
    );
    assert_eq!(client.get_url("http://localhost:8080/other"), "http://localhost:8080/other");
}

#[test]
fn every_verb_is_rewired_alike() {
    let client = rewiring();
    for url in all_verbs(&client, "http://localhost:8080/request/nested_path?foo=bar") {
        assert_eq!(url, "http://localhost:8080/rewired/nested_path?foo=bar");
    }
}

#[test]
fn every_verb_passes_unmatched_urls_through() {
    let client = rewiring();
    for url in all_verbs(&client, "http://localhost:8080/elsewhere?x=1") {
        assert_eq!(url, "http://localhost:8080/elsewhere?x=1");
    }
}

#[test]
fn plain_client_passes_every_url_through() {
    let client = reqwest::Client::new();
    assert_eq!(client.effective_url("http://localhost:8080/request"), "http://localhost:8080/request");
    assert_eq!(client.effective_url("not a url"), "not a url");
    for url in all_verbs(&client, "http://localhost:8080/request/nested_path?foo=bar") {
        assert_eq!(url, "http://localhost:8080/request/nested_path?foo=bar");
    }
}

#[test]
fn shared_client_keeps_rules() {
    let client = RewireClient::from_reqwest_client(
        reqwest::Client::new(),
        vec![("http://h/a".to_string(), "http://h/b".to_string())],
    );
    assert_eq!(client.effective_url("http://h/a/c"), "http://h/b/c");
    assert_eq!(sent_to(client.get("http://h/a")), "http://h/b");
}

#[test]
fn either_variant_through_one_type() {
    let plain = AnyClient::ReqwestClient(reqwest::Client::new());
    let rewired = AnyClient::TestClient(rewiring());
    let url = "http://localhost:8080/request?foo=bar";
    assert_eq!(plain.effective_url(url), url);
    assert_eq!(rewired.effective_url(url), "http://localhost:8080/rewired?foo=bar");
    for sent in all_verbs(&plain, url) {
        assert_eq!(sent, url);
    }
    for sent in all_verbs(&rewired, url) {
        assert_eq!(sent, "http://localhost:8080/rewired?foo=bar");
    }
}
