//! A client that rewires request URLs before building requests.

use vstd::prelude::*;

use crate::rules::{entries_view, resolved_url, rule_map, RuleSet};
use crate::testable_client::TestableClient;
use crate::transport::{build_delete, build_get, build_head, build_patch, build_post, build_put,
    build_request, default_client};

verus! {

/// Sends each request to the URL that its rules rewire it to.
pub struct RewireClient {
    redirects: RuleSet,
    client: reqwest::Client,
}

impl RewireClient {
    /// The rules, from logical URL prefixes to physical ones.
    pub closed spec fn rules(&self) -> Map<Seq<char>, Seq<char>> {
        self.redirects@
    }

    /// The client that builds the requests.
    pub closed spec fn http_client(&self) -> reqwest::Client {
        self.client
    }

    /// A rewiring client over a default HTTP client; where a logical prefix
    /// comes twice, the later physical prefix stands.
    pub fn new(redirects: Vec<(String, String)>) -> (r: Self)
        ensures
            r.rules() == rule_map(entries_view(redirects@)),
    {
        RewireClient { client: default_client(), redirects: RuleSet::new(redirects) }
    }

    /// A rewiring client over `client`, sharing its configuration.
    pub fn from_reqwest_client(client: reqwest::Client, redirects: Vec<(String, String)>) -> (r: Self)
        ensures
            r.rules() == rule_map(entries_view(redirects@)),
            r.http_client() == client,
    {
        RewireClient { client, redirects: RuleSet::new(redirects) }
    }

    /// The rules are finitely many.
    pub proof fn lemma_rules_finite(&self)
        ensures
            self.rules().dom().finite(),
    {
        self.redirects.lemma_finite();
    }

    /// The URL that a request for `url` is sent to: the request rewritten
    /// onto the physical prefix of the applicable rule with the longest key
    /// path (on a tie, the key first in lexicographic order), keeping the
    /// rest of the path and the query; `url` itself where it does not parse,
    /// no rule applies, or the rule's target does not parse.
    pub fn get_url(&self, url: &str) -> (r: String)
        ensures
            r@ == resolved_url(self.rules(), url@),
    {
        self.redirects.resolve(url)
    }
}

impl TestableClient for RewireClient {
    open spec fn builder_client(&self) -> reqwest::Client {
        self.http_client()
    }

    open spec fn target_of(&self, url: Seq<char>) -> Seq<char> {
        resolved_url(self.rules(), url)
    }

    fn effective_url(&self, url: &str) -> (r: String) {
        self.get_url(url)
    }

    fn get(&self, url: &str) -> (r: reqwest::RequestBuilder) {
        build_get(&self.client, self.get_url(url).as_str())
    }

    fn post(&self, url: &str) -> (r: reqwest::RequestBuilder) {
        build_post(&self.client, self.get_url(url).as_str())
    }

    fn put(&self, url: &str) -> (r: reqwest::RequestBuilder) {
        build_put(&self.client, self.get_url(url).as_str())
    }

    fn patch(&self, url: &str) -> (r: reqwest::RequestBuilder) {
        build_patch(&self.client, self.get_url(url).as_str())
    }

    fn delete(&self, url: &str) -> (r: reqwest::RequestBuilder) {
        build_delete(&self.client, self.get_url(url).as_str())
    }

    fn head(&self, url: &str) -> (r: reqwest::RequestBuilder) {
        build_head(&self.client, self.get_url(url).as_str())
    }

    fn request(&self, method: http::Method, url: &str) -> (r: reqwest::RequestBuilder) {
        build_request(&self.client, method, self.get_url(url).as_str())
    }
}

} // verus!
