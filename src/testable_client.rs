//! The verb-shaped operations shared by rewiring and plain clients.

use vstd::prelude::*;

use crate::transport::{build_delete, build_get, build_head, build_patch, build_post, build_put,
    build_request, delete_request, get_request, head_request, method_request, patch_request,
    post_request, put_request};

verus! {

/// Builds requests by HTTP verb, after mapping the URL to the one that is
/// actually dispatched.
pub trait TestableClient {
    /// The client that builds the requests.
    spec fn builder_client(&self) -> reqwest::Client;

    /// The URL that a request for `url` is dispatched to.
    spec fn target_of(&self, url: Seq<char>) -> Seq<char>;

    /// The URL that a request for `url` is dispatched to.
    fn effective_url(&self, url: &str) -> (r: String)
        ensures
            r@ == self.target_of(url@),
    ;

    /// A GET request builder for the URL that `url` is dispatched to.
    fn get(&self, url: &str) -> (r: reqwest::RequestBuilder)
        ensures
            r == get_request(self.builder_client(), self.target_of(url@)),
    ;

    /// A POST request builder for the URL that `url` is dispatched to.
    fn post(&self, url: &str) -> (r: reqwest::RequestBuilder)
        ensures
            r == post_request(self.builder_client(), self.target_of(url@)),
    ;

    /// A PUT request builder for the URL that `url` is dispatched to.
    fn put(&self, url: &str) -> (r: reqwest::RequestBuilder)
        ensures
            r == put_request(self.builder_client(), self.target_of(url@)),
    ;

    /// A PATCH request builder for the URL that `url` is dispatched to.
    fn patch(&self, url: &str) -> (r: reqwest::RequestBuilder)
        ensures
            r == patch_request(self.builder_client(), self.target_of(url@)),
    ;

    /// A DELETE request builder for the URL that `url` is dispatched to.
    fn delete(&self, url: &str) -> (r: reqwest::RequestBuilder)
        ensures
            r == delete_request(self.builder_client(), self.target_of(url@)),
    ;

    /// A HEAD request builder for the URL that `url` is dispatched to.
    fn head(&self, url: &str) -> (r: reqwest::RequestBuilder)
        ensures
            r == head_request(self.builder_client(), self.target_of(url@)),
    ;

    /// A request builder for `method` and the URL that `url` is dispatched to.
    fn request(&self, method: http::Method, url: &str) -> (r: reqwest::RequestBuilder)
        ensures
            r == method_request(self.builder_client(), method, self.target_of(url@)),
    ;
}

/// A plain client dispatches every URL as it is.
impl TestableClient for reqwest::Client {
    open spec fn builder_client(&self) -> reqwest::Client {
        *self
    }

    open spec fn target_of(&self, url: Seq<char>) -> Seq<char> {
        url
    }

    fn effective_url(&self, url: &str) -> (r: String) {
        String::from_str(url)
    }

    fn get(&self, url: &str) -> (r: reqwest::RequestBuilder) {
        build_get(self, url)
    }

    fn post(&self, url: &str) -> (r: reqwest::RequestBuilder) {
        build_post(self, url)
    }

    fn put(&self, url: &str) -> (r: reqwest::RequestBuilder) {
        build_put(self, url)
    }

    fn patch(&self, url: &str) -> (r: reqwest::RequestBuilder) {
        build_patch(self, url)
    }

    fn delete(&self, url: &str) -> (r: reqwest::RequestBuilder) {
        build_delete(self, url)
    }

    fn head(&self, url: &str) -> (r: reqwest::RequestBuilder) {
        build_head(self, url)
    }

    fn request(&self, method: http::Method, url: &str) -> (r: reqwest::RequestBuilder) {
        build_request(self, method, url)
    }
}

} // verus!
