//! One client type that either passes URLs through or rewires them.

use vstd::prelude::*;

use crate::rewire_client::RewireClient;
use crate::testable_client::TestableClient;

verus! {

/// A plain client or a rewiring one, chosen where the client is made.
pub enum AnyClient {
    ReqwestClient(reqwest::Client),
    TestClient(RewireClient),
}

impl TestableClient for AnyClient {
    open spec fn builder_client(&self) -> reqwest::Client {
        match self {
            AnyClient::ReqwestClient(client) => client.builder_client(),
            AnyClient::TestClient(rewire_client) => rewire_client.builder_client(),
        }
    }

    open spec fn target_of(&self, url: Seq<char>) -> Seq<char> {
        match self {
            AnyClient::ReqwestClient(client) => client.target_of(url),
            AnyClient::TestClient(rewire_client) => rewire_client.target_of(url),
        }
    }

    fn effective_url(&self, url: &str) -> (r: String) {
        match self {
            AnyClient::ReqwestClient(client) => client.effective_url(url),
            AnyClient::TestClient(rewire_client) => rewire_client.effective_url(url),
        }
    }

    fn get(&self, url: &str) -> (r: reqwest::RequestBuilder) {
        match self {
            AnyClient::ReqwestClient(client) => TestableClient::get(client, url),
            AnyClient::TestClient(rewire_client) => rewire_client.get(url),
        }
    }

    fn post(&self, url: &str) -> (r: reqwest::RequestBuilder) {
        match self {
            AnyClient::ReqwestClient(client) => TestableClient::post(client, url),
            AnyClient::TestClient(rewire_client) => rewire_client.post(url),
        }
    }

    fn put(&self, url: &str) -> (r: reqwest::RequestBuilder) {
        match self {
            AnyClient::ReqwestClient(client) => TestableClient::put(client, url),
            AnyClient::TestClient(rewire_client) => rewire_client.put(url),
        }
    }

    fn patch(&self, url: &str) -> (r: reqwest::RequestBuilder) {
        match self {
            AnyClient::ReqwestClient(client) => TestableClient::patch(client, url),
            AnyClient::TestClient(rewire_client) => rewire_client.patch(url),
        }
    }

    fn delete(&self, url: &str) -> (r: reqwest::RequestBuilder) {
        match self {
            AnyClient::ReqwestClient(client) => TestableClient::delete(client, url),
            AnyClient::TestClient(rewire_client) => rewire_client.delete(url),
        }
    }

    fn head(&self, url: &str) -> (r: reqwest::RequestBuilder) {
        match self {
            AnyClient::ReqwestClient(client) => TestableClient::head(client, url),
            AnyClient::TestClient(rewire_client) => rewire_client.head(url),
        }
    }

    fn request(&self, method: http::Method, url: &str) -> (r: reqwest::RequestBuilder) {
        match self {
            AnyClient::ReqwestClient(client) => TestableClient::request(client, method, url),
            AnyClient::TestClient(rewire_client) => rewire_client.request(method, url),
        }
    }
}

/// The pass-through variant dispatches every URL unchanged, whatever the
/// verb: a plain client's target is the URL itself.
pub proof fn lemma_pass_through_keeps_url(client: reqwest::Client, url: Seq<char>)
    ensures
        client.target_of(url) == url,
        AnyClient::ReqwestClient(client).target_of(url) == url,
{
}

} // verus!
