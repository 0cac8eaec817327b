//! The HTTP client that requests are handed to.

use vstd::prelude::*;

verus! {

/// `reqwest::Client`, carried as an opaque value.
#[verifier::external_type_specification]
#[verifier::external_body]
pub struct ExClient(reqwest::Client);

/// `reqwest::RequestBuilder`, carried as an opaque value.
#[verifier::external_type_specification]
#[verifier::external_body]
pub struct ExRequestBuilder(reqwest::RequestBuilder);

/// `http::Method`, carried as an opaque value.
#[verifier::external_type_specification]
#[verifier::external_body]
pub struct ExMethod(http::Method);

/// Relies on `reqwest::Client::new`: a client with default settings.
/// reqwest documents a panic where a TLS backend or the resolver cannot be
/// set up; this crate enables neither a TLS backend nor the hickory resolver,
/// and a fresh builder's `build` has no other failing step.
#[verifier::external_body]
pub(crate) fn default_client() -> reqwest::Client {
    reqwest::Client::new()
}

/// The builder that `reqwest::Client::get` makes for `url`.
pub uninterp spec fn get_request(client: reqwest::Client, url: Seq<char>) -> reqwest::RequestBuilder;

/// Relies on `reqwest::Client::get`: a GET request builder made from a clone
/// of `client` and the parsed `url` alone (a parse error is kept inside the
/// builder).
#[verifier::external_body]
pub(crate) fn build_get(client: &reqwest::Client, url: &str) -> (r: reqwest::RequestBuilder)
    ensures
        r == get_request(*client, url@),
{
    client.get(url)
}

/// The builder that `reqwest::Client::post` makes for `url`.
pub uninterp spec fn post_request(client: reqwest::Client, url: Seq<char>) -> reqwest::RequestBuilder;

/// Relies on `reqwest::Client::post`: a POST request builder made from a clone
/// of `client` and the parsed `url` alone (a parse error is kept inside the
/// builder).
#[verifier::external_body]
pub(crate) fn build_post(client: &reqwest::Client, url: &str) -> (r: reqwest::RequestBuilder)
    ensures
        r == post_request(*client, url@),
{
    client.post(url)
}

/// The builder that `reqwest::Client::put` makes for `url`.
pub uninterp spec fn put_request(client: reqwest::Client, url: Seq<char>) -> reqwest::RequestBuilder;

/// Relies on `reqwest::Client::put`: a PUT request builder made from a clone
/// of `client` and the parsed `url` alone (a parse error is kept inside the
/// builder).
#[verifier::external_body]
pub(crate) fn build_put(client: &reqwest::Client, url: &str) -> (r: reqwest::RequestBuilder)
    ensures
        r == put_request(*client, url@),
{
    client.put(url)
}

/// The builder that `reqwest::Client::patch` makes for `url`.
pub uninterp spec fn patch_request(client: reqwest::Client, url: Seq<char>) -> reqwest::RequestBuilder;

/// Relies on `reqwest::Client::patch`: a PATCH request builder made from a clone
/// of `client` and the parsed `url` alone (a parse error is kept inside the
/// builder).
#[verifier::external_body]
pub(crate) fn build_patch(client: &reqwest::Client, url: &str) -> (r: reqwest::RequestBuilder)
    ensures
        r == patch_request(*client, url@),
{
    client.patch(url)
}

/// The builder that `reqwest::Client::delete` makes for `url`.
pub uninterp spec fn delete_request(client: reqwest::Client, url: Seq<char>) -> reqwest::RequestBuilder;

/// Relies on `reqwest::Client::delete`: a DELETE request builder made from a clone
/// of `client` and the parsed `url` alone (a parse error is kept inside the
/// builder).
#[verifier::external_body]
pub(crate) fn build_delete(client: &reqwest::Client, url: &str) -> (r: reqwest::RequestBuilder)
    ensures
        r == delete_request(*client, url@),
{
    client.delete(url)
}

/// The builder that `reqwest::Client::head` makes for `url`.
pub uninterp spec fn head_request(client: reqwest::Client, url: Seq<char>) -> reqwest::RequestBuilder;

/// Relies on `reqwest::Client::head`: a HEAD request builder made from a clone
/// of `client` and the parsed `url` alone (a parse error is kept inside the
/// builder).
#[verifier::external_body]
pub(crate) fn build_head(client: &reqwest::Client, url: &str) -> (r: reqwest::RequestBuilder)
    ensures
        r == head_request(*client, url@),
{
    client.head(url)
}

/// The builder that `reqwest::Client::request` makes for `method` and `url`.
pub uninterp spec fn method_request(client: reqwest::Client, method: http::Method, url: Seq<char>) -> reqwest::RequestBuilder;

/// Relies on `reqwest::Client::request`: a request builder made from a clone
/// of `client`, `method` and the parsed `url` alone (a parse error is kept
/// inside the builder).
#[verifier::external_body]
pub(crate) fn build_request(client: &reqwest::Client, method: http::Method, url: &str) -> (r: reqwest::RequestBuilder)
    ensures
        r == method_request(*client, method, url@),
{
    client.request(method, url)
}

} // verus!
