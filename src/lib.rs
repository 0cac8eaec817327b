//! Request-URL rewiring in front of an HTTP client.
//!
//! Callers keep issuing requests against logical URLs; a [`RewireClient`]
//! swaps the longest matching logical prefix for its physical counterpart
//! before the request is built, while a plain `reqwest::Client` passes every
//! URL through untouched. Both satisfy [`TestableClient`].

pub mod client;
pub mod rewire_client;
pub mod rules;
pub mod testable_client;
pub mod text;
pub mod transport;
pub mod url;

pub use client::AnyClient;
pub use rewire_client::RewireClient;
pub use rules::RuleSet;
pub use testable_client::TestableClient;
