//! A verified request-classification and caching core for a filtering
//! HTTP proxy.
//!
//! The crate compiles textual network-filter rules into an indexed,
//! immutable rule set ([`index::CompiledIndex`]), classifies outgoing
//! requests against it ([`classify::classify`]), and keeps proxied
//! responses in a bounded, byte-weighted, least-recently-used cache with
//! single-flight bookkeeping ([`cache::ResponseCache`]). The pipeline
//! module ties the pieces together for one request.
//!
//! All text handled by the library (rule lines, URLs, domains, header
//! names) is treated as byte strings.

pub mod bytes;
pub mod rules;
pub mod matching;
pub mod parse;
pub mod index;
pub mod cache;
pub mod classify;
pub mod pipeline;
