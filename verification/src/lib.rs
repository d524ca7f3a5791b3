//! A content-blocking relay library: the verified core of a reverse proxy
//! that strips fingerprinted container elements from fetched markup.
//!
//! The element excision engine lives in [`agent::filter`]; the per-request
//! orchestration (URL building, filtering, content-type decision) lives in
//! [`agent`].

pub mod agent;
