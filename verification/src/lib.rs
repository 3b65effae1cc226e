//! Local persistent state for a link-management command-line client.
//!
//! The crate verifies the client's core: a hierarchical configuration
//! document with dotted-key addressing and a text codec for it, a secret
//! store for the API credential backed by the platform vault, a resilient
//! timestamp normalizer for the upstream service's inconsistent date-time
//! serializations, and the mapper that turns wire records into internal
//! ones.  File and network transport stay outside the library; callers
//! hand it plain values.

pub mod cli;
pub mod codec;
pub mod config;
pub mod document;
pub mod errors;
pub mod record;
pub mod secret;
pub mod timestamp;
