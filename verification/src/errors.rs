//! Error taxonomy of the local state subsystem.
//!
//! Absence is never an error here: a missing config key, a missing secret
//! and a missing optional field are success states.  The variants below
//! mark systemic failures that propagate to the caller unretried.

use vstd::prelude::*;

verus! {

/// Failure of the configuration store.
#[derive(Debug, Clone, PartialEq, Eq)]
pub enum ConfigError {
    /// The config file exists but cannot be parsed as the structured format.
    ConfigCorrupt,
    /// A dotted-key write collides with a name already bound to a scalar.
    ConfigStructureInvalid,
    /// The filesystem failed underneath the store; the message says how.
    IoError(String),
}

/// Failure of the secret store: the platform vault cannot be reached.
#[derive(Debug, Clone, PartialEq, Eq)]
pub enum SecretError {
    /// The vault itself is unavailable; the message is surfaced verbatim.
    SecretStoreUnavailable(String),
}

/// Failure of the timestamp normalizer: no parse strategy matched.
#[derive(Debug, Clone, PartialEq, Eq)]
pub struct TimestampUnparseable {
    /// The raw string as received from the wire.
    pub raw: String,
}

/// Failure of the record mapper: a required date field did not normalize.
#[derive(Debug, Clone, PartialEq, Eq)]
pub struct RecordDecodeError {
    /// Name of the wire field whose value could not be normalized.
    pub field: String,
    /// The raw field value as received from the wire.
    pub raw: String,
}

} // verus!
