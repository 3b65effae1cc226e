//! The secret store: exactly one credential, the API key, held by the
//! platform vault under the fixed service name `lnk-cli` and account
//! name `api_key`.  The application keeps no copy across invocations;
//! absence of the secret is a valid state meaning "not authenticated",
//! never an error.  Only a vault that cannot be reached at all is an
//! error, surfaced verbatim as `SecretStoreUnavailable`.
//!
//! The vault itself is outside state: what a call returns depends on
//! the machine, so the trusted wrappers promise nothing about which
//! outcome comes back, and the verified resolution functions state
//! exactly what each outcome turns into.  An in-memory store with the
//! same operations serves where no platform vault is wanted.

use vstd::prelude::*;

use crate::errors::SecretError;

verus! {

/// What the vault reported when asked for the secret.
pub enum VaultFetch {
    /// The stored secret.
    Found(String),
    /// No secret is stored: a valid state, not an error.
    Absent,
    /// The vault could not be reached; the message says why.
    Unavailable(String),
}

/// What the vault reported when asked to delete the secret.
pub enum VaultClear {
    /// The secret existed and is gone.
    Cleared,
    /// No secret was stored to begin with.
    Absent,
    /// The vault could not be reached; the message says why.
    Unavailable(String),
}

/// The platform vault's credential handle, opaque to the library: it
/// is built by `keyring::Entry::new` and carried into the three calls.
#[verifier::external_type_specification]
#[verifier::external_body]
pub struct ExEntry(keyring::Entry);

/// Relies on `keyring::Entry::new`: builds the handle for the given
/// service and account names, or reports why the platform store could
/// not be set up.
#[verifier::external_body]
fn vault_entry(service: &str, account: &str) -> (r: Result<keyring::Entry, String>) {
    keyring::Entry::new(service, account).map_err(|e| format!("{}", e))
}

/// Relies on `keyring::Entry::get_password`: returns the stored secret,
/// reports `Error::NoEntry` when none is stored, and another error when
/// the vault cannot be reached.
#[verifier::external_body]
fn vault_get(entry: &keyring::Entry) -> (r: VaultFetch) {
    match entry.get_password() {
        Ok(s) => VaultFetch::Found(s),
        Err(keyring::Error::NoEntry) => VaultFetch::Absent,
        Err(e) => VaultFetch::Unavailable(format!("{}", e)),
    }
}

/// Relies on `keyring::Entry::set_password`: stores or overwrites the
/// secret, or reports why it could not.
#[verifier::external_body]
fn vault_put(entry: &keyring::Entry, value: &str) -> (r: Result<(), String>) {
    entry.set_password(value).map_err(|e| format!("{}", e))
}

/// Relies on `keyring::Entry::delete_password`: removes the secret,
/// reports `Error::NoEntry` when none was stored, and another error
/// when the vault cannot be reached.
#[verifier::external_body]
fn vault_del(entry: &keyring::Entry) -> (r: VaultClear) {
    match entry.delete_password() {
        Ok(()) => VaultClear::Cleared,
        Err(keyring::Error::NoEntry) => VaultClear::Absent,
        Err(e) => VaultClear::Unavailable(format!("{}", e)),
    }
}

/// What a fetch outcome means to the caller: a found secret is
/// `Some`, a vault-reported absence is `None` — never an error — and
/// only an unreachable vault is an error.
pub fn resolve_fetch(outcome: VaultFetch) -> (r: Result<Option<String>, SecretError>)
    ensures
        match outcome {
            VaultFetch::Found(s) => r matches Ok(x) && x matches Some(t) && t@ == s@,
            VaultFetch::Absent => r == Ok::<Option<String>, SecretError>(None),
            VaultFetch::Unavailable(m) => r matches Err(e) && e matches
                SecretError::SecretStoreUnavailable(t) && t@ == m@,
        },
{
    match outcome {
        VaultFetch::Found(s) => Ok(Some(s)),
        VaultFetch::Absent => Ok(None),
        VaultFetch::Unavailable(m) => Err(SecretError::SecretStoreUnavailable(m)),
    }
}

/// What a delete outcome means to the caller: deleting is idempotent,
/// so a vault-reported absence is success exactly like a real removal;
/// only an unreachable vault is an error.
pub fn resolve_clear(outcome: VaultClear) -> (r: Result<(), SecretError>)
    ensures
        match outcome {
            VaultClear::Cleared => r is Ok,
            VaultClear::Absent => r is Ok,
            VaultClear::Unavailable(m) => r matches Err(e) && e matches
                SecretError::SecretStoreUnavailable(t) && t@ == m@,
        },
{
    match outcome {
        VaultClear::Cleared => Ok(()),
        VaultClear::Absent => Ok(()),
        VaultClear::Unavailable(m) => Err(SecretError::SecretStoreUnavailable(m)),
    }
}

/// The platform-vault-backed secret store.
pub struct SecretStore {}

impl SecretStore {
    /// A handle on the fixed vault entry; holds nothing itself.
    pub fn new() -> (r: SecretStore) {
        SecretStore {}
    }

    /// The stored credential, or `None` when none is set.  What comes
    /// back depends on the vault's state; every outcome is resolved as
    /// `resolve_fetch` states.
    pub fn get_secret(&self) -> (r: Result<Option<String>, SecretError>) {
        let entry = match vault_entry("lnk-cli", "api_key") {
            Ok(e) => e,
            Err(m) => {
                return Err(SecretError::SecretStoreUnavailable(m));
            },
        };
        resolve_fetch(vault_get(&entry))
    }

    /// Store or overwrite the credential.
    pub fn set_secret(&self, value: &str) -> (r: Result<(), SecretError>) {
        let entry = match vault_entry("lnk-cli", "api_key") {
            Ok(e) => e,
            Err(m) => {
                return Err(SecretError::SecretStoreUnavailable(m));
            },
        };
        match vault_put(&entry, value) {
            Ok(()) => Ok(()),
            Err(m) => Err(SecretError::SecretStoreUnavailable(m)),
        }
    }

    /// Delete the credential.  Idempotent: deleting an absent secret is
    /// success, as `resolve_clear` states.
    pub fn delete_secret(&self) -> (r: Result<(), SecretError>) {
        let entry = match vault_entry("lnk-cli", "api_key") {
            Ok(e) => e,
            Err(m) => {
                return Err(SecretError::SecretStoreUnavailable(m));
            },
        };
        resolve_clear(vault_del(&entry))
    }
}

/// An in-memory secret store with the same three operations, for use
/// where no platform vault is wanted.  Its contract carries the laws of
/// the store exactly: absence is `None` and never an error, deleting
/// twice succeeds both times, and reading after a delete yields `None`.
pub struct MemorySecretStore {
    /// The held secret, if any.
    pub secret: Option<String>,
}

impl View for MemorySecretStore {
    type V = Option<Seq<char>>;

    open spec fn view(&self) -> Option<Seq<char>> {
        match self.secret {
            Some(ref s) => Some(s@),
            None => None,
        }
    }
}

impl MemorySecretStore {
    /// A fresh store holding no secret: not authenticated.
    pub fn new() -> (r: MemorySecretStore)
        ensures
            r@ is None,
    {
        MemorySecretStore { secret: None }
    }

    /// The stored credential, or `None` when none is set; never an
    /// error.
    pub fn get_secret(&self) -> (r: Result<Option<String>, SecretError>)
        ensures
            r matches Ok(x) && (x is Some <==> self@ is Some),
            r matches Ok(x) && x matches Some(t) ==> self@ == Some(t@),
    {
        match &self.secret {
            Some(s) => Ok(Some(s.clone())),
            None => Ok(None),
        }
    }

    /// Store or overwrite the credential; always succeeds.
    pub fn set_secret(&mut self, value: &str) -> (r: Result<(), SecretError>)
        ensures
            r is Ok,
            final(self)@ == Some(value@),
    {
        self.secret = Some(value.to_owned());
        Ok(())
    }

    /// Delete the credential.  Idempotent: succeeds whether or not a
    /// secret was stored, and afterwards none is.
    pub fn delete_secret(&mut self) -> (r: Result<(), SecretError>)
        ensures
            r is Ok,
            final(self)@ is None,
    {
        self.secret = None;
        Ok(())
    }
}

} // verus!
