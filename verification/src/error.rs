//! The error kinds surfaced by the library.
//!
//! Every fallible operation reports one of these kinds; none is retried
//! automatically, and no variant ever carries a secret value.

use vstd::prelude::*;
use vstd::string::StringExecFns;

verus! {

/// One error kind per failure class of the core.
///
/// - `StoreNotInitialized`: no store or configuration present where one is
///   expected.
/// - `DecryptionFailed`: AEAD authentication failed; a wrong password and a
///   tampered ciphertext are indistinguishable by design and report the same
///   kind.
/// - `CorruptStore`: the store file is structurally invalid (too short,
///   undecodable plaintext) or the store was used before `unlock`.
/// - `SecretNotFound`: a template reference named a secret that the relevant
///   map does not hold; the name travels with the error (prefixed with a
///   scope marker for global references).
/// - `Config`: invalid configuration values, or a malformed template line.
/// - `Serialization`: the in-memory map cannot be put into the store's byte
///   encoding.
#[derive(Debug, Clone, PartialEq, Eq)]
pub enum EnjectError {
    StoreNotInitialized,
    DecryptionFailed,
    CorruptStore(String),
    SecretNotFound(String),
    Config(String),
    Serialization(String),
}

impl EnjectError {
    /// One clear, actionable message per kind; never includes a secret value.
    pub fn message(&self) -> (r: String)
        ensures
            r@ == match self {
                EnjectError::StoreNotInitialized => "Store not initialized. Run `enject init` first."@,
                EnjectError::DecryptionFailed => "Wrong Enject store password, or store is corrupted."@,
                EnjectError::CorruptStore(detail) => "Store is corrupted: "@ + detail@,
                EnjectError::SecretNotFound(name) => "Secret '"@ + name@
                    + "' not found in store. Add it with: enject set "@ + name@,
                EnjectError::Config(detail) => "Config error: "@ + detail@,
                EnjectError::Serialization(detail) => "Serialization error: "@ + detail@,
            },
    {
        match self {
            EnjectError::StoreNotInitialized => {
                String::from_str("Store not initialized. Run `enject init` first.")
            },
            EnjectError::DecryptionFailed => {
                String::from_str("Wrong Enject store password, or store is corrupted.")
            },
            EnjectError::CorruptStore(detail) => {
                String::from_str("Store is corrupted: ").concat(detail.as_str())
            },
            EnjectError::SecretNotFound(name) => {
                String::from_str("Secret '")
                    .concat(name.as_str())
                    .concat("' not found in store. Add it with: enject set ")
                    .concat(name.as_str())
            },
            EnjectError::Config(detail) => {
                String::from_str("Config error: ").concat(detail.as_str())
            },
            EnjectError::Serialization(detail) => {
                String::from_str("Serialization error: ").concat(detail.as_str())
            },
        }
    }
}

} // verus!
