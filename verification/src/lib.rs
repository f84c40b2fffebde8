//! A password-protected secret store with a `.env` template engine.
//!
//! Secrets live in an encrypted store file (`nonce || AEAD ciphertext`),
//! keyed by a password through a memory-hard KDF. A `.env`-style template
//! is parsed into typed lines; reference placeholders are resolved against
//! the decrypted store to build the environment handed to a subprocess.

pub mod cli;
pub mod codec;
pub mod config;
pub mod crypto;
pub mod env_template;
pub mod error;
pub mod order;
pub mod store;
pub mod string_map;
