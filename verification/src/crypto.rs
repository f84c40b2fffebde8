//! The cryptographic boundary of the store.
//!
//! Everything the store needs from the password-hashing, AEAD, randomness
//! and secret-wrapping crates crosses through the trusted items of this
//! module. Each result that is a pure function of its inputs carries a
//! name (`argon2id_key`, `aes_gcm_seal`, `aes_gcm_open`, `secret_chars`),
//! and every contract states only what the crates' own sources show.

use vstd::prelude::*;
use aes_gcm::aead::{Aead, KeyInit};
use rand::RngCore;
use secrecy::ExposeSecret;
use zeroize::Zeroize;

verus! {

/// A password or secret value: a `secrecy::SecretString`, so the text is
/// zeroized when the value is dropped and is never shown by `Debug` or a
/// derived serializer. Verus sees the type as opaque; its characters are
/// reached only through `secret_chars`.
#[verifier::external_body]
pub struct SecretValue {
    inner: secrecy::SecretString,
}

/// The characters a `SecretValue` wraps.
pub uninterp spec fn secret_chars(s: SecretValue) -> Seq<char>;

impl SecretValue {
    /// Relies on secrecy's `Secret::new`: the given string becomes the
    /// wrapped value.
    #[verifier::external_body]
    pub fn new(s: String) -> (r: SecretValue)
        ensures
            secret_chars(r) == s@,
    {
        SecretValue { inner: secrecy::SecretString::new(s) }
    }

    /// Relies on secrecy's `ExposeSecret::expose_secret`: borrows the
    /// wrapped string.
    #[verifier::external_body]
    pub fn expose(&self) -> (r: &String)
        ensures
            r@ == secret_chars(*self),
    {
        self.inner.expose_secret()
    }
}

/// The 32-byte key Argon2id (version 0x13) derives from a password, a
/// salt and the three cost parameters.
pub uninterp spec fn argon2id_key(
    password: Seq<u8>,
    salt: Seq<u8>,
    m_cost: u32,
    t_cost: u32,
    p_cost: u32,
) -> Seq<u8>;

/// The parameter and input sizes for which the key derivation succeeds.
pub open spec fn kdf_inputs_ok(
    password_len: nat,
    salt_len: nat,
    m_cost: u32,
    t_cost: u32,
    p_cost: u32,
) -> bool {
    &&& 8 <= m_cost
    &&& p_cost * 8 <= m_cost
    &&& 1 <= t_cost
    &&& 1 <= p_cost <= 0xFF_FFFF
    &&& password_len <= 0xFFFF_FFFF
    &&& 8 <= salt_len <= 0xFFFF_FFFF
}

/// Relies on argon2's `Params::new`, `Argon2::new` and
/// `hash_password_into`: Argon2id version 0x13 with a 32-byte output. The
/// result depends only on the inputs, and the call succeeds exactly for
/// the parameter bounds and input sizes those functions check.
#[verifier::external_body]
pub(crate) fn argon2id_derive(
    password: &[u8],
    salt: &[u8],
    m_cost: u32,
    t_cost: u32,
    p_cost: u32,
) -> (r: Option<[u8; 32]>)
    requires
        p_cost <= 0xFF_FFFF,
    ensures
        r is Some <==> kdf_inputs_ok(password@.len(), salt@.len(), m_cost, t_cost, p_cost),
        r matches Some(k) ==> k@ == argon2id_key(password@, salt@, m_cost, t_cost, p_cost),
{
    let params = match argon2::Params::new(m_cost, t_cost, p_cost, Some(32)) {
        Ok(params) => params,
        Err(_) => {
            return None;
        },
    };
    let argon = argon2::Argon2::new(argon2::Algorithm::Argon2id, argon2::Version::V0x13, params);
    let mut key = [0u8; 32];
    match argon.hash_password_into(password, salt, &mut key) {
        Ok(()) => Some(key),
        Err(_) => None,
    }
}

/// The AES-256-GCM ciphertext (tag appended) for a key, nonce and
/// plaintext.
pub uninterp spec fn aes_gcm_seal(key: Seq<u8>, nonce: Seq<u8>, plaintext: Seq<u8>) -> Seq<u8>;

/// What AES-256-GCM decryption yields for a key, nonce and ciphertext:
/// the plaintext, or nothing when authentication fails.
pub uninterp spec fn aes_gcm_open(key: Seq<u8>, nonce: Seq<u8>, ciphertext: Seq<u8>) -> Option<
    Seq<u8>,
>;

/// Relies on aes_gcm's `Aes256Gcm`: `new_from_slice` accepts a 32-byte
/// key, and `encrypt` succeeds exactly up to the cipher's 2^36-byte
/// plaintext bound, appending the 16-byte tag. The ciphertext depends
/// only on key, nonce and plaintext, and `decrypt` restores the
/// plaintext from it.
#[verifier::external_body]
pub(crate) fn aes256_gcm_encrypt(key: &[u8; 32], nonce: &[u8; 12], plaintext: &[u8]) -> (r: Option<
    Vec<u8>,
>)
    ensures
        r is Some <==> plaintext@.len() <= 0x10_0000_0000,
        r matches Some(c) ==> {
            &&& c@ == aes_gcm_seal(key@, nonce@, plaintext@)
            &&& c@.len() == plaintext@.len() + 16
            &&& aes_gcm_open(key@, nonce@, c@) == Some(plaintext@)
        },
{
    let cipher = match aes_gcm::Aes256Gcm::new_from_slice(key) {
        Ok(cipher) => cipher,
        Err(_) => {
            return None;
        },
    };
    let nonce = aes_gcm::Nonce::from_slice(nonce);
    match cipher.encrypt(nonce, plaintext) {
        Ok(ciphertext) => Some(ciphertext),
        Err(_) => None,
    }
}

/// Relies on aes_gcm's `Aes256Gcm::decrypt`: authenticated decryption,
/// which fails exactly when the ciphertext is not one this key and nonce
/// produced.
#[verifier::external_body]
pub(crate) fn aes256_gcm_decrypt(key: &[u8; 32], nonce: &[u8; 12], ciphertext: &[u8]) -> (r:
    Option<Vec<u8>>)
    ensures
        r is Some <==> aes_gcm_open(key@, nonce@, ciphertext@) is Some,
        r matches Some(p) ==> aes_gcm_open(key@, nonce@, ciphertext@) == Some(p@),
{
    let cipher = match aes_gcm::Aes256Gcm::new_from_slice(key) {
        Ok(cipher) => cipher,
        Err(_) => {
            return None;
        },
    };
    let nonce = aes_gcm::Nonce::from_slice(nonce);
    match cipher.decrypt(nonce, ciphertext) {
        Ok(plaintext) => Some(plaintext),
        Err(_) => None,
    }
}

/// Relies on rand's `thread_rng` and `fill_bytes`: twelve bytes from the
/// thread-local CSPRNG. Nothing is promised of their values.
#[verifier::external_body]
pub(crate) fn fresh_nonce() -> [u8; 12] {
    let mut nonce = [0u8; 12];
    rand::thread_rng().fill_bytes(&mut nonce);
    nonce
}

/// Relies on zeroize's `Zeroize for [u8; N]`: every byte is overwritten
/// with zero.
#[verifier::external_body]
pub(crate) fn wipe_key(key: &mut [u8; 32])
    ensures
        final(key)@ == Seq::new(32, |i: int| 0u8),
{
    key.zeroize();
}

/// Relies on zeroize's `Zeroize for Vec<u8>`: the buffer is zeroized,
/// then cleared.
#[verifier::external_body]
pub(crate) fn wipe_bytes(buf: &mut Vec<u8>)
    ensures
        final(buf)@.len() == 0,
{
    buf.zeroize();
}

} // verus!
