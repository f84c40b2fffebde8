//! The password-derived authenticated-encryption store.
//!
//! A store owns the decrypted secret map while unlocked. On disk it is a
//! single blob `nonce (12 bytes) || AEAD ciphertext`; the ciphertext,
//! decrypted, is the canonical byte encoding of the map. Reading and
//! writing the blob is the caller's business: `unlock` takes the file's
//! bytes (or `None` when no file exists yet) and `save` hands the fresh
//! blob back, so that the caller can replace the file atomically.

use vstd::prelude::*;
use vstd::string::StringExecFns;
use vstd::utf8::encode_utf8;
use crate::codec::{decode_spec, decode_store, encodable, encode_spec, encode_store};
use crate::crypto::{
    aes256_gcm_decrypt, aes256_gcm_encrypt, aes_gcm_open, aes_gcm_seal, argon2id_derive,
    argon2id_key, fresh_nonce, kdf_inputs_ok, secret_chars, wipe_bytes, wipe_key, SecretValue,
};
use crate::error::EnjectError;
use crate::string_map::{seq_map, strictly_sorted, StringMap};

verus! {

/// The cost parameters of the key derivation. Fixed when a store is
/// created; deriving with different values yields a different key, so
/// they must travel with the store file's configuration.
#[derive(Clone, Copy, Debug, PartialEq, Eq, Structural)]
pub struct KdfParams {
    pub m_cost: u32,
    pub t_cost: u32,
    pub p_cost: u32,
}

impl Default for KdfParams {
    /// The default costs: 64 MiB of memory, three passes, four lanes.
    fn default() -> (r: KdfParams)
        ensures
            r == (KdfParams { m_cost: 65536u32, t_cost: 3u32, p_cost: 4u32 }),
    {
        KdfParams { m_cost: 65536, t_cost: 3, p_cost: 4 }
    }
}

/// The key that a password derives for a store with this salt and these
/// parameters.
pub open spec fn derived_key(password: Seq<char>, salt: Seq<u8>, params: KdfParams) -> Seq<u8> {
    argon2id_key(encode_utf8(password), salt, params.m_cost, params.t_cost, params.p_cost)
}

/// Whether the derivation succeeds for this password, salt and
/// parameters.
pub open spec fn kdf_ok(password: Seq<char>, salt: Seq<u8>, params: KdfParams) -> bool {
    kdf_inputs_ok(
        encode_utf8(password).len(),
        salt.len(),
        params.m_cost,
        params.t_cost,
        params.p_cost,
    )
}

/// `keys` lists exactly the domain of `m`, strictly ascending.
pub open spec fn sorted_key_list(keys: Seq<String>, m: Map<Seq<char>, Seq<char>>) -> bool {
    &&& forall|i: int, j: int|
        0 <= i < j < keys.len() ==> crate::order::lex_lt(keys[i]@, keys[j]@)
    &&& forall|i: int| 0 <= i < keys.len() ==> m.contains_key(#[trigger] keys[i]@)
    &&& forall|k: Seq<char>|
        m.contains_key(k) ==> exists|i: int| 0 <= i < keys.len() && keys[i]@ == k
}

/// Why unlocking a store file fails.
pub enum UnlockFailure {
    /// The file is too short to hold a nonce.
    TooShort,
    /// The KDF rejects the password, salt or cost parameters.
    BadKdfParams,
    /// AEAD authentication failed: wrong password or tampered bytes,
    /// indistinguishable by design.
    AuthFailed,
    /// The decrypted plaintext is not the canonical encoding of a map.
    Undecodable,
}

/// What unlocking file bytes yields: the secret map, or the failure.
pub open spec fn unlock_result(
    bytes: Seq<u8>,
    password: Seq<char>,
    salt: Seq<u8>,
    params: KdfParams,
) -> Result<Map<Seq<char>, Seq<char>>, UnlockFailure> {
    if bytes.len() < 12 {
        Err(UnlockFailure::TooShort)
    } else if !kdf_ok(password, salt, params) {
        Err(UnlockFailure::BadKdfParams)
    } else {
        match aes_gcm_open(
            derived_key(password, salt, params),
            bytes.take(12),
            bytes.skip(12),
        ) {
            None => Err(UnlockFailure::AuthFailed),
            Some(plaintext) => match decode_spec(plaintext) {
                None => Err(UnlockFailure::Undecodable),
                Some(cols) => if strictly_sorted(cols.0) {
                    Ok(seq_map(cols.0, cols.1))
                } else {
                    Err(UnlockFailure::Undecodable)
                },
            },
        }
    }
}

/// The error kind that reports each unlock failure.
pub open spec fn reports(e: EnjectError, f: UnlockFailure) -> bool {
    match f {
        UnlockFailure::TooShort => e matches EnjectError::CorruptStore(_),
        UnlockFailure::BadKdfParams => e matches EnjectError::Config(_),
        UnlockFailure::AuthFailed => e matches EnjectError::DecryptionFailed,
        UnlockFailure::Undecodable => e matches EnjectError::CorruptStore(_),
    }
}

/// A password-protected secret store.
pub struct PasswordStore {
    store_path: String,
    kdf_params: KdfParams,
    salt: Vec<u8>,
    secrets: Option<StringMap>,
}

impl PasswordStore {
    /// Where the store file lives.
    pub closed spec fn path_view(&self) -> Seq<char> {
        self.store_path@
    }

    /// The salt every derivation against this store uses.
    pub closed spec fn salt_view(&self) -> Seq<u8> {
        self.salt@
    }

    /// The KDF cost parameters of this store.
    pub closed spec fn params(&self) -> KdfParams {
        self.kdf_params
    }

    /// Whether the in-memory map is populated.
    pub closed spec fn is_unlocked(&self) -> bool {
        self.secrets is Some
    }

    /// The decrypted secret map (empty while locked).
    pub closed spec fn secrets_view(&self) -> Map<Seq<char>, Seq<char>> {
        match self.secrets {
            Some(m) => m@,
            None => Map::empty(),
        }
    }

    /// Well-formed: the map, if populated, keeps its own invariant.
    pub closed spec fn wf(&self) -> bool {
        self.secrets matches Some(m) ==> m.wf()
    }

    /// The canonical byte encoding of the decrypted map.
    pub closed spec fn payload(&self) -> Seq<u8> {
        encode_spec(self.secrets->Some_0.key_seq(), self.secrets->Some_0.val_seq())
    }

    /// Whether the decrypted map's counts fit the encoding's 32-bit
    /// fields.
    pub closed spec fn payload_fits(&self) -> bool {
        encodable(self.secrets->Some_0.key_seq(), self.secrets->Some_0.val_seq())
    }

    /// The configuration a store is constructed with, unchanged by an
    /// operation.
    pub open spec fn same_config(&self, other: &PasswordStore) -> bool {
        &&& self.path_view() == other.path_view()
        &&& self.salt_view() == other.salt_view()
        &&& self.params() == other.params()
    }

    /// A locked store for the given path, parameters and salt.
    pub fn new(store_path: String, kdf_params: KdfParams, salt: Vec<u8>) -> (r: PasswordStore)
        ensures
            r.wf(),
            !r.is_unlocked(),
            r.path_view() == store_path@,
            r.salt_view() == salt@,
            r.params() == kdf_params,
    {
        PasswordStore { store_path, kdf_params, salt, secrets: None }
    }

    /// The path this store was constructed with.
    pub fn path(&self) -> (r: &String)
        ensures
            r@ == self.path_view(),
    {
        &self.store_path
    }

    /// Loads the secret map from the store file's bytes.
    ///
    /// `file` carries the whole store file, or `None` when no file
    /// exists yet; then the store starts from an empty map. Decryption
    /// follows `unlock_result`: the key is derived from the password and
    /// the stored salt and parameters, the first twelve bytes are the
    /// nonce, and authenticated decryption plus decoding either populate
    /// the map or leave the store exactly as it was, with the error kind
    /// `reports` assigns to the failure.
    pub fn unlock(&mut self, password: &SecretValue, file: Option<&Vec<u8>>) -> (r: Result<
        (),
        EnjectError,
    >)
        requires
            old(self).wf(),
        ensures
            final(self).wf(),
            final(self).same_config(old(self)),
            match file {
                None => {
                    &&& r is Ok
                    &&& final(self).is_unlocked()
                    &&& final(self).secrets_view() == Map::<Seq<char>, Seq<char>>::empty()
                },
                Some(b) => match unlock_result(
                    b@,
                    secret_chars(*password),
                    old(self).salt_view(),
                    old(self).params(),
                ) {
                    Ok(m) => {
                        &&& r is Ok
                        &&& final(self).is_unlocked()
                        &&& final(self).secrets_view() == m
                    },
                    Err(f) => {
                        &&& r matches Err(e) && reports(e, f)
                        &&& final(self).is_unlocked() == old(self).is_unlocked()
                        &&& final(self).secrets_view() == old(self).secrets_view()
                    },
                },
            },
    {
        let bytes = match file {
            None => {
                self.secrets = Some(StringMap::new());
                return Ok(());
            },
            Some(bytes) => bytes,
        };
        if bytes.len() < 12 {
            return Err(
                EnjectError::CorruptStore(
                    String::from_str("store file too short to contain a nonce"),
                ),
            );
        }
        if self.kdf_params.p_cost > 0xFF_FFFF {
            return Err(EnjectError::Config(String::from_str("invalid KDF parameters")));
        }
        let password_text = password.expose();
        let key_opt = argon2id_derive(
            password_text.as_str().as_bytes(),
            self.salt.as_slice(),
            self.kdf_params.m_cost,
            self.kdf_params.t_cost,
            self.kdf_params.p_cost,
        );
        let mut key = match key_opt {
            Some(key) => key,
            None => {
                return Err(EnjectError::Config(String::from_str("invalid KDF parameters")));
            },
        };
        let mut nonce = [0u8; 12];
        let mut i: usize = 0;
        while i < 12
            invariant
                0 <= i <= 12,
                bytes@.len() >= 12,
                nonce@.len() == 12,
                forall|j: int| 0 <= j < i ==> nonce@[j] == bytes@[j],
            decreases 12 - i,
        {
            nonce[i] = bytes[i];
            i = i + 1;
        }
        let mut ciphertext: Vec<u8> = Vec::new();
        let mut j: usize = 12;
        while j < bytes.len()
            invariant
                12 <= j <= bytes@.len(),
                ciphertext@ == bytes@.subrange(12, j as int),
            decreases bytes@.len() - j,
        {
            ciphertext.push(bytes[j]);
            j = j + 1;
        }
        proof {
            assert(nonce@ =~= bytes@.take(12));
            assert(ciphertext@ =~= bytes@.skip(12));
        }
        let plaintext_opt = aes256_gcm_decrypt(&key, &nonce, ciphertext.as_slice());
        wipe_key(&mut key);
        let mut plaintext = match plaintext_opt {
            Some(plaintext) => plaintext,
            None => {
                return Err(EnjectError::DecryptionFailed);
            },
        };
        let decoded = decode_store(&plaintext);
        wipe_bytes(&mut plaintext);
        match decoded {
            Some(map) => {
                proof {
                    map.lemma_wf_facts();
                }
                self.secrets = Some(map);
                Ok(())
            },
            None => Err(
                EnjectError::CorruptStore(String::from_str("store plaintext is not a secret map")),
            ),
        }
    }

    /// Encrypts the in-memory map into a fresh store file blob.
    ///
    /// The blob is `nonce || ciphertext` under a key derived from this
    /// password (which may differ from the unlock password: that is how
    /// the password is rotated) and a nonce drawn fresh from the CSPRNG
    /// for every call. Unlocking the blob with the same password gives
    /// back exactly the map that was saved. The caller writes the blob
    /// to disk, replacing the store file atomically.
    pub fn save(&self, password: &SecretValue) -> (r: Result<Vec<u8>, EnjectError>)
        requires
            self.wf(),
        ensures
            ({
                let payload = self.payload();
                let fits = self.payload_fits();
                let key_ok = kdf_ok(secret_chars(*password), self.salt_view(), self.params());
                match r {
                    Ok(out) => {
                        &&& self.is_unlocked()
                        &&& out@.len() == 12 + payload.len() + 16
                        &&& unlock_result(
                            out@,
                            secret_chars(*password),
                            self.salt_view(),
                            self.params(),
                        ) == Ok::<_, UnlockFailure>(self.secrets_view())
                        &&& out@.skip(12) == aes_gcm_seal(
                            derived_key(secret_chars(*password), self.salt_view(), self.params()),
                            out@.take(12),
                            payload,
                        )
                    },
                    Err(e) => match e {
                        EnjectError::CorruptStore(_) => !self.is_unlocked() || (fits && key_ok
                            && payload.len() > 0x10_0000_0000),
                        EnjectError::Serialization(_) => self.is_unlocked() && !fits,
                        EnjectError::Config(_) => self.is_unlocked() && fits && !key_ok,
                        _ => false,
                    },
                }
            }),
    {
        let map = match &self.secrets {
            Some(map) => map,
            None => {
                return Err(EnjectError::CorruptStore(String::from_str("store not unlocked")));
            },
        };
        let mut payload = match encode_store(map) {
            Ok(payload) => payload,
            Err(e) => {
                return Err(e);
            },
        };
        if self.kdf_params.p_cost > 0xFF_FFFF {
            wipe_bytes(&mut payload);
            return Err(EnjectError::Config(String::from_str("invalid KDF parameters")));
        }
        let password_text = password.expose();
        let key_opt = argon2id_derive(
            password_text.as_str().as_bytes(),
            self.salt.as_slice(),
            self.kdf_params.m_cost,
            self.kdf_params.t_cost,
            self.kdf_params.p_cost,
        );
        let mut key = match key_opt {
            Some(key) => key,
            None => {
                wipe_bytes(&mut payload);
                return Err(EnjectError::Config(String::from_str("invalid KDF parameters")));
            },
        };
        let nonce = fresh_nonce();
        let ciphertext_opt = aes256_gcm_encrypt(&key, &nonce, payload.as_slice());
        wipe_key(&mut key);
        let ghost payload_view = payload@;
        wipe_bytes(&mut payload);
        let ciphertext = match ciphertext_opt {
            Some(ciphertext) => ciphertext,
            None => {
                return Err(EnjectError::CorruptStore(String::from_str("encryption failed")));
            },
        };
        let mut out: Vec<u8> = Vec::new();
        let mut i: usize = 0;
        while i < 12
            invariant
                0 <= i <= 12,
                out@ == nonce@.take(i as int),
            decreases 12 - i,
        {
            out.push(nonce[i]);
            proof {
                assert(out@ =~= nonce@.take(i + 1));
            }
            i = i + 1;
        }
        proof {
            assert(out@ =~= nonce@);
        }
        let mut k: usize = 0;
        let n = ciphertext.len();
        while k < n
            invariant
                0 <= k <= n,
                n == ciphertext@.len(),
                nonce@.len() == 12,
                out@ == nonce@ + ciphertext@.take(k as int),
            decreases n - k,
        {
            out.push(ciphertext[k]);
            proof {
                assert(out@ =~= nonce@ + ciphertext@.take(k + 1));
            }
            k = k + 1;
        }
        proof {
            assert(out@ =~= nonce@ + ciphertext@);
            assert(out@.take(12) =~= nonce@);
            assert(out@.skip(12) =~= ciphertext@);
            map.lemma_wf_facts();
            crate::codec::lemma_decode_encode(map.key_seq(), map.val_seq());
        }
        Ok(out)
    }

    /// Creates a store whose file does not exist yet: an empty map,
    /// immediately encrypted under the given password. Returns the store
    /// and the first blob to write.
    pub fn create_empty(
        store_path: String,
        kdf_params: KdfParams,
        salt: Vec<u8>,
        password: &SecretValue,
    ) -> (r: Result<(PasswordStore, Vec<u8>), EnjectError>)
        ensures
            match r {
                Ok(pair) => {
                    &&& pair.0.wf()
                    &&& pair.0.is_unlocked()
                    &&& pair.0.secrets_view() == Map::<Seq<char>, Seq<char>>::empty()
                    &&& pair.0.path_view() == store_path@
                    &&& pair.0.salt_view() == salt@
                    &&& pair.0.params() == kdf_params
                    &&& unlock_result(pair.1@, secret_chars(*password), salt@, kdf_params)
                        == Ok::<_, UnlockFailure>(Map::<Seq<char>, Seq<char>>::empty())
                },
                Err(e) => !kdf_ok(secret_chars(*password), salt@, kdf_params) && e matches
                    EnjectError::Config(_),
            },
    {
        let mut store = PasswordStore { store_path, kdf_params, salt, secrets: None };
        store.secrets = Some(StringMap::new());
        match store.save(password) {
            Ok(blob) => Ok((store, blob)),
            Err(e) => {
                proof {
                    let m = store.secrets->Some_0;
                    assert(m.key_seq().len() == 0 && m.val_seq().len() == 0) by {
                        m.lemma_wf_facts();
                    }
                    assert(encodable(m.key_seq(), m.val_seq()));
                    assert(encode_spec(m.key_seq(), m.val_seq()).len() == 4);
                }
                match e {
                    EnjectError::Config(detail) => Err(EnjectError::Config(detail)),
                    _ => {
                        proof {
                            assert(false);
                        }
                        Err(EnjectError::Config(String::new()))
                    },
                }
            },
        }
    }

    /// Reads one secret; `None` when the key is not in the map. An
    /// error only on a locked store.
    pub fn get(&self, key: &str) -> (r: Result<Option<SecretValue>, EnjectError>)
        requires
            self.wf(),
        ensures
            match r {
                Ok(found) => {
                    &&& self.is_unlocked()
                    &&& match found {
                        Some(v) => self.secrets_view().contains_key(key@) && secret_chars(v)
                            == self.secrets_view()[key@],
                        None => !self.secrets_view().contains_key(key@),
                    }
                },
                Err(e) => !self.is_unlocked() && e matches EnjectError::CorruptStore(_),
            },
    {
        let map = match &self.secrets {
            Some(map) => map,
            None => {
                return Err(EnjectError::CorruptStore(String::from_str("store not unlocked")));
            },
        };
        match map.get(key) {
            Some(value) => Ok(Some(SecretValue::new(value.clone()))),
            None => Ok(None),
        }
    }

    /// Binds a secret name to a value in the in-memory map; only `save`
    /// touches the file. An error only on a locked store.
    pub fn set(&mut self, key: &str, value: SecretValue) -> (r: Result<(), EnjectError>)
        requires
            old(self).wf(),
        ensures
            final(self).wf(),
            final(self).same_config(old(self)),
            final(self).is_unlocked() == old(self).is_unlocked(),
            match r {
                Ok(()) => old(self).is_unlocked() && final(self).secrets_view() == old(
                    self,
                ).secrets_view().insert(key@, secret_chars(value)),
                Err(e) => {
                    &&& !old(self).is_unlocked()
                    &&& e matches EnjectError::CorruptStore(_)
                    &&& final(self).secrets_view() == old(self).secrets_view()
                },
            },
    {
        match &mut self.secrets {
            Some(map) => {
                let text = value.expose().clone();
                map.insert(String::from_str(key), text);
                Ok(())
            },
            None => Err(EnjectError::CorruptStore(String::from_str("store not unlocked"))),
        }
    }

    /// Removes a secret; reports whether it was there. An error only on
    /// a locked store.
    pub fn delete(&mut self, key: &str) -> (r: Result<bool, EnjectError>)
        requires
            old(self).wf(),
        ensures
            final(self).wf(),
            final(self).same_config(old(self)),
            final(self).is_unlocked() == old(self).is_unlocked(),
            match r {
                Ok(found) => {
                    &&& old(self).is_unlocked()
                    &&& found == old(self).secrets_view().contains_key(key@)
                    &&& final(self).secrets_view() == old(self).secrets_view().remove(key@)
                },
                Err(e) => {
                    &&& !old(self).is_unlocked()
                    &&& e matches EnjectError::CorruptStore(_)
                    &&& final(self).secrets_view() == old(self).secrets_view()
                },
            },
    {
        match &mut self.secrets {
            Some(map) => Ok(map.remove(key)),
            None => Err(EnjectError::CorruptStore(String::from_str("store not unlocked"))),
        }
    }

    /// All secret names, in strictly ascending lexicographic order,
    /// whatever order they were set in. An error only on a locked store.
    pub fn list(&self) -> (r: Result<Vec<String>, EnjectError>)
        requires
            self.wf(),
        ensures
            match r {
                Ok(keys) => self.is_unlocked() && sorted_key_list(keys@, self.secrets_view()),
                Err(e) => !self.is_unlocked() && e matches EnjectError::CorruptStore(_),
            },
    {
        match &self.secrets {
            Some(map) => {
                let keys = map.keys_sorted();
                proof {
                    assert(self.secrets_view() == map@);
                    assert(sorted_key_list(keys@, self.secrets_view()));
                }
                Ok(keys)
            },
            None => Err(EnjectError::CorruptStore(String::from_str("store not unlocked"))),
        }
    }
}

/// The decrypted map as one value, for resolving references. An error
/// only on a locked store.
pub fn build_secrets_map(store: &PasswordStore) -> (r: Result<StringMap, EnjectError>)
    requires
        store.wf(),
    ensures
        match r {
            Ok(m) => {
                &&& store.is_unlocked()
                &&& m.wf()
                &&& m@ == store.secrets_view()
            },
            Err(e) => !store.is_unlocked() && e matches EnjectError::CorruptStore(_),
        },
{
    match store.secrets_snapshot() {
        Some(m) => Ok(m),
        None => Err(EnjectError::CorruptStore(String::from_str("store not unlocked"))),
    }
}

impl PasswordStore {
    /// A copy of the decrypted map, while unlocked.
    fn secrets_snapshot(&self) -> (r: Option<StringMap>)
        requires
            self.wf(),
        ensures
            match r {
                Some(m) => self.is_unlocked() && m.wf() && m@ == self.secrets_view(),
                None => !self.is_unlocked(),
            },
    {
        match &self.secrets {
            Some(map) => Some(map.duplicate()),
            None => None,
        }
    }
}

/// `delete` answers `true` exactly once: after a key is set, the first
/// removal reports it was there, and the map afterwards no longer holds
/// it, so a second removal — or one for a key never set — reports
/// `false`.
pub proof fn lemma_delete_exactly_once(
    m: Map<Seq<char>, Seq<char>>,
    key: Seq<char>,
    value: Seq<char>,
)
    ensures
        m.insert(key, value).contains_key(key),
        !m.insert(key, value).remove(key).contains_key(key),
        !m.contains_key(key) ==> m.remove(key) == m,
        !m.contains_key(key) ==> !m.remove(key).contains_key(key),
{
    if !m.contains_key(key) {
        assert(m.remove(key) =~= m);
    }
}

} // verus!
