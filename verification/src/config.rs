//! The store's configuration: KDF parameters and the hex-encoded salt,
//! and the layout of the configuration directory.
//!
//! Reading and writing the configuration file, and asking the file
//! system which directories exist, is the caller's business; the
//! functions here only decide and compute. `enject_dir` is told whether
//! each candidate directory exists and picks the one the store uses.

use vstd::prelude::*;
use vstd::string::{StrSliceExecFns, StringExecFns};
use crate::error::EnjectError;
use crate::store::KdfParams;

verus! {

/// Whether a character is a hexadecimal digit.
pub open spec fn is_hex_digit(c: char) -> bool {
    (48 <= c as u32 && c as u32 <= 57) || (97 <= c as u32 && c as u32 <= 102) || (65 <= c as u32
        && c as u32 <= 70)
}

/// The value of a hexadecimal digit.
pub open spec fn hex_digit_val(c: char) -> u8
    recommends
        is_hex_digit(c),
{
    if 48 <= c as u32 && c as u32 <= 57 {
        (c as u32 - 48) as u8
    } else if 97 <= c as u32 && c as u32 <= 102 {
        (c as u32 - 87) as u8
    } else {
        (c as u32 - 55) as u8
    }
}

/// A well-formed hex string: even length, hexadecimal digits only.
pub open spec fn valid_hex(s: Seq<char>) -> bool {
    &&& s.len() % 2 == 0
    &&& forall|i: int| 0 <= i < s.len() ==> is_hex_digit(#[trigger] s[i])
}

/// The bytes a hex string denotes, two digits each.
pub open spec fn hex_bytes(s: Seq<char>) -> Seq<u8> {
    Seq::new(s.len() / 2, |i: int| (hex_digit_val(s[2 * i]) * 16 + hex_digit_val(s[2 * i + 1])) as u8)
}

/// The lowercase hex digit for a value below sixteen.
pub open spec fn hex_digit_char(v: u8) -> char
    recommends
        v < 16,
{
    if v < 10 {
        ((48 + v) as u32) as char
    } else {
        ((87 + v) as u32) as char
    }
}

/// The lowercase hex encoding of a byte sequence.
pub open spec fn hex_of(b: Seq<u8>) -> Seq<char> {
    Seq::new(
        b.len() * 2,
        |i: int|
            if i % 2 == 0 {
                hex_digit_char(b[i / 2] / 16)
            } else {
                hex_digit_char(b[i / 2] % 16)
            },
    )
}

/// The configuration that travels with a store: which backend, the KDF
/// and its costs, and the salt as lowercase hex.
#[derive(Debug)]
pub struct Config {
    pub backend: String,
    pub version: u32,
    pub kdf: String,
    pub m_cost: u32,
    pub t_cost: u32,
    pub p_cost: u32,
    pub salt: String,
}

impl Config {
    /// A fresh configuration with the default costs and the given salt.
    pub fn default_new(salt_hex: String) -> (r: Config)
        ensures
            r.backend@ == "password"@,
            r.version == 1,
            r.kdf@ == "argon2id"@,
            r.m_cost == 65536,
            r.t_cost == 3,
            r.p_cost == 4,
            r.salt@ == salt_hex@,
    {
        let kdf = KdfParams::default();
        Config {
            backend: String::from_str("password"),
            version: 1,
            kdf: String::from_str("argon2id"),
            m_cost: kdf.m_cost,
            t_cost: kdf.t_cost,
            p_cost: kdf.p_cost,
            salt: salt_hex,
        }
    }

    /// The KDF cost parameters this configuration carries.
    pub fn kdf_params(&self) -> (r: KdfParams)
        ensures
            r == (KdfParams { m_cost: self.m_cost, t_cost: self.t_cost, p_cost: self.p_cost }),
    {
        KdfParams { m_cost: self.m_cost, t_cost: self.t_cost, p_cost: self.p_cost }
    }

    /// The salt as bytes; an error exactly when the field is not a
    /// well-formed hex string.
    pub fn salt_bytes(&self) -> (r: Result<Vec<u8>, EnjectError>)
        ensures
            match r {
                Ok(b) => valid_hex(self.salt@) && b@ == hex_bytes(self.salt@),
                Err(e) => !valid_hex(self.salt@) && e matches EnjectError::Config(_),
            },
    {
        hex_decode(&self.salt)
    }
}

/// Turns a hex string into bytes; an error exactly on odd length or a
/// character that is no hex digit.
pub fn hex_decode(s: &String) -> (r: Result<Vec<u8>, EnjectError>)
    ensures
        match r {
            Ok(b) => valid_hex(s@) && b@ == hex_bytes(s@),
            Err(e) => !valid_hex(s@) && e matches EnjectError::Config(_),
        },
{
    let n = s.as_str().unicode_len();
    if n % 2 != 0 {
        return Err(EnjectError::Config(String::from_str("invalid hex string")));
    }
    let mut out: Vec<u8> = Vec::new();
    let mut i: usize = 0;
    while i < n
        invariant
            0 <= i <= n,
            i % 2 == 0,
            n % 2 == 0,
            n == s@.len(),
            out@.len() == i / 2,
            forall|j: int| 0 <= j < i ==> is_hex_digit(#[trigger] s@[j]),
            forall|j: int|
                0 <= j < i / 2 ==> out@[j] == (hex_digit_val(s@[2 * j]) * 16 + hex_digit_val(
                    s@[2 * j + 1],
                )) as u8,
        decreases n - i,
    {
        let hi = match hex_val(s.as_str().get_char(i)) {
            Some(v) => v,
            None => {
                return Err(EnjectError::Config(String::from_str("invalid hex string")));
            },
        };
        let lo = match hex_val(s.as_str().get_char(i + 1)) {
            Some(v) => v,
            None => {
                return Err(EnjectError::Config(String::from_str("invalid hex string")));
            },
        };
        out.push(hi * 16 + lo);
        i = i + 2;
    }
    proof {
        assert(out@ =~= hex_bytes(s@));
    }
    Ok(out)
}

/// The value of one hex digit, or nothing.
fn hex_val(c: char) -> (r: Option<u8>)
    ensures
        match r {
            Some(v) => is_hex_digit(c) && v == hex_digit_val(c) && v < 16,
            None => !is_hex_digit(c),
        },
{
    let u = c as u32;
    if 48 <= u && u <= 57 {
        Some((u - 48) as u8)
    } else if 97 <= u && u <= 102 {
        Some((u - 87) as u8)
    } else if 65 <= u && u <= 70 {
        Some((u - 55) as u8)
    } else {
        None
    }
}

/// Encodes bytes as lowercase hex, two digits per byte.
pub fn hex_encode(b: &Vec<u8>) -> (r: String)
    ensures
        r@ == hex_of(b@),
        valid_hex(r@),
        hex_bytes(r@) == b@,
{
    let n = b.len();
    let mut out = String::new();
    let mut i: usize = 0;
    while i < n
        invariant
            0 <= i <= n,
            n == b@.len(),
            out@ =~= hex_of(b@.take(i as int)),
        decreases n - i,
    {
        let byte = b[i];
        let mut hi = byte / 16;
        let mut lo = byte % 16;
        let hc = hex_char(hi);
        let lc = hex_char(lo);
        out.push(hc);
        out.push(lc);
        proof {
            assert(out@ =~= hex_of(b@.take(i + 1)));
        }
        i = i + 1;
    }
    proof {
        assert(b@.take(n as int) =~= b@);
        lemma_hex_roundtrip(b@);
    }
    out
}

/// The lowercase digit for a value below sixteen.
fn hex_char(v: u8) -> (r: char)
    requires
        v < 16,
    ensures
        r == hex_digit_char(v),
        is_hex_digit(r),
        hex_digit_val(r) == v,
{
    let u: u32 = if v < 10 {
        48 + v as u32
    } else {
        87 + v as u32
    };
    let copt = char::from_u32(u);
    proof {
        assert(vstd::utf8::is_scalar(u));
    }
    let c = copt.unwrap();
    proof {
        vstd::utf8::char_u32_cast(c, u);
    }
    c
}

/// Decoding a lowercase hex encoding gives the bytes back.
pub proof fn lemma_hex_roundtrip(b: Seq<u8>)
    ensures
        valid_hex(hex_of(b)),
        hex_bytes(hex_of(b)) == b,
{
    let s = hex_of(b);
    assert forall|i: int| 0 <= i < s.len() implies is_hex_digit(#[trigger] s[i]) by {
        let v = if i % 2 == 0 {
            b[i / 2] / 16
        } else {
            b[i / 2] % 16
        };
        assert(v < 16);
        assert(is_hex_digit(hex_digit_char(v)));
    }
    assert forall|j: int| 0 <= j < b.len() implies hex_bytes(s)[j] == b[j] by {
        let v = b[j];
        assert(s[2 * j] == hex_digit_char(v / 16));
        assert(s[2 * j + 1] == hex_digit_char(v % 16));
        assert(hex_digit_val(hex_digit_char(v / 16)) == v / 16);
        assert(hex_digit_val(hex_digit_char(v % 16)) == v % 16);
        assert((v / 16) * 16 + v % 16 == v) by (nonlinear_arith);
    }
    assert(hex_bytes(s) =~= b);
}

/// The directory the store lives in: `.enject` under the project root,
/// falling back to a legacy `.enveil` directory when only that one
/// exists.
pub open spec fn enject_dir_spec(root: Seq<char>, new_exists: bool, legacy_exists: bool) -> Seq<
    char,
> {
    if new_exists || !legacy_exists {
        root + "/.enject"@
    } else {
        root + "/.enveil"@
    }
}

/// Picks the configuration directory for a project root, given which of
/// the two candidate directories exist.
pub fn enject_dir(project_root: &str, new_exists: bool, legacy_exists: bool) -> (r: String)
    ensures
        r@ == enject_dir_spec(project_root@, new_exists, legacy_exists),
{
    if new_exists || !legacy_exists {
        String::from_str(project_root).concat("/.enject")
    } else {
        String::from_str(project_root).concat("/.enveil")
    }
}

/// The configuration file's path under the chosen directory.
pub fn config_path(project_root: &str, new_exists: bool, legacy_exists: bool) -> (r: String)
    ensures
        r@ == enject_dir_spec(project_root@, new_exists, legacy_exists) + "/config.toml"@,
{
    enject_dir(project_root, new_exists, legacy_exists).concat("/config.toml")
}

/// The store file's path under the chosen directory.
pub fn store_path(project_root: &str, new_exists: bool, legacy_exists: bool) -> (r: String)
    ensures
        r@ == enject_dir_spec(project_root@, new_exists, legacy_exists) + "/store"@,
{
    enject_dir(project_root, new_exists, legacy_exists).concat("/store")
}

} // verus!
