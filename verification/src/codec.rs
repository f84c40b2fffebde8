//! The canonical byte encoding of a secret map.
//!
//! The encrypted store's plaintext is exactly this encoding: a 32-bit
//! little-endian entry count, then for each entry the key and the value,
//! each written as a 32-bit character count followed by one 32-bit code
//! point per character. Decoding accepts exactly the bytes this encoding
//! produces for a well-formed map, and rejects everything else.

use vstd::prelude::*;
use vstd::string::StringExecFns;
use vstd::utf8::is_scalar;
use crate::error::EnjectError;
use crate::string_map::{StringMap, strictly_sorted};

verus! {

/// Relies on `char::from_u32` of core: `Some` exactly for Unicode scalar
/// values, giving back the `char` with that code point.
pub assume_specification[ char::from_u32 ](u: u32) -> (r: Option<char>)
    ensures
        r is Some <==> is_scalar(u),
        r matches Some(c) ==> c as u32 == u,
;

/// Relies on `String::push` of std: appends one character.
pub assume_specification[ String::push ](s: &mut String, c: char)
    ensures
        final(s)@ == old(s)@.push(c),
;

/// The four little-endian bytes of a 32-bit value.
pub open spec fn le32(x: u32) -> Seq<u8> {
    seq![
        (x % 256) as u8,
        ((x / 256) % 256) as u8,
        ((x / 65536) % 256) as u8,
        ((x / 16777216) % 256) as u8,
    ]
}

/// The 32-bit value at the head of a byte sequence.
pub open spec fn le32_val(b: Seq<u8>) -> u32
    recommends
        b.len() >= 4,
{
    (b[0] + b[1] * 256 + b[2] * 65536 + b[3] * 16777216) as u32
}

/// Reading back the four bytes of `le32` gives the value again.
pub proof fn lemma_le32_val(x: u32, rest: Seq<u8>)
    ensures
        le32_val(le32(x) + rest) == x,
        (le32(x) + rest).skip(4) =~= rest,
{
    let b = le32(x) + rest;
    assert(b[0] == (x % 256) as u8);
    assert(b[1] == ((x / 256) % 256) as u8);
    assert(b[2] == ((x / 65536) % 256) as u8);
    assert(b[3] == ((x / 16777216) % 256) as u8);
    assert(x % 256 + ((x / 256) % 256) * 256 + ((x / 65536) % 256) * 65536 + ((x / 16777216) % 256)
        * 16777216 == x) by (nonlinear_arith);
}

/// One 32-bit code point per character.
pub open spec fn enc_chars(s: Seq<char>) -> Seq<u8>
    decreases s.len(),
{
    if s.len() == 0 {
        Seq::empty()
    } else {
        le32(s[0] as u32) + enc_chars(s.skip(1))
    }
}

/// A string: its character count, then its code points.
pub open spec fn enc_str(s: Seq<char>) -> Seq<u8> {
    le32(s.len() as u32) + enc_chars(s)
}

/// The entries of two parallel columns, in order.
pub open spec fn enc_entries(keys: Seq<Seq<char>>, vals: Seq<Seq<char>>) -> Seq<u8>
    decreases keys.len(),
{
    if keys.len() == 0 || vals.len() == 0 {
        Seq::empty()
    } else {
        enc_str(keys[0]) + enc_str(vals[0]) + enc_entries(keys.skip(1), vals.skip(1))
    }
}

/// The whole store payload: entry count, then the entries.
pub open spec fn encode_spec(keys: Seq<Seq<char>>, vals: Seq<Seq<char>>) -> Seq<u8> {
    le32(keys.len() as u32) + enc_entries(keys, vals)
}

/// All counts of the encoding fit in 32 bits.
pub open spec fn encodable(keys: Seq<Seq<char>>, vals: Seq<Seq<char>>) -> bool {
    &&& keys.len() == vals.len()
    &&& keys.len() <= 0xFFFF_FFFF
    &&& forall|i: int| 0 <= i < keys.len() ==> (#[trigger] keys[i]).len() <= 0xFFFF_FFFF
    &&& forall|i: int| 0 <= i < vals.len() ==> (#[trigger] vals[i]).len() <= 0xFFFF_FFFF
}

/// Reads the 32-bit value at the head, if four bytes are there.
pub open spec fn dec_u32(b: Seq<u8>) -> Option<(u32, Seq<u8>)> {
    if b.len() < 4 {
        None
    } else {
        Some((le32_val(b), b.skip(4)))
    }
}

/// Reads `n` characters, rejecting any code point that is no scalar.
pub open spec fn dec_chars(b: Seq<u8>, n: nat) -> Option<(Seq<char>, Seq<u8>)>
    decreases n,
{
    if n == 0 {
        Some((Seq::empty(), b))
    } else if b.len() < 4 {
        None
    } else {
        let u = le32_val(b);
        if is_scalar(u) {
            match dec_chars(b.skip(4), (n - 1) as nat) {
                Some(tail) => Some((seq![u as char] + tail.0, tail.1)),
                None => None,
            }
        } else {
            None
        }
    }
}

/// Reads one length-prefixed string.
pub open spec fn dec_str(b: Seq<u8>) -> Option<(Seq<char>, Seq<u8>)> {
    match dec_u32(b) {
        Some(head) => dec_chars(head.1, head.0 as nat),
        None => None,
    }
}

/// Reads `n` key/value entries.
pub open spec fn dec_entries(b: Seq<u8>, n: nat) -> Option<(Seq<Seq<char>>, Seq<Seq<char>>, Seq<
    u8,
>)>
    decreases n,
{
    if n == 0 {
        Some((Seq::empty(), Seq::empty(), b))
    } else {
        match dec_str(b) {
            Some(key) => match dec_str(key.1) {
                Some(val) => match dec_entries(val.1, (n - 1) as nat) {
                    Some(tail) => Some(
                        (seq![key.0] + tail.0, seq![val.0] + tail.1, tail.2),
                    ),
                    None => None,
                },
                None => None,
            },
            None => None,
        }
    }
}

/// Reads a whole payload; trailing bytes make it invalid.
pub open spec fn decode_spec(b: Seq<u8>) -> Option<(Seq<Seq<char>>, Seq<Seq<char>>)> {
    match dec_u32(b) {
        Some(head) => match dec_entries(head.1, head.0 as nat) {
            Some(cols) => if cols.2.len() == 0 {
                Some((cols.0, cols.1))
            } else {
                None
            },
            None => None,
        },
        None => None,
    }
}

/// Decoding reads back exactly the characters that were encoded, and
/// leaves the continuation untouched.
pub proof fn lemma_dec_chars_enc(s: Seq<char>, rest: Seq<u8>)
    ensures
        dec_chars(enc_chars(s) + rest, s.len()) == Some((s, rest)),
    decreases s.len(),
{
    if s.len() == 0 {
        assert(enc_chars(s) + rest =~= rest);
    } else {
        let b = enc_chars(s) + rest;
        let u = s[0] as u32;
        assert(b =~= le32(u) + (enc_chars(s.skip(1)) + rest));
        lemma_le32_val(u, enc_chars(s.skip(1)) + rest);
        vstd::utf8::char_is_scalar(s[0]);
        vstd::utf8::char_u32_cast(s[0], u);
        lemma_dec_chars_enc(s.skip(1), rest);
        assert(b.skip(4) =~= enc_chars(s.skip(1)) + rest);
        assert(seq![u as char] + s.skip(1) =~= s);
    }
}

/// Decoding reads back exactly the string that was encoded.
pub proof fn lemma_dec_str_enc(s: Seq<char>, rest: Seq<u8>)
    requires
        s.len() <= 0xFFFF_FFFF,
    ensures
        dec_str(enc_str(s) + rest) == Some((s, rest)),
{
    let n = s.len() as u32;
    let b = enc_str(s) + rest;
    assert(b =~= le32(n) + (enc_chars(s) + rest));
    lemma_le32_val(n, enc_chars(s) + rest);
    assert(n as nat == s.len());
    lemma_dec_chars_enc(s, rest);
}

/// Decoding reads back exactly the entries that were encoded.
pub proof fn lemma_dec_entries_enc(keys: Seq<Seq<char>>, vals: Seq<Seq<char>>, rest: Seq<u8>)
    requires
        encodable(keys, vals),
    ensures
        dec_entries(enc_entries(keys, vals) + rest, keys.len()) == Some((keys, vals, rest)),
    decreases keys.len(),
{
    if keys.len() == 0 {
        assert(enc_entries(keys, vals) + rest =~= rest);
        assert(Seq::<Seq<char>>::empty() =~= keys);
        assert(Seq::<Seq<char>>::empty() =~= vals);
    } else {
        let b = enc_entries(keys, vals) + rest;
        let tail_bytes = enc_entries(keys.skip(1), vals.skip(1)) + rest;
        assert(b =~= enc_str(keys[0]) + (enc_str(vals[0]) + tail_bytes));
        lemma_dec_str_enc(keys[0], enc_str(vals[0]) + tail_bytes);
        lemma_dec_str_enc(vals[0], tail_bytes);
        assert(encodable(keys.skip(1), vals.skip(1)));
        lemma_dec_entries_enc(keys.skip(1), vals.skip(1), rest);
        assert(seq![keys[0]] + keys.skip(1) =~= keys);
        assert(seq![vals[0]] + vals.skip(1) =~= vals);
    }
}

/// Appending a character extends the encoding by one code point.
proof fn lemma_enc_chars_push(s: Seq<char>, c: char)
    ensures
        enc_chars(s.push(c)) == enc_chars(s) + le32(c as u32),
    decreases s.len(),
{
    if s.len() == 0 {
        assert(s.push(c)[0] == c);
        assert(s.push(c).skip(1) =~= Seq::<char>::empty());
        assert(enc_chars(s.push(c)) == le32(c as u32) + enc_chars(Seq::<char>::empty()));
        assert(le32(c as u32) + Seq::<u8>::empty() =~= Seq::<u8>::empty() + le32(c as u32));
    } else {
        assert(s.push(c)[0] == s[0]);
        assert(s.push(c).skip(1) =~= s.skip(1).push(c));
        lemma_enc_chars_push(s.skip(1), c);
        assert(enc_chars(s.push(c)) == le32(s[0] as u32) + (enc_chars(s.skip(1)) + le32(
            c as u32,
        )));
        assert(le32(s[0] as u32) + (enc_chars(s.skip(1)) + le32(c as u32)) =~= (le32(s[0] as u32)
            + enc_chars(s.skip(1))) + le32(c as u32));
    }
}

/// Appending an entry extends the encoding by one key and one value.
proof fn lemma_enc_entries_push(keys: Seq<Seq<char>>, vals: Seq<Seq<char>>, k: Seq<char>, v: Seq<
    char,
>)
    requires
        keys.len() == vals.len(),
    ensures
        enc_entries(keys.push(k), vals.push(v)) == enc_entries(keys, vals) + enc_str(k) + enc_str(
            v,
        ),
    decreases keys.len(),
{
    if keys.len() == 0 {
        assert(keys.push(k).skip(1) =~= Seq::<Seq<char>>::empty());
        assert(vals.push(v).skip(1) =~= Seq::<Seq<char>>::empty());
        assert(enc_entries(keys.push(k), vals.push(v)) == enc_str(k) + enc_str(v) + enc_entries(
            Seq::<Seq<char>>::empty(),
            Seq::<Seq<char>>::empty(),
        ));
        assert(enc_str(k) + enc_str(v) + Seq::<u8>::empty() =~= Seq::<u8>::empty() + enc_str(k)
            + enc_str(v));
    } else {
        assert(keys.push(k)[0] == keys[0]);
        assert(vals.push(v)[0] == vals[0]);
        assert(keys.push(k).skip(1) =~= keys.skip(1).push(k));
        assert(vals.push(v).skip(1) =~= vals.skip(1).push(v));
        lemma_enc_entries_push(keys.skip(1), vals.skip(1), k, v);
        assert(enc_entries(keys.push(k), vals.push(v)) == enc_str(keys[0]) + enc_str(vals[0]) + (
        enc_entries(keys.skip(1), vals.skip(1)) + enc_str(k) + enc_str(v)));
        assert(enc_str(keys[0]) + enc_str(vals[0]) + (enc_entries(keys.skip(1), vals.skip(1))
            + enc_str(k) + enc_str(v)) =~= (enc_str(keys[0]) + enc_str(vals[0]) + enc_entries(
            keys.skip(1),
            vals.skip(1),
        )) + enc_str(k) + enc_str(v));
    }
}

/// Too few bytes for `n` code points never decode.
proof fn lemma_dec_chars_short(b: Seq<u8>, n: nat)
    requires
        b.len() < 4 * n,
    ensures
        dec_chars(b, n) is None,
    decreases n,
{
    if n > 0 && b.len() >= 4 {
        lemma_dec_chars_short(b.skip(4), (n - 1) as nat);
    }
}

/// Round trip: decoding an encoded map gives the same two columns back.
pub proof fn lemma_decode_encode(keys: Seq<Seq<char>>, vals: Seq<Seq<char>>)
    requires
        encodable(keys, vals),
    ensures
        decode_spec(encode_spec(keys, vals)) == Some((keys, vals)),
{
    let n = keys.len() as u32;
    let b = encode_spec(keys, vals);
    assert(b =~= le32(n) + (enc_entries(keys, vals) + Seq::<u8>::empty()));
    lemma_le32_val(n, enc_entries(keys, vals) + Seq::<u8>::empty());
    assert(b.skip(4) =~= enc_entries(keys, vals) + Seq::<u8>::empty());
    lemma_dec_entries_enc(keys, vals, Seq::<u8>::empty());
}

/// Appends the four little-endian bytes of a 32-bit value.
fn push_le32(out: &mut Vec<u8>, x: u32)
    ensures
        final(out)@ == old(out)@ + le32(x),
{
    out.push((x % 256) as u8);
    out.push(((x / 256) % 256) as u8);
    out.push(((x / 65536) % 256) as u8);
    out.push(((x / 16777216) % 256) as u8);
    proof {
        assert(out@ =~= old(out)@ + le32(x));
    }
}

/// Appends one length-prefixed string; refuses one whose character count
/// does not fit in 32 bits.
fn push_str(out: &mut Vec<u8>, s: &String) -> (ok: bool)
    ensures
        ok ==> s@.len() <= 0xFFFF_FFFF && final(out)@ == old(out)@ + enc_str(s@),
        !ok ==> s@.len() > 0xFFFF_FFFF,
{
    let n = s.as_str().unicode_len();
    if n as u64 > 0xFFFF_FFFFu64 {
        return false;
    }
    push_le32(out, n as u32);
    let ghost mid = out@;
    let mut j: usize = 0;
    while j < n
        invariant
            0 <= j <= n,
            n == s@.len(),
            out@ == mid + enc_chars(s@.take(j as int)),
        decreases n - j,
    {
        let c = s.as_str().get_char(j);
        push_le32(out, c as u32);
        proof {
            lemma_enc_chars_push(s@.take(j as int), c);
            assert(s@.take(j + 1) =~= s@.take(j as int).push(c));
            assert(out@ =~= mid + enc_chars(s@.take(j + 1)));
        }
        j = j + 1;
    }
    proof {
        assert(s@.take(n as int) =~= s@);
        assert(out@ =~= old(out)@ + enc_str(s@));
    }
    true
}

/// Serializes a map to the canonical store payload.
///
/// Succeeds exactly when every count of the encoding fits in 32 bits; the
/// result is then `encode_spec` of the map's columns.
pub fn encode_store(m: &StringMap) -> (r: Result<Vec<u8>, EnjectError>)
    requires
        m.wf(),
    ensures
        match r {
            Ok(out) => encodable(m.key_seq(), m.val_seq()) && out@ == encode_spec(
                m.key_seq(),
                m.val_seq(),
            ),
            Err(e) => !encodable(m.key_seq(), m.val_seq()) && e matches
                EnjectError::Serialization(_),
        },
{
    proof {
        m.lemma_wf_facts();
    }
    let n = m.len();
    if n as u64 > 0xFFFF_FFFFu64 {
        return Err(EnjectError::Serialization(String::from_str("too many entries")));
    }
    let mut out: Vec<u8> = Vec::new();
    push_le32(&mut out, n as u32);
    let ghost head = out@;
    let mut i: usize = 0;
    while i < n
        invariant
            0 <= i <= n,
            m.wf(),
            n <= 0xFFFF_FFFF,
            n == m.key_seq().len(),
            n == m.val_seq().len(),
            head == Seq::<u8>::empty() + le32(n as u32),
            out@ == head + enc_entries(m.key_seq().take(i as int), m.val_seq().take(i as int)),
            forall|j: int| 0 <= j < i ==> (#[trigger] m.key_seq()[j]).len() <= 0xFFFF_FFFF,
            forall|j: int| 0 <= j < i ==> (#[trigger] m.val_seq()[j]).len() <= 0xFFFF_FFFF,
        decreases n - i,
    {
        let ghost ks = m.key_seq().take(i as int);
        let ghost vs = m.val_seq().take(i as int);
        if !push_str(&mut out, m.key_at(i)) {
            return Err(EnjectError::Serialization(String::from_str("key too long")));
        }
        if !push_str(&mut out, m.val_at(i)) {
            return Err(EnjectError::Serialization(String::from_str("value too long")));
        }
        proof {
            lemma_enc_entries_push(ks, vs, m.key_seq()[i as int], m.val_seq()[i as int]);
            assert(m.key_seq().take(i + 1) =~= ks.push(m.key_seq()[i as int]));
            assert(m.val_seq().take(i + 1) =~= vs.push(m.val_seq()[i as int]));
            assert(out@ =~= head + enc_entries(m.key_seq().take(i + 1), m.val_seq().take(i + 1)));
        }
        i = i + 1;
    }
    proof {
        assert(m.key_seq().take(n as int) =~= m.key_seq());
        assert(m.val_seq().take(n as int) =~= m.val_seq());
        assert(out@ =~= encode_spec(m.key_seq(), m.val_seq()));
    }
    Ok(out)
}

/// Reads the 32-bit value at a byte position.
fn read_u32(bytes: &Vec<u8>, pos: usize) -> (r: Option<(u32, usize)>)
    requires
        pos <= bytes@.len(),
    ensures
        match r {
            Some(head) => {
                &&& head.1 == pos + 4
                &&& head.1 <= bytes@.len()
                &&& dec_u32(bytes@.skip(pos as int)) == Some(
                    (head.0, bytes@.skip(head.1 as int)),
                )
            },
            None => dec_u32(bytes@.skip(pos as int)) is None,
        },
{
    if bytes.len() - pos < 4 {
        return None;
    }
    let b0 = bytes[pos] as u32;
    let b1 = bytes[pos + 1] as u32;
    let b2 = bytes[pos + 2] as u32;
    let b3 = bytes[pos + 3] as u32;
    let x = b0 + b1 * 256 + b2 * 65536 + b3 * 16777216;
    proof {
        let tail = bytes@.skip(pos as int);
        assert(tail[0] == bytes@[pos as int]);
        assert(tail[1] == bytes@[pos + 1]);
        assert(tail[2] == bytes@[pos + 2]);
        assert(tail[3] == bytes@[pos + 3]);
        assert(tail.skip(4) =~= bytes@.skip(pos + 4));
    }
    Some((x, pos + 4))
}

/// Reads one length-prefixed string at a byte position.
fn read_string(bytes: &Vec<u8>, pos: usize) -> (r: Option<(String, usize)>)
    requires
        pos <= bytes@.len(),
    ensures
        match r {
            Some(head) => {
                &&& head.1 <= bytes@.len()
                &&& dec_str(bytes@.skip(pos as int)) == Some(
                    (head.0@, bytes@.skip(head.1 as int)),
                )
            },
            None => dec_str(bytes@.skip(pos as int)) is None,
        },
{
    let (n, mut p) = match read_u32(bytes, pos) {
        Some(head) => head,
        None => {
            return None;
        },
    };
    if (((bytes.len() - p) / 4) as u64) < n as u64 {
        proof {
            lemma_dec_chars_short(bytes@.skip(p as int), n as nat);
        }
        return None;
    }
    let count = n as usize;
    let ghost p0 = p as int;
    let mut s = String::new();
    proof {
        let d = dec_chars(bytes@.skip(p0), n as nat);
        assert(d matches Some(tail) ==> s@ + tail.0 =~= tail.0);
    }
    let mut j: usize = 0;
    while j < count
        invariant
            0 <= j <= count,
            count == n as nat,
            s@.len() == j,
            p == p0 + 4 * j,
            p0 + 4 * count <= bytes@.len(),
            pos <= bytes@.len(),
            dec_u32(bytes@.skip(pos as int)) == Some((n, bytes@.skip(p0))),
            dec_chars(bytes@.skip(p0), n as nat) == match dec_chars(
                bytes@.skip(p as int),
                (count - j) as nat,
            ) {
                Some(tail) => Some((s@ + tail.0, tail.1)),
                None => None::<(Seq<char>, Seq<u8>)>,
            },
        decreases count - j,
    {
        let (u, p2) = match read_u32(bytes, p) {
            Some(head) => head,
            None => {
                proof {
                    assert(bytes@.skip(p as int).len() >= 4);
                    assert(false);
                }
                return None;
            },
        };
        let c = match char::from_u32(u) {
            Some(c) => c,
            None => {
                proof {
                    assert(dec_chars(bytes@.skip(p as int), (count - j) as nat) is None);
                }
                return None;
            },
        };
        proof {
            let here = bytes@.skip(p as int);
            assert(le32_val(here) == u);
            vstd::utf8::char_u32_cast(c, u);
            assert(dec_chars(here, (count - j) as nat) == match dec_chars(
                bytes@.skip(p2 as int),
                (count - j - 1) as nat,
            ) {
                Some(tail) => Some((seq![c] + tail.0, tail.1)),
                None => None::<(Seq<char>, Seq<u8>)>,
            });
        }
        let ghost s_old = s@;
        s.push(c);
        proof {
            let d = dec_chars(bytes@.skip(p2 as int), (count - j - 1) as nat);
            assert(d matches Some(tail) ==> s_old + (seq![c] + tail.0) =~= s@ + tail.0);
        }
        p = p2;
        j = j + 1;
    }
    proof {
        assert(dec_chars(bytes@.skip(p as int), 0) == Some(
            (Seq::<char>::empty(), bytes@.skip(p as int)),
        ));
        assert(s@ + Seq::<char>::empty() =~= s@);
    }
    Some((s, p))
}

/// Parses a store payload back into a map.
///
/// `Some` exactly for the canonical encoding of a well-formed map: the
/// bytes must decode structurally and the keys must come strictly sorted.
pub fn decode_store(bytes: &Vec<u8>) -> (r: Option<StringMap>)
    ensures
        match r {
            Some(m) => m.wf() && decode_spec(bytes@) == Some((m.key_seq(), m.val_seq())),
            None => match decode_spec(bytes@) {
                Some(cols) => !strictly_sorted(cols.0),
                None => true,
            },
        },
{
    proof {
        assert(bytes@.skip(0) =~= bytes@);
    }
    let (n, mut p) = match read_u32(bytes, 0) {
        Some(head) => head,
        None => {
            return None;
        },
    };
    let ghost p0 = p as int;
    let mut keys: Vec<String> = Vec::new();
    let mut vals: Vec<String> = Vec::new();
    proof {
        assert(keys@.map_values(|k: String| k@) =~= Seq::<Seq<char>>::empty());
        assert(vals@.map_values(|v: String| v@) =~= Seq::<Seq<char>>::empty());
        let d = dec_entries(bytes@.skip(p0), n as nat);
        assert(d matches Some(tail) ==> Seq::<Seq<char>>::empty() + tail.0 =~= tail.0);
        assert(d matches Some(tail) ==> Seq::<Seq<char>>::empty() + tail.1 =~= tail.1);
    }
    let mut i: u32 = 0;
    while i < n
        invariant
            0 <= i <= n,
            p <= bytes@.len(),
            keys@.len() == i,
            vals@.len() == i,
            p0 == 4,
            dec_u32(bytes@) == Some((n, bytes@.skip(p0))),
            dec_entries(bytes@.skip(p0), n as nat) == match dec_entries(
                bytes@.skip(p as int),
                (n - i) as nat,
            ) {
                Some(tail) => Some(
                    (
                        keys@.map_values(|k: String| k@) + tail.0,
                        vals@.map_values(|v: String| v@) + tail.1,
                        tail.2,
                    ),
                ),
                None => None::<(Seq<Seq<char>>, Seq<Seq<char>>, Seq<u8>)>,
            },
        decreases n - i,
    {
        let (k, p1) = match read_string(bytes, p) {
            Some(head) => head,
            None => {
                proof {
                    assert(dec_entries(bytes@.skip(p as int), (n - i) as nat) is None);
                    assert(decode_spec(bytes@) is None);
                }
                return None;
            },
        };
        let (v, p2) = match read_string(bytes, p1) {
            Some(head) => head,
            None => {
                proof {
                    assert(dec_entries(bytes@.skip(p as int), (n - i) as nat) is None);
                    assert(decode_spec(bytes@) is None);
                }
                return None;
            },
        };
        proof {
            assert(dec_entries(bytes@.skip(p as int), (n - i) as nat) == match dec_entries(
                bytes@.skip(p2 as int),
                (n - i - 1) as nat,
            ) {
                Some(tail) => Some((seq![k@] + tail.0, seq![v@] + tail.1, tail.2)),
                None => None::<(Seq<Seq<char>>, Seq<Seq<char>>, Seq<u8>)>,
            });
        }
        let ghost ks_old = keys@.map_values(|k: String| k@);
        let ghost vs_old = vals@.map_values(|v: String| v@);
        let ghost kk = k@;
        let ghost vv = v@;
        keys.push(k);
        vals.push(v);
        proof {
            assert(keys@.map_values(|q: String| q@) =~= ks_old.push(kk));
            assert(vals@.map_values(|q: String| q@) =~= vs_old.push(vv));
            let d = dec_entries(bytes@.skip(p2 as int), (n - i - 1) as nat);
            assert(d matches Some(tail) ==> ks_old + (seq![kk] + tail.0) =~= ks_old.push(kk)
                + tail.0);
            assert(d matches Some(tail) ==> vs_old + (seq![vv] + tail.1) =~= vs_old.push(vv)
                + tail.1);
        }
        p = p2;
        i = i + 1;
    }
    proof {
        assert(dec_entries(bytes@.skip(p as int), 0) == Some(
            (Seq::<Seq<char>>::empty(), Seq::<Seq<char>>::empty(), bytes@.skip(p as int)),
        ));
        assert(keys@.map_values(|k: String| k@) + Seq::<Seq<char>>::empty() =~= keys@.map_values(
            |k: String| k@,
        ));
        assert(vals@.map_values(|v: String| v@) + Seq::<Seq<char>>::empty() =~= vals@.map_values(
            |v: String| v@,
        ));
    }
    if p != bytes.len() {
        proof {
            assert(bytes@.skip(p as int).len() != 0);
        }
        return None;
    }
    proof {
        assert(bytes@.skip(p as int).len() == 0);
    }
    StringMap::from_columns(keys, vals)
}

} // verus!
