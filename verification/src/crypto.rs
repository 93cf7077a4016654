//! Cryptographic primitives. The ad hoc hash and XOR constructions that
//! a naive service might roll by hand provide no integrity guarantee, so
//! hashing, message authentication and password hashing are delegated to
//! vetted outside crates behind the trusted declarations below; every
//! rule built on top of them is verified against those contracts.
//! Reversible XOR "encryption" is omitted outright rather than
//! reproduced: it protects nothing, and this library deliberately
//! offers no substitute for it, hashing and message authentication
//! being its only cryptographic duties.

use vstd::prelude::*;

use crate::hex::hex_chars_of;
use crate::hex::hex_encode;
use crate::strutil::dec_bytes;
use crate::strutil::digit_byte;
use crate::strutil::dec_bytes_of;
use base64::Engine;
use hmac::KeyInit;
use hmac::Mac;
use sha2::Digest;

verus! {

use vstd::string::StringSliceAdditionalSpecFns;

/// The SHA-256 digest, a function of the input bytes alone.
pub uninterp spec fn sha256_of(data: Seq<u8>) -> Seq<u8>;

/// The HMAC-SHA-256 tag under `key` over `msg`, a function of both alone.
pub uninterp spec fn hmac_sha256_of(key: Seq<u8>, msg: Seq<u8>) -> Seq<u8>;

/// The unpadded base64url rendering of a byte sequence.
pub uninterp spec fn b64url_of(data: Seq<u8>) -> Seq<char>;

/// No character of `s` is a dot.
pub open spec fn dot_free(s: Seq<char>) -> bool {
    forall|i: int| 0 <= i < s.len() ==> #[trigger] s[i] != '.'
}

/// Whether the Argon2 verifier accepts `pwd` against the encoded hash.
pub uninterp spec fn argon2_matches(encoded: Seq<char>, pwd: Seq<u8>) -> bool;

/// Relies on sha2's Sha256 (the Digest trait): a 32-byte digest computed
/// from the input bytes alone.
#[verifier::external_body]
fn sha256_digest(data: &[u8]) -> (r: Vec<u8>)
    ensures
        r@ == sha256_of(data@),
        r@.len() == 32,
{
    sha2::Sha256::digest(data).to_vec()
}

/// Relies on hmac's Hmac<Sha256> (the Mac trait): a 32-byte tag computed
/// from the key and the message alone; any key length is accepted.
#[verifier::external_body]
pub(crate) fn hmac_sha256(key: &[u8], msg: &[u8]) -> (r: Vec<u8>)
    ensures
        r@ == hmac_sha256_of(key@, msg@),
        r@.len() == 32,
{
    let mut mac =
        <hmac::Hmac<sha2::Sha256>>::new_from_slice(key).expect("any key length is accepted");
    mac.update(msg);
    mac.finalize().into_bytes().to_vec()
}

/// Relies on hmac's Mac::verify_slice: a constant-time comparison of the
/// presented tag against the freshly computed HMAC-SHA-256 tag, true
/// exactly when they are equal.
#[verifier::external_body]
pub(crate) fn hmac_sha256_verify(key: &[u8], msg: &[u8], tag: &[u8]) -> (r: bool)
    ensures
        r == (tag@ == hmac_sha256_of(key@, msg@)),
{
    let mut mac =
        <hmac::Hmac<sha2::Sha256>>::new_from_slice(key).expect("any key length is accepted");
    mac.update(msg);
    mac.verify_slice(tag).is_ok()
}

/// Relies on base64's URL_SAFE_NO_PAD engine: the encoding is a function
/// of the input alone, and its alphabet (A-Z, a-z, 0-9, -, _) never
/// yields a dot, so a dot can separate two encoded fields.
#[verifier::external_body]
pub(crate) fn b64url_encode(data: &[u8]) -> (r: String)
    requires
        data@.len() < 0x1000_0000_0000_0000,
    ensures
        r@ == b64url_of(data@),
        dot_free(r@),
{
    base64::engine::general_purpose::URL_SAFE_NO_PAD.encode(data)
}

/// Whether `r` is the decoding of `s`: whenever `s` is the encoding of
/// some byte sequence, `r` holds exactly those bytes.
pub open spec fn decodes_every_encoding(r: Option<Vec<u8>>, s: Seq<char>) -> bool {
    forall|v: Seq<u8>| s == b64url_of(v) ==> (r matches Some(w) && w@ == v)
}

/// Relies on base64's URL_SAFE_NO_PAD engine: decoding succeeds exactly
/// on canonical encodings (the engine rejects padding, foreign symbols
/// and nonzero trailing bits) and inverts the encoder.
#[verifier::external_body]
pub(crate) fn b64url_decode(s: &str) -> (r: Option<Vec<u8>>)
    ensures
        r matches Some(v) ==> s@ == b64url_of(v@) && dot_free(s@),
        decodes_every_encoding(r, s@),
{
    match base64::engine::general_purpose::URL_SAFE_NO_PAD.decode(s) {
        Ok(v) => Some(v),
        Err(_) => None,
    }
}

/// Relies on rust-argon2's hash_encoded with the default (owasp2)
/// configuration: with a salt of 8 or more bytes it returns an encoded
/// hash string that its own verifier accepts for the same password.
#[verifier::external_body]
pub(crate) fn argon2_hash(pwd: &[u8], salt: &[u8]) -> (r: String)
    requires
        8 <= salt@.len() < 0x1_0000_0000,
        pwd@.len() < 0x1_0000_0000,
    ensures
        argon2_matches(r@, pwd@),
{
    argon2::hash_encoded(pwd, salt, &argon2::Config::default()).expect(
        "a fresh salt of valid length is accepted",
    )
}

/// Relies on rust-argon2's verify_encoded: recomputes the hash from the
/// parameters and salt stored in the encoded string and compares in
/// constant time; the outcome is a function of the two arguments alone,
/// and a malformed encoded string is reported as a mismatch.
#[verifier::external_body]
pub(crate) fn argon2_verify(encoded: &str, pwd: &[u8]) -> (r: bool)
    ensures
        r == argon2_matches(encoded@, pwd@),
{
    argon2::verify_encoded(encoded, pwd).unwrap_or(false)
}

/// Relies on rand::fill with the thread RNG: random bytes; nothing is
/// assumed of the values.
#[verifier::external_body]
pub(crate) fn random_bytes(n: usize) -> (r: Vec<u8>)
    ensures
        r@.len() == n,
{
    let mut buf = vec![0u8; n];
    rand::fill(&mut buf[..]);
    buf
}

/// The SHA-256 digest of `data` as 32 bytes.
pub fn sha256(data: &[u8]) -> (r: Vec<u8>)
    ensures
        r@ == sha256_of(data@),
        r@.len() == 32,
{
    sha256_digest(data)
}

/// The SHA-256 digest of `input` as a lowercase hexadecimal string.
pub fn sha256_hash(input: &str) -> (r: String)
    ensures
        r@ == hex_chars_of(sha256_of(input.spec_bytes())),
        r@.len() == 64,
{
    let digest = sha256_digest(input.as_bytes());
    hex_encode(digest.as_slice())
}

/// 32 bytes of fresh randomness for key material.
pub fn secure_random_256() -> (r: Vec<u8>)
    ensures
        r@.len() == 32,
{
    random_bytes(32)
}

/// A fresh random session identifier: 32 random bytes rendered as 64
/// hexadecimal digits.
pub fn generate_secure_session_id() -> (r: String)
    ensures
        r@.len() == 64,
        exists|b: Seq<u8>| b.len() == 32 && r@ == #[trigger] hex_chars_of(b),
{
    let bytes = random_bytes(32);
    let rendered = hex_encode(bytes.as_slice());
    proof {
        assert(rendered@ == hex_chars_of(bytes@));
    }
    rendered
}

/// A 32-byte rotation key derived from the instant `now`: the SHA-256
/// digest of its decimal rendering.
pub fn generate_rotation_key(now: u64) -> (r: Vec<u8>)
    ensures
        r@ == sha256_of(dec_bytes_of(now as nat)),
        r@.len() == 32,
{
    let stamp = dec_bytes(now);
    sha256_digest(stamp.as_slice())
}

/// The eight big-endian bytes of `n`.
pub open spec fn u64_be_bytes(n: u64) -> Seq<u8> {
    seq![
        (n >> 56) as u8,
        (n >> 48) as u8,
        (n >> 40) as u8,
        (n >> 32) as u8,
        (n >> 24) as u8,
        (n >> 16) as u8,
        (n >> 8) as u8,
        n as u8,
    ]
}

/// The code that dynamic truncation draws from a 32-byte tag: four
/// bytes starting at the offset the last nibble names, reduced to six
/// decimal digits.
pub open spec fn totp_code_of(mac: Seq<u8>) -> nat
    recommends
        mac.len() == 32,
{
    let offset = (mac[31] & 0xf) as int;
    (((mac[offset] & 0x7f) as nat) * 0x1000000 + (mac[offset + 1] as nat) * 0x10000 + (mac[offset
        + 2] as nat) * 0x100 + (mac[offset + 3] as nat)) % 1000000
}

/// A code as six decimal digit bytes, zero padded.
pub open spec fn six_digit_bytes(code: nat) -> Seq<u8> {
    seq![
        digit_byte(code / 100000 % 10),
        digit_byte(code / 10000 % 10),
        digit_byte(code / 1000 % 10),
        digit_byte(code / 100 % 10),
        digit_byte(code / 10 % 10),
        digit_byte(code % 10),
    ]
}

/// The one-time code for `secret` in the 30-second step holding `now`.
pub open spec fn totp_chars_of(secret: Seq<u8>, now: u64) -> Seq<char> {
    crate::strutil::ascii_chars_of(
        six_digit_bytes(totp_code_of(hmac_sha256_of(secret, u64_be_bytes((now / 30) as u64)))),
    )
}

/// The six-digit one-time code for `secret` at instant `now`.
pub fn generate_totp(secret: &[u8], now: u64) -> (r: String)
    ensures
        r@ == totp_chars_of(secret@, now),
{
    let counter = now / 30;
    let mut msg: Vec<u8> = Vec::new();
    msg.push((counter >> 56) as u8);
    msg.push((counter >> 48) as u8);
    msg.push((counter >> 40) as u8);
    msg.push((counter >> 32) as u8);
    msg.push((counter >> 24) as u8);
    msg.push((counter >> 16) as u8);
    msg.push((counter >> 8) as u8);
    msg.push(counter as u8);
    proof {
        assert(msg@ =~= u64_be_bytes(counter));
    }
    let mac = hmac_sha256(secret, msg.as_slice());
    let last = mac[31];
    proof {
        assert(last & 0xf < 16) by (bit_vector);
    }
    let offset = (last & 0xf) as usize;
    let code: u32 = ((mac[offset] & 0x7f) as u32) * 0x1000000 + (mac[offset + 1] as u32) * 0x10000
        + (mac[offset + 2] as u32) * 0x100 + (mac[offset + 3] as u32);
    let code = code % 1000000;
    let mut digits: Vec<u8> = Vec::new();
    digits.push(48 + (code / 100000 % 10) as u8);
    digits.push(48 + (code / 10000 % 10) as u8);
    digits.push(48 + (code / 1000 % 10) as u8);
    digits.push(48 + (code / 100 % 10) as u8);
    digits.push(48 + (code / 10 % 10) as u8);
    digits.push(48 + (code % 10) as u8);
    proof {
        assert(digits@ =~= six_digit_bytes(code as nat));
        assert(forall|i: int| 0 <= i < digits@.len() ==> #[trigger] digits@[i] < 128);
    }
    crate::strutil::ascii_to_string(digits)
}

/// Whether `input_code` is the one-time code for `secret` at `now`.
pub fn verify_totp(secret: &[u8], now: u64, input_code: &str) -> (r: bool)
    ensures
        r == (input_code@ == totp_chars_of(secret@, now)),
{
    let expected = generate_totp(secret, now);
    crate::strutil::str_eq(expected.as_str(), input_code)
}

} // verus!
