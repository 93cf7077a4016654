//! Stateless bearer tokens: `base64url(payload).base64url(tag)` where
//! the payload is a small JSON object carrying the subject and the
//! expiry instant, and the tag is an HMAC-SHA-256 over the payload
//! bytes. Verification recomputes the tag in constant time, then checks
//! the expiry; the service holds no mutable state.

use vstd::prelude::*;

use crate::crypto::b64url_decode;
use crate::crypto::b64url_encode;
use crate::crypto::b64url_of;
use crate::crypto::dot_free;
use crate::crypto::hmac_sha256;
use crate::crypto::hmac_sha256_of;
use crate::crypto::hmac_sha256_verify;
use crate::strutil::ascii_chars_of;
use crate::strutil::ascii_to_string;
use crate::strutil::char_bytes_of;
use crate::strutil::dec_bytes_of;
use crate::strutil::lemma_ascii_char_cast;
use crate::strutil::lemma_ascii_chars_of_char_bytes;
use crate::strutil::lemma_char_bytes_of_ascii_chars;
use crate::strutil::lemma_dec_bytes_shape;
use crate::strutil::parse_dec_range;
use crate::strutil::push_dec_digits;

verus! {

use vstd::string::StrSliceExecFns;
use vstd::string::StringExecFns;

/// How long an issued token stays valid, in seconds.
pub const TOKEN_LIFETIME_SECONDS: u64 = 3600;

/// Why a token failed to verify.
#[derive(Clone, Copy, PartialEq, Eq, Structural, Debug)]
pub enum TokenError {
    /// The recomputed authentication tag does not match the one carried.
    BadSignature,
    /// The embedded expiry instant has passed.
    Expired,
    /// The token cannot be parsed.
    MalformedToken,
}

/// A subject that embeds verbatim in the JSON payload: printable ASCII
/// with no quote and no backslash.
pub open spec fn plain_subject(s: Seq<char>) -> bool {
    forall|i: int|
        0 <= i < s.len() ==> 32 <= #[trigger] (s[i] as u32) <= 126 && s[i] != '"' && s[i] != '\\'
}

/// The bytes before the subject: `{"sub":"`.
pub open spec fn payload_prefix() -> Seq<u8> {
    seq![
        '{' as u8,
        '"' as u8,
        's' as u8,
        'u' as u8,
        'b' as u8,
        '"' as u8,
        ':' as u8,
        '"' as u8,
    ]
}

/// The bytes between the subject and the expiry: `","exp":`.
pub open spec fn payload_mid() -> Seq<u8> {
    seq![
        '"' as u8,
        ',' as u8,
        '"' as u8,
        'e' as u8,
        'x' as u8,
        'p' as u8,
        '"' as u8,
        ':' as u8,
    ]
}

/// The JSON payload carrying `sub` and `exp`:
/// `{"sub":"<sub>","exp":<exp>}` as bytes.
pub open spec fn payload_bytes_of(sub: Seq<char>, exp: nat) -> Seq<u8> {
    payload_prefix() + char_bytes_of(sub) + payload_mid() + dec_bytes_of(exp) + seq!['}' as u8]
}

/// Whether `t` is the token this service mints for `sub` expiring at
/// `exp` under `key`: two dot-free base64url fields joined by a dot,
/// the payload and its HMAC-SHA-256 tag.
pub open spec fn valid_token(t: Seq<char>, key: Seq<u8>, sub: Seq<char>, exp: u64) -> bool {
    let p = payload_bytes_of(sub, exp as nat);
    let tag = hmac_sha256_of(key, p);
    &&& t == b64url_of(p) + seq!['.'] + b64url_of(tag)
    &&& dot_free(b64url_of(p))
    &&& dot_free(b64url_of(tag))
}

/// Whether verification at instant `now` owes `Ok(sub)` for `t`: some
/// unexpired valid token for `sub`.
pub open spec fn token_accepts(t: Seq<char>, key: Seq<u8>, now: u64, sub: Seq<char>) -> bool {
    exists|exp: u64| #[trigger] valid_token(t, key, sub, exp) && now <= exp
}

/// Builds the JSON payload for `sub` and `exp`.
fn build_payload(subject: &str, exp: u64) -> (r: Vec<u8>)
    ensures
        r@ == payload_bytes_of(subject@, exp as nat),
{
    let mut out: Vec<u8> = Vec::new();
    out.push('{' as u8);
    out.push('"' as u8);
    out.push('s' as u8);
    out.push('u' as u8);
    out.push('b' as u8);
    out.push('"' as u8);
    out.push(':' as u8);
    out.push('"' as u8);
    proof {
        assert(out@ =~= payload_prefix());
    }
    let n = subject.unicode_len();
    let mut i: usize = 0;
    while i < n
        invariant
            i <= n == subject@.len(),
            out@ == payload_prefix() + char_bytes_of(subject@.subrange(0, i as int)),
        decreases n - i,
    {
        let c = subject.get_char(i);
        out.push(c as u8);
        proof {
            assert(out@ =~= payload_prefix() + char_bytes_of(subject@.subrange(0, i + 1)));
        }
        i += 1;
    }
    proof {
        assert(subject@.subrange(0, n as int) =~= subject@);
    }
    out.push('"' as u8);
    out.push(',' as u8);
    out.push('"' as u8);
    out.push('e' as u8);
    out.push('x' as u8);
    out.push('p' as u8);
    out.push('"' as u8);
    out.push(':' as u8);
    proof {
        assert(out@ =~= payload_prefix() + char_bytes_of(subject@) + payload_mid());
    }
    push_dec_digits(exp, &mut out);
    out.push('}' as u8);
    proof {
        assert(out@ =~= payload_bytes_of(subject@, exp as nat));
    }
    out
}

/// Everything about where each piece of a payload sits.
proof fn lemma_payload_layout(sub: Seq<char>, exp: nat)
    ensures
        payload_bytes_of(sub, exp).len() == 17 + sub.len() + dec_bytes_of(exp).len(),
        forall|j: int|
            0 <= j < 8 ==> #[trigger] payload_bytes_of(sub, exp)[j] == payload_prefix()[j],
        forall|j: int|
            0 <= j < sub.len() ==> #[trigger] payload_bytes_of(sub, exp)[8 + j] == char_bytes_of(
                sub,
            )[j],
        forall|j: int|
            0 <= j < 8 ==> #[trigger] payload_bytes_of(sub, exp)[8 + sub.len() + j]
                == payload_mid()[j],
        forall|j: int|
            0 <= j < dec_bytes_of(exp).len() ==> #[trigger] payload_bytes_of(sub, exp)[16
                + sub.len() + j] == dec_bytes_of(exp)[j],
        payload_bytes_of(sub, exp).last() == '}' as u8,
        dec_bytes_of(exp).len() >= 1,
{
    lemma_dec_bytes_shape(exp);
}

/// Parses a payload back into its subject and expiry: accepts exactly
/// what `payload_bytes_of` produces for a plain subject.
#[verifier::rlimit(60)]
fn parse_payload(b: &Vec<u8>) -> (r: Option<(String, u64)>)
    ensures
        r matches Some(p) ==> b@ == payload_bytes_of(p.0@, p.1 as nat) && plain_subject(p.0@),
        forall|sub: Seq<char>, exp: u64|
            b@ == payload_bytes_of(sub, exp as nat) && plain_subject(sub) ==> (r matches Some(p)
                && p.0@ == sub && p.1 == exp),
{
    let n = b.len();
    let ok_prefix = n >= 18 && b[0] == '{' as u8 && b[1] == '"' as u8 && b[2] == 's' as u8 && b[3]
        == 'u' as u8 && b[4] == 'b' as u8 && b[5] == '"' as u8 && b[6] == ':' as u8 && b[7]
        == '"' as u8;
    if !ok_prefix {
        proof {
            assert forall|sub: Seq<char>, exp: u64|
                b@ == payload_bytes_of(sub, exp as nat) && plain_subject(sub) implies false by {
                lemma_payload_layout(sub, exp as nat);
            }
        }
        return None;
    }
    let mut q: usize = 8;
    let mut sub_bytes: Vec<u8> = Vec::new();
    loop
        invariant
            8 <= q <= n == b@.len(),
            n >= 18,
            sub_bytes@ == b@.subrange(8, q as int),
            forall|j: int|
                8 <= j < q ==> 32 <= #[trigger] b@[j] <= 126 && b@[j] != '"' as u8 && b@[j]
                    != '\\' as u8,
        ensures
            8 <= q < n == b@.len(),
            b@[q as int] == '"' as u8,
            sub_bytes@ == b@.subrange(8, q as int),
            forall|j: int|
                8 <= j < q ==> 32 <= #[trigger] b@[j] <= 126 && b@[j] != '"' as u8 && b@[j]
                    != '\\' as u8,
        decreases n - q,
    {
        if q == n {
            proof {
                assert forall|sub: Seq<char>, exp: u64|
                    b@ == payload_bytes_of(sub, exp as nat) && plain_subject(sub) implies false by {
                    lemma_payload_layout(sub, exp as nat);
                    lemma_char_bytes_plain(sub);
                    // the quote that closes the subject would sit inside the scan
                    assert(b@[8 + sub.len() as int] == '"' as u8);
                }
            }
            return None;
        }
        let d = b[q];
        if d == '"' as u8 {
            break ;
        }
        if d < 32 || d > 126 || d == '\\' as u8 {
            proof {
                assert forall|sub: Seq<char>, exp: u64|
                    b@ == payload_bytes_of(sub, exp as nat) && plain_subject(sub) implies false by {
                    lemma_payload_layout(sub, exp as nat);
                    lemma_char_bytes_plain(sub);
                    assert(b@[8 + sub.len() as int] == '"' as u8);
                    assert(q < 8 + sub.len());
                    assert(b@[q as int] == char_bytes_of(sub)[q - 8]);
                }
            }
            return None;
        }
        sub_bytes.push(d);
        proof {
            assert(sub_bytes@ =~= b@.subrange(8, q + 1));
        }
        q += 1;
    }
    // b[q] is the quote that closes the subject
    let ok_mid = n - q >= 10 && b[q] == '"' as u8 && b[q + 1] == ',' as u8 && b[q + 2] == '"' as u8
        && b[q + 3] == 'e' as u8 && b[q + 4] == 'x' as u8 && b[q + 5] == 'p' as u8 && b[q + 6]
        == '"' as u8 && b[q + 7] == ':' as u8 && b[n - 1] == '}' as u8;
    if !ok_mid {
        proof {
            assert forall|sub: Seq<char>, exp: u64|
                b@ == payload_bytes_of(sub, exp as nat) && plain_subject(sub) implies false by {
                lemma_payload_layout(sub, exp as nat);
                lemma_char_bytes_plain(sub);
                assert(b@[8 + sub.len() as int] == '"' as u8);
                assert(q == 8 + sub.len()) by {
                    if q < 8 + sub.len() {
                        assert(b@[q as int] == char_bytes_of(sub)[q - 8]);
                    }
                    if q > 8 + sub.len() {
                        assert(b@[8 + sub.len() as int] != '"' as u8);
                    }
                }
            }
        }
        return None;
    }
    let ghost gsub = ascii_chars_of(b@.subrange(8, q as int));
    proof {
        lemma_char_bytes_of_ascii_chars(b@.subrange(8, q as int));
    }
    match parse_dec_range(b, q + 8, n - 1) {
        Some(exp) => {
            let subject = ascii_to_string(sub_bytes);
            proof {
                assert(b@ =~= payload_bytes_of(gsub, exp as nat)) by {
                    lemma_payload_layout(gsub, exp as nat);
                    assert(char_bytes_of(gsub) == b@.subrange(8, q as int));
                    assert(b@.subrange(q + 8, n - 1) == dec_bytes_of(exp as nat));
                    assert(payload_bytes_of(gsub, exp as nat).len() == n);
                }
                assert(plain_subject(gsub));
                assert forall|sub: Seq<char>, exp2: u64|
                    b@ == payload_bytes_of(sub, exp2 as nat) && plain_subject(sub) implies gsub
                    == sub && exp == exp2 by {
                    lemma_payload_layout(sub, exp2 as nat);
                    lemma_char_bytes_plain(sub);
                    assert(q == 8 + sub.len()) by {
                        if q < 8 + sub.len() {
                            assert(b@[q as int] == char_bytes_of(sub)[q - 8]);
                        }
                        if q > 8 + sub.len() {
                            assert(b@[8 + sub.len() as int] != '"' as u8);
                        }
                    }
                    assert(char_bytes_of(sub) =~= b@.subrange(8, q as int));
                    lemma_ascii_chars_of_char_bytes(sub);
                    assert(gsub == sub);
                    assert(b@.subrange(q + 8, n - 1) =~= dec_bytes_of(exp2 as nat));
                    crate::strutil::lemma_dec_val_of_dec_bytes(exp as nat);
                    crate::strutil::lemma_dec_val_of_dec_bytes(exp2 as nat);
                }
            }
            Some((subject, exp))
        },
        None => {
            proof {
                assert forall|sub: Seq<char>, exp: u64|
                    b@ == payload_bytes_of(sub, exp as nat) && plain_subject(sub) implies false by {
                    lemma_payload_layout(sub, exp as nat);
                    lemma_char_bytes_plain(sub);
                    assert(q == 8 + sub.len()) by {
                        if q < 8 + sub.len() {
                            assert(b@[q as int] == char_bytes_of(sub)[q - 8]);
                        }
                        if q > 8 + sub.len() {
                            assert(b@[8 + sub.len() as int] != '"' as u8);
                        }
                    }
                    assert(b@.subrange(q + 8, n - 1) =~= dec_bytes_of(exp as nat));
                }
            }
            None
        },
    }
}

/// The bytes of a plain subject are printable ASCII with no quote and
/// no backslash.
proof fn lemma_char_bytes_plain(sub: Seq<char>)
    requires
        plain_subject(sub),
    ensures
        forall|j: int|
            0 <= j < sub.len() ==> 32 <= #[trigger] char_bytes_of(sub)[j] <= 126 && char_bytes_of(
                sub,
            )[j] != '"' as u8 && char_bytes_of(sub)[j] != '\\' as u8,
{
    assert forall|j: int| 0 <= j < sub.len() implies 32 <= #[trigger] char_bytes_of(sub)[j] <= 126
        && char_bytes_of(sub)[j] != '"' as u8 && char_bytes_of(sub)[j] != '\\' as u8 by {
        assert(char_bytes_of(sub)[j] == sub[j] as u8);
        assert(32 <= (sub[j] as u32) <= 126);
        lemma_ascii_char_cast(sub[j]);
        lemma_ascii_char_cast('"');
        lemma_ascii_char_cast('\\');
    }
}

/// The position of the first dot in `s`, if there is one.
fn find_first_dot(s: &str) -> (r: Option<usize>)
    ensures
        r matches Some(i) ==> i < s@.len() && s@[i as int] == '.' && (forall|j: int|
            0 <= j < i ==> #[trigger] s@[j] != '.'),
        r is None ==> forall|j: int| 0 <= j < s@.len() ==> #[trigger] s@[j] != '.',
{
    let n = s.unicode_len();
    let mut i: usize = 0;
    while i < n
        invariant
            i <= n == s@.len(),
            forall|j: int| 0 <= j < i ==> #[trigger] s@[j] != '.',
        decreases n - i,
    {
        if s.get_char(i) == '.' {
            return Some(i);
        }
        i += 1;
    }
    None
}

/// Issues and verifies bearer tokens under one key.
pub struct TokenService {
    key: Vec<u8>,
}

impl TokenService {
    /// The authentication key.
    pub closed spec fn spec_key(&self) -> Seq<u8> {
        self.key@
    }

    /// A service signing with `key`.
    pub fn new(key: Vec<u8>) -> (r: TokenService)
        ensures
            r.spec_key() == key@,
    {
        TokenService { key }
    }

    /// Issues a token for `subject` at instant `now`, expiring one
    /// lifetime later. The subject must be printable ASCII without
    /// quote or backslash, since the payload embeds it verbatim; that
    /// is what makes every issued token verifiable.
    pub fn issue(&self, subject: &str, now: u64) -> (r: String)
        requires
            plain_subject(subject@),
            now <= u64::MAX - TOKEN_LIFETIME_SECONDS,
            subject@.len() < 0x1000_0000_0000,
        ensures
            valid_token(r@, self.spec_key(), subject@, (now + TOKEN_LIFETIME_SECONDS) as u64),
    {
        let exp = now + TOKEN_LIFETIME_SECONDS;
        let payload = build_payload(subject, exp);
        proof {
            lemma_payload_layout(subject@, exp as nat);
            crate::strutil::lemma_dec_bytes_len_u64(exp as nat);
        }
        let tag = hmac_sha256(self.key.as_slice(), payload.as_slice());
        let p64 = b64url_encode(payload.as_slice());
        let t64 = b64url_encode(tag.as_slice());
        let token = p64.concat(".").concat(t64.as_str());
        proof {
            reveal_strlit(".");
            assert("."@ =~= seq!['.']);
        }
        token
    }

    /// Verifies `token` at instant `now`: splits at the first dot,
    /// decodes both fields, recomputes the tag in constant time, parses
    /// the payload, and compares the expiry. Every token this service
    /// issued is accepted until its expiry and refused as `Expired`
    /// afterwards; whatever is accepted is such a token.
    pub fn verify(&self, token: &str, now: u64) -> (r: Result<String, TokenError>)
        ensures
            forall|sub: Seq<char>, exp: u64|
                plain_subject(sub) && valid_token(token@, self.spec_key(), sub, exp) ==> if exp
                    < now {
                    r == Err::<String, TokenError>(TokenError::Expired)
                } else {
                    (r matches Ok(s) && s@ == sub)
                },
            r matches Ok(s) ==> (token_accepts(token@, self.spec_key(), now, s@)
                && plain_subject(s@)),
            r == Err::<String, TokenError>(TokenError::Expired) ==> exists|
                sub: Seq<char>,
                exp: u64,
            | #[trigger] valid_token(token@, self.spec_key(), sub, exp) && exp < now,
            r == Err::<String, TokenError>(TokenError::BadSignature) ==> exists|
                p: Seq<u8>,
                m: Seq<u8>,
            |
                #![trigger b64url_of(p), b64url_of(m)]
                token@ == b64url_of(p) + seq!['.'] + b64url_of(m) && m
                    != hmac_sha256_of(self.spec_key(), p),
    {
        let n = token.unicode_len();
        let i = match find_first_dot(token) {
            Some(i) => i,
            None => {
                proof {
                    assert forall|sub: Seq<char>, exp: u64|
                        plain_subject(sub) && valid_token(token@, self.spec_key(), sub, exp)
                        implies false by {
                        assert(token@[b64url_of(payload_bytes_of(sub, exp as nat)).len() as int]
                            == '.');
                    }
                }
                return Err(TokenError::MalformedToken);
            },
        };
        let part1 = token.substring_char(0, i);
        let part2 = token.substring_char(i + 1, n);
        proof {
            lemma_split_at_first_dot(token@, self.spec_key(), i as int);
        }
        let payload = match b64url_decode(part1) {
            Some(p) => p,
            None => {
                return Err(TokenError::MalformedToken);
            },
        };
        let tag = match b64url_decode(part2) {
            Some(m) => m,
            None => {
                return Err(TokenError::MalformedToken);
            },
        };
        if !hmac_sha256_verify(self.key.as_slice(), payload.as_slice(), tag.as_slice()) {
            proof {
                assert(token@ == b64url_of(payload@) + seq!['.'] + b64url_of(tag@)) by {
                    assert(token@ =~= part1@ + seq!['.'] + part2@);
                }
            }
            return Err(TokenError::BadSignature);
        }
        let parsed = match parse_payload(&payload) {
            Some(p) => p,
            None => {
                return Err(TokenError::MalformedToken);
            },
        };
        proof {
            assert(token@ =~= part1@ + seq!['.'] + part2@);
            assert(dot_free(part1@)) by {
                assert forall|j: int| 0 <= j < part1@.len() implies part1@[j] != '.' by {
                    assert(part1@[j] == token@[j]);
                }
            }
            assert(valid_token(token@, self.spec_key(), parsed.0@, parsed.1));
        }
        if parsed.1 < now {
            return Err(TokenError::Expired);
        }
        Ok(parsed.0)
    }
}

/// If a token is valid for some subject and its first dot sits at `i`,
/// then the part before `i` is the encoded payload and the part after
/// it is the encoded tag.
proof fn lemma_split_at_first_dot(t: Seq<char>, key: Seq<u8>, i: int)
    requires
        0 <= i < t.len(),
        t[i] == '.',
        forall|j: int| 0 <= j < i ==> #[trigger] t[j] != '.',
    ensures
        forall|sub: Seq<char>, exp: u64|
            #[trigger] valid_token(t, key, sub, exp) ==> t.subrange(0, i) == b64url_of(
                payload_bytes_of(sub, exp as nat),
            ) && t.subrange(i + 1, t.len() as int) == b64url_of(
                hmac_sha256_of(key, payload_bytes_of(sub, exp as nat)),
            ),
{
    assert forall|sub: Seq<char>, exp: u64| #[trigger] valid_token(t, key, sub, exp) implies t
        .subrange(0, i) == b64url_of(payload_bytes_of(sub, exp as nat)) && t.subrange(
        i + 1,
        t.len() as int,
    ) == b64url_of(hmac_sha256_of(key, payload_bytes_of(sub, exp as nat))) by {
        let p64 = b64url_of(payload_bytes_of(sub, exp as nat));
        let m64 = b64url_of(hmac_sha256_of(key, payload_bytes_of(sub, exp as nat)));
        let k = p64.len() as int;
        assert(t[k] == '.');
        assert(i <= k);
        if i < k {
            assert(t[i] == p64[i]);
        }
        assert(i == k);
        assert(t.subrange(0, i) =~= p64);
        assert(t.subrange(i + 1, t.len() as int) =~= m64);
    }
}

/// The round trip: any token `issue` mints for a plain subject is
/// accepted by `verify`, with that subject, at any instant up to its
/// expiry.
pub proof fn lemma_issue_verify_round_trip(
    t: Seq<char>,
    key: Seq<u8>,
    sub: Seq<char>,
    exp: u64,
    now: u64,
)
    requires
        valid_token(t, key, sub, exp),
        now <= exp,
    ensures
        token_accepts(t, key, now, sub),
{
}

} // verus!
