//! The session registry: sessions bound to an identity, the IP that
//! created them, and an expiry. The session token is
//! `<payload-json>.<hex tag>`, the payload carrying subject, expiry and
//! IP claims; validation checks the tag in constant time, the expiry,
//! the live session entry, and that the caller's IP is the issuing IP
//! (the hijack defense). Revocation removes the entry and is idempotent.

use vstd::prelude::*;

use crate::crypto::hmac_sha256;
use crate::crypto::hmac_sha256_of;
use crate::crypto::hmac_sha256_verify;
use crate::hex::hex_chars_of;
use crate::hex::hex_decode;
use crate::hex::hex_digit_byte;
use crate::hex::hex_encode;
use crate::hex::lemma_hex_bytes_shape;
use crate::kvmap::lemma_views_insert;
use crate::kvmap::lemma_views_remove;
use crate::kvmap::views_of;
use crate::kvmap::StrMap;
use crate::strutil::all_ascii;
use crate::strutil::ascii_chars_of;
use crate::strutil::ascii_to_string;
use crate::strutil::char_bytes_of;
use crate::strutil::dec_bytes_of;
use crate::strutil::is_digit_byte;
use crate::strutil::lemma_ascii_char_cast;
use crate::strutil::lemma_ascii_chars_of_char_bytes;
use crate::strutil::lemma_char_bytes_of_ascii_chars;
use crate::strutil::find_last_dot;
use crate::strutil::lemma_dec_bytes_shape;
use crate::strutil::parse_dec_range;
use crate::strutil::push_dec_digits;
use crate::strutil::str_eq;
use crate::token::payload_mid;
use crate::token::payload_prefix;
use crate::token::plain_subject;

verus! {

use vstd::string::StrSliceExecFns;
use vstd::string::StringExecFns;

/// How long a session stays valid, in seconds.
pub const SESSION_LIFETIME_SECONDS: u64 = 3600;

/// Why validating a session failed.
#[derive(Clone, Copy, PartialEq, Eq, Structural, Debug)]
pub enum SessionError {
    /// The token cannot be parsed.
    MalformedToken,
    /// The recomputed authentication tag does not match the one carried.
    BadSignature,
    /// The token's embedded expiry has passed.
    Expired,
    /// No live session entry exists for this token.
    UnknownSession,
    /// The session entry's own expiry has passed.
    SessionExpired,
    /// The caller's IP differs from the session's issuing IP.
    IpMismatch,
}

/// One live session entry.
pub struct SessionRecord {
    pub user: String,
    pub expiry: u64,
    pub ip: String,
}

/// What a session entry says, with the strings as character sequences.
pub struct SessionView {
    pub user: Seq<char>,
    pub expiry: u64,
    pub ip: Seq<char>,
}

impl View for SessionRecord {
    type V = SessionView;

    open spec fn view(&self) -> SessionView {
        SessionView { user: self.user@, expiry: self.expiry, ip: self.ip@ }
    }
}

/// The bytes between the expiry and the IP claim: `,"ip":"`.
pub open spec fn ip_mid() -> Seq<u8> {
    seq![
        ',' as u8,
        '"' as u8,
        'i' as u8,
        'p' as u8,
        '"' as u8,
        ':' as u8,
        '"' as u8,
    ]
}

/// The session payload `{"sub":"<sub>","exp":<exp>,"ip":"<ip>"}` as
/// bytes.
pub open spec fn session_payload_of(sub: Seq<char>, exp: nat, ip: Seq<char>) -> Seq<u8> {
    payload_prefix() + char_bytes_of(sub) + payload_mid() + dec_bytes_of(exp) + ip_mid()
        + char_bytes_of(ip) + seq!['"' as u8, '}' as u8]
}

/// Whether `t` is the session token this registry mints for `sub` from
/// `ip` expiring at `exp` under `key`: the payload in clear, a dot, and
/// the hexadecimal HMAC-SHA-256 tag.
pub open spec fn valid_session_token(
    t: Seq<char>,
    key: Seq<u8>,
    sub: Seq<char>,
    exp: u64,
    ip: Seq<char>,
) -> bool {
    let p = session_payload_of(sub, exp as nat, ip);
    &&& t == ascii_chars_of(p) + seq!['.'] + hex_chars_of(hmac_sha256_of(key, p))
    &&& plain_subject(sub)
    &&& plain_subject(ip)
}

/// What validation owes once the token itself has checked out: the
/// session entry is consulted for liveness and for the issuing IP.
pub open spec fn session_outcome(
    m: Map<Seq<char>, SessionView>,
    t: Seq<char>,
    exp: u64,
    ip: Seq<char>,
    now: u64,
) -> Result<Seq<char>, SessionError> {
    if exp < now {
        Err(SessionError::Expired)
    } else if !m.contains_key(t) {
        Err(SessionError::UnknownSession)
    } else if m[t].expiry < now {
        Err(SessionError::SessionExpired)
    } else if m[t].ip != ip {
        Err(SessionError::IpMismatch)
    } else {
        Ok(m[t].user)
    }
}

/// Everything about where each piece of a session payload sits.
proof fn lemma_session_layout(sub: Seq<char>, exp: nat, ip: Seq<char>)
    ensures
        session_payload_of(sub, exp, ip).len() == 25 + sub.len() + dec_bytes_of(exp).len()
            + ip.len(),
        forall|j: int|
            0 <= j < 8 ==> #[trigger] session_payload_of(sub, exp, ip)[j] == payload_prefix()[j],
        forall|j: int|
            0 <= j < sub.len() ==> #[trigger] session_payload_of(sub, exp, ip)[8 + j]
                == char_bytes_of(sub)[j],
        forall|j: int|
            0 <= j < 8 ==> #[trigger] session_payload_of(sub, exp, ip)[8 + sub.len() + j]
                == payload_mid()[j],
        forall|j: int|
            0 <= j < dec_bytes_of(exp).len() ==> #[trigger] session_payload_of(sub, exp, ip)[16
                + sub.len() + j] == dec_bytes_of(exp)[j],
        forall|j: int|
            0 <= j < 7 ==> #[trigger] session_payload_of(sub, exp, ip)[16 + sub.len()
                + dec_bytes_of(exp).len() + j] == ip_mid()[j],
        forall|j: int|
            0 <= j < ip.len() ==> #[trigger] session_payload_of(sub, exp, ip)[23 + sub.len()
                + dec_bytes_of(exp).len() + j] == char_bytes_of(ip)[j],
        session_payload_of(sub, exp, ip)[session_payload_of(sub, exp, ip).len() - 2] == '"' as u8,
        session_payload_of(sub, exp, ip).last() == '}' as u8,
        dec_bytes_of(exp).len() >= 1,
{
    lemma_dec_bytes_shape(exp);
}

/// A plain subject's bytes are printable ASCII with no quote.
proof fn lemma_plain_bytes(sub: Seq<char>)
    requires
        plain_subject(sub),
    ensures
        forall|j: int|
            0 <= j < sub.len() ==> 32 <= #[trigger] char_bytes_of(sub)[j] <= 126 && char_bytes_of(
                sub,
            )[j] != '"' as u8 && char_bytes_of(sub)[j] != '\\' as u8,
{
    assert forall|j: int| 0 <= j < sub.len() implies 32 <= #[trigger] char_bytes_of(sub)[j] <= 126
        && char_bytes_of(sub)[j] != '"' as u8 && char_bytes_of(sub)[j] != '\\' as u8 by {
        assert(char_bytes_of(sub)[j] == sub[j] as u8);
        assert(32 <= (sub[j] as u32) <= 126);
        lemma_ascii_char_cast(sub[j]);
        lemma_ascii_char_cast('"');
        lemma_ascii_char_cast('\\');
    }
}

/// Every byte of a session payload for plain claims is ASCII.
proof fn lemma_session_payload_ascii(sub: Seq<char>, exp: nat, ip: Seq<char>)
    requires
        plain_subject(sub),
        plain_subject(ip),
    ensures
        forall|j: int|
            0 <= j < session_payload_of(sub, exp, ip).len() ==> #[trigger] session_payload_of(
                sub,
                exp,
                ip,
            )[j] < 128,
{
    lemma_session_layout(sub, exp, ip);
    lemma_plain_bytes(sub);
    lemma_plain_bytes(ip);
    lemma_dec_bytes_shape(exp);
    let p = session_payload_of(sub, exp, ip);
    let ls = sub.len() as int;
    let ld = dec_bytes_of(exp).len() as int;
    assert forall|j: int| 0 <= j < p.len() implies #[trigger] p[j] < 128 by {
        if j < 8 {
            assert(p[j] == payload_prefix()[j]);
        } else if j < 8 + ls {
            assert(p[j] == char_bytes_of(sub)[j - 8]);
        } else if j < 16 + ls {
            assert(p[j] == payload_mid()[j - 8 - ls]);
        } else if j < 16 + ls + ld {
            assert(p[j] == dec_bytes_of(exp)[j - 16 - ls]);
            assert(is_digit_byte(dec_bytes_of(exp)[j - 16 - ls]));
        } else if j < 23 + ls + ld {
            assert(p[j] == ip_mid()[j - 16 - ls - ld]);
        } else if j < p.len() - 2 {
            assert(p[j] == char_bytes_of(ip)[j - 23 - ls - ld]);
        } else if j == p.len() - 2 {
            assert(p[j] == '"' as u8);
        } else {
            assert(p[j] == '}' as u8);
        }
    }
}

/// Builds the session payload for `sub`, `exp` and `ip`.
fn build_session_payload(subject: &str, exp: u64, ip: &str) -> (r: Vec<u8>)
    ensures
        r@ == session_payload_of(subject@, exp as nat, ip@),
{
    let mut out: Vec<u8> = Vec::new();
    out.push('{' as u8);
    out.push('"' as u8);
    out.push('s' as u8);
    out.push('u' as u8);
    out.push('b' as u8);
    out.push('"' as u8);
    out.push(':' as u8);
    out.push('"' as u8);
    proof {
        assert(out@ =~= payload_prefix());
    }
    let ns = subject.unicode_len();
    let mut i: usize = 0;
    while i < ns
        invariant
            i <= ns == subject@.len(),
            out@ == payload_prefix() + char_bytes_of(subject@.subrange(0, i as int)),
        decreases ns - i,
    {
        let c = subject.get_char(i);
        out.push(c as u8);
        proof {
            assert(out@ =~= payload_prefix() + char_bytes_of(subject@.subrange(0, i + 1)));
        }
        i += 1;
    }
    proof {
        assert(subject@.subrange(0, ns as int) =~= subject@);
    }
    out.push('"' as u8);
    out.push(',' as u8);
    out.push('"' as u8);
    out.push('e' as u8);
    out.push('x' as u8);
    out.push('p' as u8);
    out.push('"' as u8);
    out.push(':' as u8);
    proof {
        assert(out@ =~= payload_prefix() + char_bytes_of(subject@) + payload_mid());
    }
    push_dec_digits(exp, &mut out);
    out.push(',' as u8);
    out.push('"' as u8);
    out.push('i' as u8);
    out.push('p' as u8);
    out.push('"' as u8);
    out.push(':' as u8);
    out.push('"' as u8);
    proof {
        assert(out@ =~= payload_prefix() + char_bytes_of(subject@) + payload_mid() + dec_bytes_of(
            exp as nat,
        ) + ip_mid());
    }
    let ni = ip.unicode_len();
    let ghost mid_done = out@;
    let mut j: usize = 0;
    while j < ni
        invariant
            j <= ni == ip@.len(),
            out@ == mid_done + char_bytes_of(ip@.subrange(0, j as int)),
        decreases ni - j,
    {
        let c = ip.get_char(j);
        out.push(c as u8);
        proof {
            assert(out@ =~= mid_done + char_bytes_of(ip@.subrange(0, j + 1)));
        }
        j += 1;
    }
    proof {
        assert(ip@.subrange(0, ni as int) =~= ip@);
    }
    out.push('"' as u8);
    out.push('}' as u8);
    proof {
        assert(out@ =~= session_payload_of(subject@, exp as nat, ip@));
    }
    out
}

/// Parses the front of a session payload: the prefix, the subject, the
/// expiry digits, and the opening of the IP claim.
#[verifier::rlimit(100)]
fn parse_session_head(b: &Vec<u8>) -> (r: Option<(Vec<u8>, u64, usize, usize)>)
    ensures
        r matches Some(h) ==> ({
            let q = h.2 as int;
            let e = h.3 as int;
            &&& b@.len() >= 26
            &&& 8 <= q < b@.len()
            &&& b@[q] == '"' as u8
            &&& (forall|j: int|
                8 <= j < q ==> 32 <= #[trigger] b@[j] <= 126 && b@[j] != '"' as u8 && b@[j]
                    != '\\' as u8)
            &&& h.0@ == b@.subrange(8, q)
            &&& (forall|j: int| 0 <= j < 8 ==> #[trigger] b@[j] == payload_prefix()[j])
            &&& (forall|j: int| 0 <= j < 8 ==> #[trigger] b@[q + j] == payload_mid()[j])
            &&& q + 8 <= e < b@.len()
            &&& b@.subrange(q + 8, e) == dec_bytes_of(h.1 as nat)
            &&& (forall|j: int| 0 <= j < 7 ==> #[trigger] b@[e + j] == ip_mid()[j])
            &&& b@.len() - e >= 9
        }),
        r is None ==> forall|sub: Seq<char>, exp: u64, ip: Seq<char>|
            !(b@ == session_payload_of(sub, exp as nat, ip) && plain_subject(sub)
                && plain_subject(ip)),
{
    let n = b.len();
    let ok_prefix = n >= 26 && b[0] == '{' as u8 && b[1] == '"' as u8 && b[2] == 's' as u8 && b[3]
        == 'u' as u8 && b[4] == 'b' as u8 && b[5] == '"' as u8 && b[6] == ':' as u8 && b[7]
        == '"' as u8;
    if !ok_prefix {
        proof {
            assert forall|sub: Seq<char>, exp: u64, ip: Seq<char>|
                b@ == session_payload_of(sub, exp as nat, ip) && plain_subject(sub)
                    && plain_subject(ip) implies false by {
                lemma_session_layout(sub, exp as nat, ip);
            }
        }
        return None;
    }
    let mut q: usize = 8;
    let mut sub_bytes: Vec<u8> = Vec::new();
    loop
        invariant
            8 <= q <= n == b@.len(),
            n >= 26,
            sub_bytes@ == b@.subrange(8, q as int),
            forall|j: int|
                8 <= j < q ==> 32 <= #[trigger] b@[j] <= 126 && b@[j] != '"' as u8 && b@[j]
                    != '\\' as u8,
        ensures
            8 <= q < n == b@.len(),
            b@[q as int] == '"' as u8,
            sub_bytes@ == b@.subrange(8, q as int),
            forall|j: int|
                8 <= j < q ==> 32 <= #[trigger] b@[j] <= 126 && b@[j] != '"' as u8 && b@[j]
                    != '\\' as u8,
        decreases n - q,
    {
        if q == n {
            proof {
                assert forall|sub: Seq<char>, exp: u64, ip: Seq<char>|
                    b@ == session_payload_of(sub, exp as nat, ip) && plain_subject(sub)
                        && plain_subject(ip) implies false by {
                    lemma_session_layout(sub, exp as nat, ip);
                    lemma_plain_bytes(sub);
                    assert(b@[8 + sub.len() as int] == '"' as u8);
                }
            }
            return None;
        }
        let d = b[q];
        if d == '"' as u8 {
            break ;
        }
        if d < 32 || d > 126 || d == '\\' as u8 {
            proof {
                assert forall|sub: Seq<char>, exp: u64, ip: Seq<char>|
                    b@ == session_payload_of(sub, exp as nat, ip) && plain_subject(sub)
                        && plain_subject(ip) implies false by {
                    lemma_session_layout(sub, exp as nat, ip);
                    lemma_plain_bytes(sub);
                    assert(b@[8 + sub.len() as int] == '"' as u8);
                    assert(q < 8 + sub.len());
                    assert(b@[q as int] == char_bytes_of(sub)[q - 8]);
                }
            }
            return None;
        }
        sub_bytes.push(d);
        proof {
            assert(sub_bytes@ =~= b@.subrange(8, q + 1));
        }
        q += 1;
    }
    let ok_mid = n - q >= 18 && b[q] == '"' as u8 && b[q + 1] == ',' as u8 && b[q + 2] == '"' as u8
        && b[q + 3] == 'e' as u8 && b[q + 4] == 'x' as u8 && b[q + 5] == 'p' as u8 && b[q + 6]
        == '"' as u8 && b[q + 7] == ':' as u8;
    if !ok_mid {
        proof {
            assert forall|sub: Seq<char>, exp: u64, ip: Seq<char>|
                b@ == session_payload_of(sub, exp as nat, ip) && plain_subject(sub)
                    && plain_subject(ip) implies false by {
                lemma_session_layout(sub, exp as nat, ip);
                lemma_plain_bytes(sub);
                lemma_sub_len_is_q(b@, sub, exp as nat, ip, q as int);
                lemma_dec_bytes_shape(exp as nat);
            }
        }
        return None;
    }
    let mut e: usize = q + 8;
    while e < n && 48 <= b[e] && b[e] <= 57
        invariant
            q + 8 <= e <= n == b@.len(),
            forall|j: int| q + 8 <= j < e ==> is_digit_byte(#[trigger] b@[j]),
        decreases n - e,
    {
        e += 1;
    }
    let ok_ip_mid = n - e >= 9 && b[e] == ',' as u8 && b[e + 1] == '"' as u8 && b[e + 2]
        == 'i' as u8 && b[e + 3] == 'p' as u8 && b[e + 4] == '"' as u8 && b[e + 5] == ':' as u8 && b[
        e + 6] == '"' as u8;
    if !ok_ip_mid {
        proof {
            assert forall|sub: Seq<char>, exp: u64, ip: Seq<char>|
                b@ == session_payload_of(sub, exp as nat, ip) && plain_subject(sub)
                    && plain_subject(ip) implies false by {
                lemma_session_layout(sub, exp as nat, ip);
                lemma_plain_bytes(sub);
                lemma_plain_bytes(ip);
                lemma_sub_len_is_q(b@, sub, exp as nat, ip, q as int);
                lemma_dec_bytes_shape(exp as nat);
                lemma_digit_end(b@, sub, exp as nat, ip, q as int, e as int);
            }
        }
        return None;
    }
    let exp = match parse_dec_range(b, q + 8, e) {
        Some(v) => v,
        None => {
            proof {
                assert forall|sub: Seq<char>, exp: u64, ip: Seq<char>|
                    b@ == session_payload_of(sub, exp as nat, ip) && plain_subject(sub)
                        && plain_subject(ip) implies false by {
                    lemma_session_layout(sub, exp as nat, ip);
                    lemma_plain_bytes(sub);
                    lemma_sub_len_is_q(b@, sub, exp as nat, ip, q as int);
                    lemma_dec_bytes_shape(exp as nat);
                    lemma_digit_end(b@, sub, exp as nat, ip, q as int, e as int);
                    assert(b@.subrange(q + 8, e as int) =~= dec_bytes_of(exp as nat));
                }
            }
            return None;
        },
    };
    Some((sub_bytes, exp, q, e))
}

/// Parses a session payload back into its subject, expiry and IP:
/// accepts exactly what `session_payload_of` produces for plain claims.
#[verifier::rlimit(100)]
fn parse_session_payload(b: &Vec<u8>) -> (r: Option<(String, u64, String)>)
    ensures
        r matches Some(p) ==> b@ == session_payload_of(p.0@, p.1 as nat, p.2@) && plain_subject(
            p.0@,
        ) && plain_subject(p.2@),
        forall|sub: Seq<char>, exp: u64, ip: Seq<char>|
            b@ == session_payload_of(sub, exp as nat, ip) && plain_subject(sub) && plain_subject(
                ip,
            ) ==> (r matches Some(p) && p.0@ == sub && p.1 == exp && p.2@ == ip),
{
    let n = b.len();
    let (sub_bytes, exp, q, e) = match parse_session_head(b) {
        Some(h) => h,
        None => {
            return None;
        },
    };
    proof {
        lemma_dec_bytes_shape(exp as nat);
        assert forall|j: int| q + 8 <= j < e implies is_digit_byte(#[trigger] b@[j]) by {
            assert(b@.subrange(q + 8, e as int)[j - q - 8] == b@[j]);
            assert(is_digit_byte(dec_bytes_of(exp as nat)[j - q - 8]));
        }
        assert(b@[q + 0] == payload_mid()[0] && b@[q + 1] == payload_mid()[1] && b@[q + 2]
            == payload_mid()[2] && b@[q + 3] == payload_mid()[3] && b@[q + 4] == payload_mid()[4]
            && b@[q + 5] == payload_mid()[5] && b@[q + 6] == payload_mid()[6] && b@[q + 7]
            == payload_mid()[7]);
        assert(b@[e + 0] == ip_mid()[0] && b@[e + 1] == ip_mid()[1] && b@[e + 2] == ip_mid()[2]
            && b@[e + 3] == ip_mid()[3] && b@[e + 4] == ip_mid()[4] && b@[e + 5] == ip_mid()[5]
            && b@[e + 6] == ip_mid()[6]);
        assert(b@[e + 0] == ',' as u8);
        assert(b@[e as int] == ',' as u8);
    }
    let mut w: usize = e + 7;
    let mut ip_bytes: Vec<u8> = Vec::new();
    loop
        invariant
            8 <= q < n == b@.len(),
            b@[q as int] == '"' as u8,
            forall|j: int| 8 <= j < q ==> #[trigger] b@[j] != '"' as u8,
            q + 8 <= e < n,
            forall|j: int| q + 8 <= j < e ==> is_digit_byte(#[trigger] b@[j]),
            b@[e as int] == ',' as u8,
            e + 7 <= w <= n,
            ip_bytes@ == b@.subrange(e + 7, w as int),
            forall|j: int|
                e + 7 <= j < w ==> 32 <= #[trigger] b@[j] <= 126 && b@[j] != '"' as u8 && b@[j]
                    != '\\' as u8,
        ensures
            e + 7 <= w < n == b@.len(),
            b@[w as int] == '"' as u8,
            ip_bytes@ == b@.subrange(e + 7, w as int),
            forall|j: int|
                e + 7 <= j < w ==> 32 <= #[trigger] b@[j] <= 126 && b@[j] != '"' as u8 && b@[j]
                    != '\\' as u8,
        decreases n - w,
    {
        if w == n {
            proof {
                assert forall|sub: Seq<char>, exp2: u64, ip: Seq<char>|
                    b@ == session_payload_of(sub, exp2 as nat, ip) && plain_subject(sub)
                        && plain_subject(ip) implies false by {
                    lemma_session_layout(sub, exp2 as nat, ip);
                    lemma_plain_bytes(sub);
                    lemma_plain_bytes(ip);
                    lemma_sub_len_is_q(b@, sub, exp2 as nat, ip, q as int);
                    lemma_digit_end(b@, sub, exp2 as nat, ip, q as int, e as int);
                    assert(b@[b@.len() - 2] == '"' as u8);
                }
            }
            return None;
        }
        let d = b[w];
        if d == '"' as u8 {
            break ;
        }
        if d < 32 || d > 126 || d == '\\' as u8 {
            proof {
                assert forall|sub: Seq<char>, exp2: u64, ip: Seq<char>|
                    b@ == session_payload_of(sub, exp2 as nat, ip) && plain_subject(sub)
                        && plain_subject(ip) implies false by {
                    lemma_session_layout(sub, exp2 as nat, ip);
                    lemma_plain_bytes(sub);
                    lemma_plain_bytes(ip);
                    lemma_sub_len_is_q(b@, sub, exp2 as nat, ip, q as int);
                    lemma_digit_end(b@, sub, exp2 as nat, ip, q as int, e as int);
                    assert(b@[23 + sub.len() + dec_bytes_of(exp2 as nat).len() + ip.len() as int]
                        == '"' as u8);
                    assert(w < 23 + sub.len() + dec_bytes_of(exp2 as nat).len() + ip.len() as int);
                    assert(b@[w as int] == char_bytes_of(ip)[w - e - 7]);
                }
            }
            return None;
        }
        ip_bytes.push(d);
        proof {
            assert(ip_bytes@ =~= b@.subrange(e + 7, w + 1));
        }
        w += 1;
    }
    if !(n - w == 2 && b[w + 1] == '}' as u8) {
        proof {
            assert forall|sub: Seq<char>, exp2: u64, ip: Seq<char>|
                b@ == session_payload_of(sub, exp2 as nat, ip) && plain_subject(sub)
                    && plain_subject(ip) implies false by {
                lemma_session_layout(sub, exp2 as nat, ip);
                lemma_plain_bytes(sub);
                lemma_plain_bytes(ip);
                lemma_sub_len_is_q(b@, sub, exp2 as nat, ip, q as int);
                lemma_digit_end(b@, sub, exp2 as nat, ip, q as int, e as int);
                lemma_ip_end(b@, sub, exp2 as nat, ip, q as int, e as int, w as int);
            }
        }
        return None;
    }
    let ghost gsub = ascii_chars_of(b@.subrange(8, q as int));
    let ghost gip = ascii_chars_of(b@.subrange(e + 7, w as int));
    proof {
        lemma_char_bytes_of_ascii_chars(b@.subrange(8, q as int));
        lemma_char_bytes_of_ascii_chars(b@.subrange(e + 7, w as int));
    }
    let subject = ascii_to_string(sub_bytes);
    let ip_found = ascii_to_string(ip_bytes);
    proof {
        assert(b@ =~= session_payload_of(gsub, exp as nat, gip)) by {
            lemma_session_layout(gsub, exp as nat, gip);
            assert(char_bytes_of(gsub) == b@.subrange(8, q as int));
            assert(char_bytes_of(gip) == b@.subrange(e + 7, w as int));
            assert(b@.subrange(q + 8, e as int) == dec_bytes_of(exp as nat));
            assert(session_payload_of(gsub, exp as nat, gip).len() == n);
        }
        assert(plain_subject(gsub));
        assert(plain_subject(gip));
        assert forall|sub: Seq<char>, exp2: u64, ip: Seq<char>|
            b@ == session_payload_of(sub, exp2 as nat, ip) && plain_subject(sub) && plain_subject(
                ip,
            ) implies gsub == sub && exp == exp2 && gip == ip by {
            lemma_session_layout(sub, exp2 as nat, ip);
            lemma_plain_bytes(sub);
            lemma_plain_bytes(ip);
            lemma_sub_len_is_q(b@, sub, exp2 as nat, ip, q as int);
            lemma_digit_end(b@, sub, exp2 as nat, ip, q as int, e as int);
            assert(char_bytes_of(sub) =~= b@.subrange(8, q as int));
            lemma_ascii_chars_of_char_bytes(sub);
            assert(b@.subrange(q + 8, e as int) =~= dec_bytes_of(exp2 as nat));
            crate::strutil::lemma_dec_val_of_dec_bytes(exp as nat);
            crate::strutil::lemma_dec_val_of_dec_bytes(exp2 as nat);
            lemma_ip_end(b@, sub, exp2 as nat, ip, q as int, e as int, w as int);
            assert(char_bytes_of(ip) =~= b@.subrange(e + 7, w as int));
            lemma_ascii_chars_of_char_bytes(ip);
        }
    }
    Some((subject, exp, ip_found))
}

/// In a canonical session payload scanned to the first quote after the
/// prefix, that quote closes the subject.
proof fn lemma_sub_len_is_q(bs: Seq<u8>, sub: Seq<char>, exp: nat, ip: Seq<char>, q: int)
    requires
        bs == session_payload_of(sub, exp, ip),
        plain_subject(sub),
        8 <= q < bs.len(),
        bs[q] == '"' as u8,
        forall|j: int| 8 <= j < q ==> #[trigger] bs[j] != '"' as u8,
    ensures
        q == 8 + sub.len(),
{
    lemma_session_layout(sub, exp, ip);
    lemma_plain_bytes(sub);
    if q < 8 + sub.len() {
        assert(bs[q] == char_bytes_of(sub)[q - 8]);
    }
    if q > 8 + sub.len() {
        assert(bs[8 + sub.len() as int] == '"' as u8);
    }
}

/// In a canonical session payload scanned past the expiry digits, the
/// scan stops exactly at the comma that opens the IP claim.
proof fn lemma_digit_end(bs: Seq<u8>, sub: Seq<char>, exp: nat, ip: Seq<char>, q: int, e: int)
    requires
        bs == session_payload_of(sub, exp, ip),
        plain_subject(sub),
        q == 8 + sub.len(),
        q + 8 <= e <= bs.len(),
        forall|j: int| q + 8 <= j < e ==> is_digit_byte(#[trigger] bs[j]),
        e < bs.len() ==> !is_digit_byte(bs[e]),
    ensures
        e == 16 + sub.len() + dec_bytes_of(exp).len(),
{
    lemma_session_layout(sub, exp, ip);
    lemma_dec_bytes_shape(exp);
    let digits_end = 16 + sub.len() + dec_bytes_of(exp).len() as int;
    assert(bs[digits_end] == ip_mid()[0]);
    assert(!is_digit_byte(',' as u8));
    if e < digits_end {
        assert(bs[e] == dec_bytes_of(exp)[e - 16 - sub.len()]);
    }
    if e > digits_end {
        assert(bs[digits_end] == ',' as u8);
    }
}

/// In a canonical session payload scanned to the first quote after the
/// IP claim opens, that quote closes the IP.
proof fn lemma_ip_end(
    bs: Seq<u8>,
    sub: Seq<char>,
    exp: nat,
    ip: Seq<char>,
    q: int,
    e: int,
    w: int,
)
    requires
        bs == session_payload_of(sub, exp, ip),
        plain_subject(sub),
        plain_subject(ip),
        q == 8 + sub.len(),
        e == 16 + sub.len() + dec_bytes_of(exp).len(),
        e + 7 <= w < bs.len(),
        bs[w] == '"' as u8,
        forall|j: int| e + 7 <= j < w ==> #[trigger] bs[j] != '"' as u8,
    ensures
        w == 23 + sub.len() + dec_bytes_of(exp).len() + ip.len(),
{
    lemma_session_layout(sub, exp, ip);
    lemma_plain_bytes(ip);
    let ip_end = 23 + sub.len() + dec_bytes_of(exp).len() + ip.len() as int;
    if w < ip_end {
        assert(bs[w] == char_bytes_of(ip)[w - e - 7]);
    }
    if w > ip_end {
        assert(bs[ip_end] == '"' as u8);
    }
}


/// The session registry: one entry per live session, keyed by the full
/// session token.
pub struct SessionStore {
    key: Vec<u8>,
    sessions: StrMap<SessionRecord>,
}

impl SessionStore {
    /// The authentication key.
    pub closed spec fn spec_key(&self) -> Seq<u8> {
        self.key@
    }

    /// The session table, keyed by token.
    pub closed spec fn table(&self) -> Map<Seq<char>, SessionView> {
        views_of(self.sessions@)
    }

    /// An empty registry signing with `key`.
    pub fn new(key: Vec<u8>) -> (r: SessionStore)
        ensures
            r.spec_key() == key@,
            r.table() == Map::<Seq<char>, SessionView>::empty(),
    {
        let r = SessionStore { key, sessions: StrMap::new() };
        proof {
            assert(r.table() =~= Map::<Seq<char>, SessionView>::empty());
        }
        r
    }

    /// Opens a session for `username` from `ip` at instant `now`: mints
    /// the session token, records the entry under it, and returns it.
    pub fn create_session(&mut self, username: &str, ip: &str, now: u64) -> (r: String)
        requires
            plain_subject(username@),
            plain_subject(ip@),
            now <= u64::MAX - SESSION_LIFETIME_SECONDS,
        ensures
            valid_session_token(
                r@,
                old(self).spec_key(),
                username@,
                (now + SESSION_LIFETIME_SECONDS) as u64,
                ip@,
            ),
            final(self).spec_key() == old(self).spec_key(),
            final(self).table() == old(self).table().insert(
                r@,
                SessionView {
                    user: username@,
                    expiry: (now + SESSION_LIFETIME_SECONDS) as u64,
                    ip: ip@,
                },
            ),
    {
        let expiry = now + SESSION_LIFETIME_SECONDS;
        let payload = build_session_payload(username, expiry, ip);
        let tag = hmac_sha256(self.key.as_slice(), payload.as_slice());
        let tag_hex = hex_encode(tag.as_slice());
        proof {
            lemma_session_payload_ascii(username@, expiry as nat, ip@);
        }
        let text = ascii_to_string(payload);
        let token = text.concat(".").concat(tag_hex.as_str());
        proof {
            reveal_strlit(".");
            assert("."@ =~= seq!['.']);
        }
        let record = SessionRecord {
            user: username.to_owned(),
            expiry,
            ip: ip.to_owned(),
        };
        let ghost before = self.sessions@;
        self.sessions.insert(token.as_str(), record);
        proof {
            lemma_views_insert(before, token@, self.sessions@[token@]);
            assert(self.table() =~= old(self).table().insert(
                token@,
                SessionView { user: username@, expiry: expiry, ip: ip@ },
            ));
        }
        token
    }

    /// Validates `token` presented from `ip` at instant `now`: checks
    /// the shape and the tag (in constant time), then the embedded
    /// expiry, then the live entry, its own expiry, and the issuing IP.
    /// Any session token this registry minted is answered exactly as
    /// `session_outcome` prescribes; whatever is accepted is such a
    /// token with a live entry from the same IP.
    pub fn validate_session(&self, token: &str, ip: &str, now: u64) -> (r: Result<
        String,
        SessionError,
    >)
        ensures
            forall|sub: Seq<char>, exp: u64, tip: Seq<char>|
                #[trigger] valid_session_token(token@, self.spec_key(), sub, exp, tip)
                    ==> match r {
                    Ok(u) => session_outcome(self.table(), token@, exp, ip@, now) == Ok::<
                        Seq<char>,
                        SessionError,
                    >(u@),
                    Err(e) => session_outcome(self.table(), token@, exp, ip@, now) == Err::<
                        Seq<char>,
                        SessionError,
                    >(e),
                },
            r matches Ok(u) ==> exists|sub: Seq<char>, exp: u64, tip: Seq<char>|
                #[trigger] valid_session_token(token@, self.spec_key(), sub, exp, tip) && now <= exp
                    && self.table().contains_key(token@) && now <= self.table()[token@].expiry
                    && self.table()[token@].ip == ip@ && u@ == self.table()[token@].user,
    {
        let n = token.unicode_len();
        let i = match find_last_dot(token) {
            Some(i) => i,
            None => {
                proof {
                    assert forall|sub: Seq<char>, exp: u64, tip: Seq<char>| #[trigger]
                        valid_session_token(token@, self.spec_key(), sub, exp, tip)
                        implies false by {
                        let p = session_payload_of(sub, exp as nat, tip);
                        assert(token@[ascii_chars_of(p).len() as int] == '.');
                    }
                }
                return Err(SessionError::MalformedToken);
            },
        };
        let text = token.substring_char(0, i);
        let tag_part = token.substring_char(i + 1, n);
        proof {
            assert forall|sub: Seq<char>, exp: u64, tip: Seq<char>| #[trigger] valid_session_token(
                token@,
                self.spec_key(),
                sub,
                exp,
                tip,
            ) implies text@ == ascii_chars_of(session_payload_of(sub, exp as nat, tip)) && tag_part@
                == hex_chars_of(
                hmac_sha256_of(self.spec_key(), session_payload_of(sub, exp as nat, tip)),
            ) by {
                let p = session_payload_of(sub, exp as nat, tip);
                let a = ascii_chars_of(p);
                let h = hex_chars_of(hmac_sha256_of(self.spec_key(), p));
                lemma_hex_chars_dot_free(hmac_sha256_of(self.spec_key(), p));
                assert(token@[a.len() as int] == '.');
                assert(i as int == a.len()) by {
                    if i < a.len() {
                        assert(token@[a.len() as int] != '.');
                    }
                    if i > a.len() {
                        assert(token@[i as int] == h[i - a.len() - 1]);
                    }
                }
                assert(text@ =~= a);
                assert(tag_part@ =~= h);
            }
        }
        let tag = match hex_decode(tag_part) {
            Some(t) => t,
            None => {
                return Err(SessionError::MalformedToken);
            },
        };
        // the payload bytes are the text's characters, one byte each
        let nt = text.unicode_len();
        let mut payload: Vec<u8> = Vec::new();
        let mut ascii_ok = true;
        let mut k: usize = 0;
        while k < nt
            invariant
                k <= nt == text@.len(),
                payload@ == char_bytes_of(text@.subrange(0, k as int)),
                ascii_ok <==> all_ascii(text@.subrange(0, k as int)),
            decreases nt - k,
        {
            let c = text.get_char(k);
            if (c as u32) >= 128 {
                ascii_ok = false;
            }
            payload.push(c as u8);
            proof {
                assert(payload@ =~= char_bytes_of(text@.subrange(0, k + 1)));
                if ascii_ok {
                    assert forall|j: int| 0 <= j < k + 1 implies #[trigger] (text@.subrange(
                        0,
                        k + 1,
                    )[j] as u32) < 128 by {
                        if j < k {
                            assert((text@.subrange(0, k as int)[j] as u32) < 128);
                        }
                    }
                } else {
                    if all_ascii(text@.subrange(0, k + 1)) {
                        assert forall|j: int| 0 <= j < k implies #[trigger] (text@.subrange(
                            0,
                            k as int,
                        )[j] as u32) < 128 by {
                            assert((text@.subrange(0, k + 1)[j] as u32) < 128);
                        }
                        assert((text@.subrange(0, k + 1)[k as int] as u32) < 128);
                    }
                }
            }
            k += 1;
        }
        if !ascii_ok {
            proof {
                assert(text@.subrange(0, nt as int) =~= text@);
                assert forall|sub: Seq<char>, exp: u64, tip: Seq<char>| #[trigger]
                    valid_session_token(token@, self.spec_key(), sub, exp, tip)
                    implies false by {
                    let p = session_payload_of(sub, exp as nat, tip);
                    lemma_session_payload_ascii(sub, exp as nat, tip);
                    assert(text@ == ascii_chars_of(p));
                    assert forall|j: int| 0 <= j < text@.len() implies #[trigger] (text@[j] as u32)
                        < 128 by {
                        assert(text@[j] == (p[j] as char));
                        assert(p[j] < 128);
                        lemma_u8_char_code(p[j]);
                    }
                }
            }
            return Err(SessionError::MalformedToken);
        }
        proof {
            assert(text@.subrange(0, nt as int) =~= text@);
            assert(all_ascii(text@));
            assert forall|sub: Seq<char>, exp: u64, tip: Seq<char>| #[trigger] valid_session_token(
                token@,
                self.spec_key(),
                sub,
                exp,
                tip,
            ) implies payload@ == session_payload_of(sub, exp as nat, tip) by {
                let p = session_payload_of(sub, exp as nat, tip);
                lemma_session_payload_ascii(sub, exp as nat, tip);
                lemma_char_bytes_of_ascii_chars(p);
            }
        }
        if !hmac_sha256_verify(self.key.as_slice(), payload.as_slice(), tag.as_slice()) {
            return Err(SessionError::BadSignature);
        }
        let parsed = match parse_session_payload(&payload) {
            Some(p) => p,
            None => {
                return Err(SessionError::MalformedToken);
            },
        };
        proof {
            assert forall|sub: Seq<char>, exp: u64, tip: Seq<char>| #[trigger] valid_session_token(
                token@,
                self.spec_key(),
                sub,
                exp,
                tip,
            ) implies parsed.0@ == sub && parsed.1 == exp && parsed.2@ == tip by {
                assert(payload@ == session_payload_of(sub, exp as nat, tip));
            }
        }
        if parsed.1 < now {
            return Err(SessionError::Expired);
        }
        let record = match self.sessions.get(token) {
            Some(rec) => rec,
            None => {
                proof {
                    assert(!self.table().contains_key(token@));
                }
                return Err(SessionError::UnknownSession);
            },
        };
        proof {
            assert(self.table().contains_key(token@) && self.table()[token@] == record@);
        }
        if record.expiry < now {
            return Err(SessionError::SessionExpired);
        }
        if !str_eq(record.ip.as_str(), ip) {
            return Err(SessionError::IpMismatch);
        }
        let user = record.user.as_str().to_owned();
        proof {
            lemma_ascii_chars_of_char_bytes(text@);
            assert(text@ == ascii_chars_of(payload@));
            assert(token@ =~= text@ + seq!['.'] + tag_part@);
            assert(valid_session_token(token@, self.spec_key(), parsed.0@, parsed.1, parsed.2@));
        }
        Ok(user)
    }

    /// Whether `token` from `ip` names a live, unexpired session; the
    /// boolean face of `validate_session`. It answers true only for a
    /// token this registry minted whose entry is live and bound to `ip`.
    pub fn verify_session(&self, token: &str, ip: &str, now: u64) -> (r: bool)
        ensures
            forall|sub: Seq<char>, exp: u64, tip: Seq<char>|
                #[trigger] valid_session_token(token@, self.spec_key(), sub, exp, tip) ==> r
                    == (session_outcome(self.table(), token@, exp, ip@, now) is Ok),
            r ==> exists|sub: Seq<char>, exp: u64, tip: Seq<char>|
                #[trigger] valid_session_token(token@, self.spec_key(), sub, exp, tip) && now <= exp
                    && self.table().contains_key(token@) && now <= self.table()[token@].expiry
                    && self.table()[token@].ip == ip@,
    {
        match self.validate_session(token, ip, now) {
            Ok(_) => true,
            Err(_) => false,
        }
    }

    /// Ends the session named by `token`; revoking an absent session is
    /// not an error and changes nothing.
    pub fn revoke_session(&mut self, token: &str)
        ensures
            final(self).spec_key() == old(self).spec_key(),
            final(self).table() == old(self).table().remove(token@),
    {
        let ghost before = self.sessions@;
        self.sessions.remove(token);
        proof {
            lemma_views_remove(before, token@);
        }
    }
}

/// The hijack defense: a session validated from any IP other than the
/// one it was created from is refused with `IpMismatch`, however valid
/// and unexpired the token and the entry are.
pub proof fn lemma_ip_mismatch_rejected(
    m: Map<Seq<char>, SessionView>,
    t: Seq<char>,
    exp: u64,
    ip: Seq<char>,
    now: u64,
)
    requires
        now <= exp,
        m.contains_key(t),
        now <= m[t].expiry,
        m[t].ip != ip,
    ensures
        session_outcome(m, t, exp, ip, now) == Err::<Seq<char>, SessionError>(
            SessionError::IpMismatch,
        ),
{
}

/// A byte below 128, read as a character, keeps its code.
proof fn lemma_u8_char_code(b: u8)
    requires
        b < 128,
    ensures
        ((b as char) as u32) == b as u32,
{
}

/// Hexadecimal characters are never a dot.
proof fn lemma_hex_chars_dot_free(data: Seq<u8>)
    ensures
        forall|j: int| 0 <= j < hex_chars_of(data).len() ==> #[trigger] hex_chars_of(data)[j]
            != '.',
{
    lemma_hex_bytes_shape(data);
    assert forall|j: int| 0 <= j < hex_chars_of(data).len() implies #[trigger] hex_chars_of(
        data,
    )[j] != '.' by {
        let b = hex_bytes_at(data, j);
        assert(hex_chars_of(data)[j] == (crate::hex::hex_bytes_of(data)[j] as char));
        lemma_hex_byte_range(data, j);
        lemma_ascii_char_cast('.');
    }
}

/// A convenience name for one hexadecimal byte.
spec fn hex_bytes_at(data: Seq<u8>, j: int) -> u8 {
    crate::hex::hex_bytes_of(data)[j]
}

/// Every hexadecimal byte is a digit or a lowercase letter.
proof fn lemma_hex_byte_range(data: Seq<u8>, j: int)
    requires
        0 <= j < crate::hex::hex_bytes_of(data).len(),
    ensures
        48 <= crate::hex::hex_bytes_of(data)[j] <= 102,
    decreases data.len(),
{
    lemma_hex_bytes_shape(data);
    if data.len() > 0 {
        lemma_hex_bytes_shape(data.drop_last());
        if j < 2 * data.len() - 2 {
            lemma_hex_byte_range(data.drop_last(), j);
        } else {
            assert(crate::hex::hex_bytes_of(data)[j] == if j == 2 * data.len() - 2 {
                hex_digit_byte((data.last() / 16) as nat)
            } else {
                hex_digit_byte((data.last() % 16) as nat)
            });
        }
    }
}

} // verus!
