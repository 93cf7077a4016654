//! Lowercase hexadecimal encoding and its strict inverse.

use vstd::prelude::*;

use crate::strutil::ascii_chars_of;
use crate::strutil::ascii_to_string;

verus! {

/// The ASCII byte of the lowercase hexadecimal digit `d`.
pub open spec fn hex_digit_byte(d: nat) -> u8
    recommends
        d < 16,
{
    if d < 10 {
        (48 + d) as u8
    } else {
        (87 + d) as u8
    }
}

/// The lowercase hexadecimal rendering of `data`, two ASCII bytes per
/// input byte, most significant digit first.
pub open spec fn hex_bytes_of(data: Seq<u8>) -> Seq<u8>
    decreases data.len(),
{
    if data.len() == 0 {
        Seq::empty()
    } else {
        hex_bytes_of(data.drop_last()) + seq![
            hex_digit_byte((data.last() / 16) as nat),
            hex_digit_byte((data.last() % 16) as nat),
        ]
    }
}

/// The lowercase hexadecimal rendering of `data` as characters.
pub open spec fn hex_chars_of(data: Seq<u8>) -> Seq<char> {
    ascii_chars_of(hex_bytes_of(data))
}

pub proof fn lemma_hex_bytes_shape(data: Seq<u8>)
    ensures
        hex_bytes_of(data).len() == 2 * data.len(),
        forall|i: int| 0 <= i < 2 * data.len() ==> #[trigger] hex_bytes_of(data)[i] < 128,
    decreases data.len(),
{
    if data.len() > 0 {
        lemma_hex_bytes_shape(data.drop_last());
    }
}

/// The value of a lowercase hexadecimal digit byte, if it is one.
fn hex_val(b: u8) -> (r: Option<u8>)
    ensures
        r matches Some(v) ==> v < 16 && b == hex_digit_byte(v as nat),
        forall|v: nat| v < 16 && b == hex_digit_byte(v) ==> r == Some(v as u8),
{
    if 48 <= b && b <= 57 {
        Some(b - 48)
    } else if 97 <= b && b <= 102 {
        Some(b - 87)
    } else {
        None
    }
}

/// Renders `data` as a lowercase hexadecimal string.
pub fn hex_encode(data: &[u8]) -> (r: String)
    ensures
        r@ == hex_chars_of(data@),
        r@.len() == 2 * data@.len(),
{
    let mut out: Vec<u8> = Vec::new();
    let mut i: usize = 0;
    while i < data.len()
        invariant
            i <= data@.len(),
            out@ == hex_bytes_of(data@.subrange(0, i as int)),
        decreases data@.len() - i,
    {
        let b = data[i];
        if b / 16 < 10 {
            out.push(48 + b / 16);
        } else {
            out.push(87 + b / 16);
        }
        if b % 16 < 10 {
            out.push(48 + b % 16);
        } else {
            out.push(87 + b % 16);
        }
        proof {
            let pre = data@.subrange(0, i + 1 as int);
            assert(pre.drop_last() =~= data@.subrange(0, i as int));
            assert(pre.last() == b);
            assert(out@ =~= hex_bytes_of(pre));
        }
        i += 1;
    }
    proof {
        assert(data@.subrange(0, data@.len() as int) =~= data@);
        lemma_hex_bytes_shape(data@);
    }
    ascii_to_string(out)
}

/// Decodes a lowercase hexadecimal string; rejects anything the encoder
/// could not have produced (odd length, uppercase, other characters).
pub fn hex_decode(s: &str) -> (r: Option<Vec<u8>>)
    ensures
        r matches Some(v) ==> s@ == hex_chars_of(v@),
        forall|v: Seq<u8>| s@ == hex_chars_of(v) ==> (r matches Some(w) && w@ == v),
{
    let n = s.unicode_len();
    if n % 2 != 0 {
        proof {
            assert forall|v: Seq<u8>| s@ == hex_chars_of(v) implies false by {
                lemma_hex_bytes_shape(v);
            }
        }
        return None;
    }
    let mut out: Vec<u8> = Vec::new();
    let mut i: usize = 0;
    while i < n
        invariant
            i <= n == s@.len(),
            i % 2 == 0,
            n % 2 == 0,
            s@.subrange(0, i as int) == hex_chars_of(out@),
            out@.len() * 2 == i,
        decreases n - i,
    {
        proof {
            assert(i + 2 <= n) by {
                assert(i % 2 == 0 && n % 2 == 0 && i < n);
            }
        }
        let hi_c = s.get_char(i);
        let lo_c = s.get_char(i + 1);
        let ghost pre_out = out@;
        let hi_u = hi_c as u32;
        let lo_u = lo_c as u32;
        let hi = if hi_u < 128 {
            hex_val(hi_u as u8)
        } else {
            None
        };
        let lo = if lo_u < 128 {
            hex_val(lo_u as u8)
        } else {
            None
        };
        match (hi, lo) {
            (Some(h), Some(l)) => {
                out.push(h * 16 + l);
                proof {
                    let v2 = out@;
                    assert(v2.drop_last() =~= pre_out);
                    assert(hex_bytes_of(v2).len() == i + 2) by {
                        lemma_hex_bytes_shape(v2);
                    }
                    assert(v2.last() == h * 16 + l);
                    assert((v2.last() / 16) as nat == h as nat && (v2.last() % 16) as nat
                        == l as nat) by (nonlinear_arith)
                        requires
                            v2.last() == h * 16 + l,
                            h < 16,
                            l < 16,
                    ;
                    assert(hex_bytes_of(v2) == hex_bytes_of(pre_out) + seq![
                        hex_digit_byte(h as nat),
                        hex_digit_byte(l as nat),
                    ]);
                    assert(hi_c == (hex_digit_byte(h as nat) as char));
                    assert(lo_c == (hex_digit_byte(l as nat) as char));
                    assert forall|j: int| 0 <= j < i + 2 implies s@.subrange(0, i + 2)[j]
                        == hex_chars_of(v2)[j] by {
                        if j < i {
                            assert(s@.subrange(0, i as int)[j] == hex_chars_of(pre_out)[j]);
                        }
                    }
                    assert(s@.subrange(0, i + 2) =~= hex_chars_of(v2));
                }
                i += 2;
            },
            _ => {
                proof {
                    assert forall|v: Seq<u8>| s@ == hex_chars_of(v) implies false by {
                        lemma_hex_bytes_shape(v);
                        let k = i / 2;
                        lemma_hex_prefix(v, k as int);
                        // the characters at i and i + 1 come from byte k of v
                        assert(s@[i as int] == (hex_digit_byte((v[k as int] / 16) as nat) as char));
                        assert(s@[i + 1] == (hex_digit_byte((v[k as int] % 16) as nat) as char));
                    }
                }
                return None;
            },
        }
    }
    proof {
        assert(s@.subrange(0, n as int) =~= s@);
        assert forall|v: Seq<u8>| s@ == hex_chars_of(v) implies out@ == v by {
            lemma_hex_injective(out@, v);
        }
    }
    Some(out)
}

/// Bytes before index `k` fix the first `2 * k` hexadecimal characters,
/// and byte `k` fixes the next two.
proof fn lemma_hex_prefix(v: Seq<u8>, k: int)
    requires
        0 <= k < v.len(),
    ensures
        hex_bytes_of(v)[2 * k] == hex_digit_byte((v[k] / 16) as nat),
        hex_bytes_of(v)[2 * k + 1] == hex_digit_byte((v[k] % 16) as nat),
    decreases v.len(),
{
    lemma_hex_bytes_shape(v);
    if k == v.len() - 1 {
        lemma_hex_bytes_shape(v.drop_last());
    } else {
        lemma_hex_prefix(v.drop_last(), k);
        lemma_hex_bytes_shape(v.drop_last());
    }
}

/// Two byte sequences with the same hexadecimal rendering are equal.
proof fn lemma_hex_injective(a: Seq<u8>, b: Seq<u8>)
    requires
        hex_chars_of(a) == hex_chars_of(b),
    ensures
        a == b,
    decreases a.len(),
{
    lemma_hex_bytes_shape(a);
    lemma_hex_bytes_shape(b);
    assert(hex_chars_of(a).len() == hex_bytes_of(a).len());
    assert(hex_chars_of(b).len() == hex_bytes_of(b).len());
    assert(2 * a.len() == 2 * b.len());
    assert(a.len() == b.len());
    if a.len() > 0 {
        let ha = hex_bytes_of(a);
        let hb = hex_bytes_of(b);
        assert forall|i: int| 0 <= i < ha.len() implies ha[i] == hb[i] by {
            assert(ascii_chars_of(ha)[i] == ascii_chars_of(hb)[i]);
            assert((ha[i] as char) == (hb[i] as char));
        }
        let k = a.len() - 1;
        lemma_hex_prefix(a, k);
        lemma_hex_prefix(b, k);
        lemma_hex_digit_injective((a[k] / 16) as nat, (b[k] / 16) as nat);
        lemma_hex_digit_injective((a[k] % 16) as nat, (b[k] % 16) as nat);
        assert(a[k] == b[k]);
        assert(hex_chars_of(a.drop_last()) =~= hex_chars_of(a).subrange(0, 2 * k));
        assert(hex_chars_of(b.drop_last()) =~= hex_chars_of(b).subrange(0, 2 * k));
        lemma_hex_injective(a.drop_last(), b.drop_last());
        assert forall|i: int| 0 <= i < a.len() implies a[i] == b[i] by {
            if i < k {
                assert(a.drop_last()[i] == b.drop_last()[i]);
            }
        }
        assert(a =~= b);
    } else {
        assert(a =~= b);
    }
}

proof fn lemma_hex_digit_injective(x: nat, y: nat)
    requires
        x < 16,
        y < 16,
        hex_digit_byte(x) == hex_digit_byte(y),
    ensures
        x == y,
{
}

} // verus!
