//! Shared string machinery: ASCII byte/char conversions, decimal
//! rendering and parsing, and string equality with exact contracts.

use vstd::prelude::*;

verus! {

use vstd::string::StringSliceAdditionalSpecFns;

/// The characters of an ASCII byte sequence, one character per byte.
pub open spec fn ascii_chars_of(s: Seq<u8>) -> Seq<char> {
    s.map_values(|b: u8| b as char)
}

/// The bytes of a sequence of characters that are all below 128.
pub open spec fn char_bytes_of(s: Seq<char>) -> Seq<u8> {
    s.map_values(|c: char| c as u8)
}

/// All characters of `s` lie in the ASCII range.
pub open spec fn all_ascii(s: Seq<char>) -> bool {
    forall|i: int| 0 <= i < s.len() ==> #[trigger] (s[i] as u32) < 128
}

pub proof fn lemma_char_bytes_of_ascii_chars(s: Seq<u8>)
    requires
        forall|i: int| 0 <= i < s.len() ==> #[trigger] s[i] < 128,
    ensures
        char_bytes_of(ascii_chars_of(s)) == s,
        all_ascii(ascii_chars_of(s)),
{
    assert(char_bytes_of(ascii_chars_of(s)) =~= s);
}

/// Casting an ASCII character to a byte keeps its code, and casting
/// back yields the same character.
pub proof fn lemma_ascii_char_cast(c: char)
    requires
        (c as u32) < 128,
    ensures
        ((c as u8) as char) == c,
        (c as u8) as u32 == c as u32,
{
    let b = c as u8;
    assert(b as u32 == c as u32);
    assert((b as char) == c);
}

pub proof fn lemma_ascii_chars_of_char_bytes(s: Seq<char>)
    requires
        all_ascii(s),
    ensures
        ascii_chars_of(char_bytes_of(s)) == s,
        forall|i: int| 0 <= i < s.len() ==> #[trigger] char_bytes_of(s)[i] < 128,
{
    assert forall|i: int| 0 <= i < s.len() implies #[trigger] char_bytes_of(s)[i] < 128
        && ascii_chars_of(char_bytes_of(s))[i] == s[i] by {
        assert(char_bytes_of(s)[i] == s[i] as u8);
        assert((s[i] as u32) < 128);
        lemma_ascii_char_cast(s[i]);
    }
    assert(ascii_chars_of(char_bytes_of(s)) =~= s);
}

/// Ten to the `k`.
pub open spec fn pow10(k: nat) -> nat
    decreases k,
{
    if k == 0 {
        1
    } else {
        10 * pow10((k - 1) as nat)
    }
}

proof fn lemma_dec_bytes_len_bound(n: nat, k: nat)
    requires
        k >= 1,
        n < pow10(k),
    ensures
        dec_bytes_of(n).len() <= k,
    decreases k,
{
    if n >= 10 {
        assert(pow10(k) == 10 * pow10((k - 1) as nat));
        if k == 1 {
            assert(pow10(1) == 10) by {
                reveal_with_fuel(pow10, 3);
            }
            assert(false);
        }
        let p = pow10((k - 1) as nat);
        assert(n / 10 < p) by (nonlinear_arith)
            requires
                n < 10 * p,
                n >= 10,
        ;
        lemma_dec_bytes_len_bound(n / 10, (k - 1) as nat);
    }
}

/// A `u64` has at most twenty decimal digits.
pub proof fn lemma_dec_bytes_len_u64(n: nat)
    requires
        n <= u64::MAX,
    ensures
        dec_bytes_of(n).len() <= 20,
{
    assert(pow10(20) == 0x5_6BC7_5E2D_6310_0000) by {
        reveal_with_fuel(pow10, 21);
    }
    lemma_dec_bytes_len_bound(n, 20);
}

pub open spec fn is_digit_byte(b: u8) -> bool {
    48 <= b <= 57
}

/// The ASCII byte of the decimal digit `d`.
pub open spec fn digit_byte(d: nat) -> u8
    recommends
        d < 10,
{
    (48 + d) as u8
}

/// The decimal digits of `n` as ASCII bytes, most significant first,
/// with no leading zero.
pub open spec fn dec_bytes_of(n: nat) -> Seq<u8>
    decreases n,
{
    if n < 10 {
        seq![digit_byte(n)]
    } else {
        dec_bytes_of(n / 10).push(digit_byte(n % 10))
    }
}

/// The decimal digits of `n` as characters, most significant first.
pub open spec fn dec_chars_of(n: nat) -> Seq<char> {
    ascii_chars_of(dec_bytes_of(n))
}

pub proof fn lemma_dec_bytes_shape(n: nat)
    ensures
        dec_bytes_of(n).len() >= 1,
        forall|i: int|
            0 <= i < dec_bytes_of(n).len() ==> is_digit_byte(#[trigger] dec_bytes_of(n)[i]),
        dec_bytes_of(n)[0] == 48 <==> n == 0,
    decreases n,
{
    if n >= 10 {
        lemma_dec_bytes_shape(n / 10);
    }
}

/// Appends the decimal digits of `m` to `out`.
pub fn push_dec_digits(m: u64, out: &mut Vec<u8>)
    ensures
        final(out)@ == old(out)@ + dec_bytes_of(m as nat),
    decreases m,
{
    if m >= 10 {
        push_dec_digits(m / 10, out);
    }
    out.push(48 + (m % 10) as u8);
}

/// The decimal digits of `n` as a byte vector.
pub fn dec_bytes(n: u64) -> (r: Vec<u8>)
    ensures
        r@ == dec_bytes_of(n as nat),
{
    let mut out: Vec<u8> = Vec::new();
    push_dec_digits(n, &mut out);
    out
}

/// The value of a sequence of decimal digit bytes, most significant first.
pub open spec fn dec_val_of(s: Seq<u8>) -> nat
    decreases s.len(),
{
    if s.len() == 0 {
        0
    } else {
        dec_val_of(s.drop_last()) * 10 + ((s.last() - 48) as nat)
    }
}

pub proof fn lemma_dec_val_of_dec_bytes(n: nat)
    ensures
        dec_val_of(dec_bytes_of(n)) == n,
    decreases n,
{
    if n < 10 {
        let s = dec_bytes_of(n);
        assert(s == seq![digit_byte(n)]);
        assert(s.len() == 1);
        assert(s.last() == digit_byte(n));
        assert(s.drop_last() =~= Seq::<u8>::empty());
        assert(dec_val_of(s.drop_last()) == 0);
        assert(dec_val_of(s) == dec_val_of(s.drop_last()) * 10 + ((s.last() - 48) as nat));
        assert(digit_byte(n) == (48 + n) as u8);
        assert(((48 + n) as u8) as nat == 48 + n);
    } else {
        lemma_dec_val_of_dec_bytes(n / 10);
        assert(dec_bytes_of(n).drop_last() =~= dec_bytes_of(n / 10));
        assert(dec_bytes_of(n).last() == digit_byte(n % 10));
        assert((digit_byte(n % 10) - 48) as nat == n % 10);
        vstd::arithmetic::div_mod::lemma_fundamental_div_mod(n as int, 10);
    }
}

/// A nonempty all-digit sequence without a leading zero (unless it is the
/// single digit zero) is the canonical decimal rendering of its value.
pub proof fn lemma_canonical_digits(s: Seq<u8>)
    requires
        s.len() >= 1,
        forall|i: int| 0 <= i < s.len() ==> is_digit_byte(#[trigger] s[i]),
        s[0] != 48 || s.len() == 1,
    ensures
        s == dec_bytes_of(dec_val_of(s)),
        s.len() > 1 ==> dec_val_of(s) >= 10,
    decreases s.len(),
{
    if s.len() == 1 {
        assert(s.drop_last() =~= Seq::<u8>::empty());
        assert(dec_val_of(s.drop_last()) == 0);
        assert(s.last() == s[0]);
        assert(dec_val_of(s) == dec_val_of(s.drop_last()) * 10 + ((s.last() - 48) as nat));
        assert(dec_val_of(s) == ((s[0] - 48) as nat));
        assert(dec_val_of(s) < 10);
        assert(digit_byte(dec_val_of(s)) == s[0]);
        assert(s =~= dec_bytes_of(dec_val_of(s)));
    } else {
        let s1 = s.drop_last();
        assert(forall|i: int| 0 <= i < s1.len() ==> is_digit_byte(#[trigger] s1[i]));
        lemma_canonical_digits(s1);
        let v1 = dec_val_of(s1);
        let d = (s.last() - 48) as nat;
        if s1.len() == 1 {
            assert(v1 >= 1) by {
                assert(s1[0] != 48);
                assert(s1.drop_last() =~= Seq::<u8>::empty());
            }
        }
        let v = dec_val_of(s);
        assert(v == v1 * 10 + d);
        assert(v1 >= 1);
        assert(v >= 10);
        assert(v / 10 == v1 && v % 10 == d) by (nonlinear_arith)
            requires
                v == v1 * 10 + d,
                d < 10,
        ;
        assert(dec_bytes_of(v) =~= dec_bytes_of(v1).push(digit_byte(d)));
        assert(s =~= s1.push(s.last()));
    }
}

/// Appending digit bytes never lowers the value read so far.
proof fn lemma_dec_val_prefix_bound(s: Seq<u8>, k: int)
    requires
        0 <= k <= s.len(),
    ensures
        dec_val_of(s.subrange(0, k)) <= dec_val_of(s),
    decreases s.len() - k,
{
    if k < s.len() {
        lemma_dec_val_prefix_bound(s, k + 1);
        let p = s.subrange(0, k + 1);
        assert(p.drop_last() =~= s.subrange(0, k));
        assert(dec_val_of(s.subrange(0, k)) <= dec_val_of(p));
    } else {
        assert(s.subrange(0, k) =~= s);
    }
}

/// Parses the byte range `[from, to)` of `b` as a canonical decimal
/// number: nonempty, all digits, no leading zero, and within `u64`.
pub fn parse_dec_range(b: &Vec<u8>, from: usize, to: usize) -> (r: Option<u64>)
    requires
        from <= to <= b@.len(),
    ensures
        r matches Some(v) ==> b@.subrange(from as int, to as int) == dec_bytes_of(v as nat),
        forall|v: u64|
            b@.subrange(from as int, to as int) == dec_bytes_of(v as nat) ==> r == Some(v),
{
    let ghost s = b@.subrange(from as int, to as int);
    if from == to {
        proof {
            assert forall|v: u64| s == dec_bytes_of(v as nat) implies false by {
                lemma_dec_bytes_shape(v as nat);
            }
        }
        return None;
    }
    if b[from] == 48 && to - from > 1 {
        proof {
            assert forall|v: u64| s == dec_bytes_of(v as nat) implies false by {
                lemma_dec_bytes_shape(v as nat);
                assert(s[0] == 48);
            }
        }
        return None;
    }
    let mut acc: u64 = 0;
    let mut i = from;
    while i < to
        invariant
            from <= i <= to <= b@.len(),
            s == b@.subrange(from as int, to as int),
            acc as nat == dec_val_of(b@.subrange(from as int, i as int)),
            forall|j: int| from <= j < i ==> is_digit_byte(#[trigger] b@[j]),
        decreases to - i,
    {
        let d = b[i];
        if !(48 <= d && d <= 57) {
            proof {
                assert forall|v: u64| s == dec_bytes_of(v as nat) implies false by {
                    lemma_dec_bytes_shape(v as nat);
                    assert(s[i - from] == d);
                }
            }
            return None;
        }
        let step = match acc.checked_mul(10) {
            Some(m) => m.checked_add((d - 48) as u64),
            None => None,
        };
        match step {
            Some(next) => {
                proof {
                    assert(b@.subrange(from as int, i + 1 as int).drop_last() =~= b@.subrange(
                        from as int,
                        i as int,
                    ));
                }
                acc = next;
            },
            None => {
                proof {
                    let ghost pre = b@.subrange(from as int, i + 1 as int);
                    assert(pre.drop_last() =~= b@.subrange(from as int, i as int));
                    assert(dec_val_of(pre) > u64::MAX);
                    assert forall|v: u64| s == dec_bytes_of(v as nat) implies false by {
                        lemma_dec_val_of_dec_bytes(v as nat);
                        lemma_dec_val_prefix_bound(s, i + 1 - from);
                        assert(pre =~= s.subrange(0, i + 1 - from));
                    }
                }
                return None;
            },
        }
        i += 1;
    }
    proof {
        assert(b@.subrange(from as int, to as int) =~= s);
        lemma_canonical_digits(s);
        assert forall|v: u64| s == dec_bytes_of(v as nat) implies acc == v by {
            lemma_dec_val_of_dec_bytes(v as nat);
        }
    }
    Some(acc)
}

/// Relies on std's String::from_utf8: UTF-8 agrees with ASCII below 128,
/// so a vector of ASCII bytes becomes the string of exactly those
/// characters, one per byte.
#[verifier::external_body]
pub fn ascii_to_string(bytes: Vec<u8>) -> (r: String)
    requires
        forall|i: int| 0 <= i < bytes@.len() ==> #[trigger] bytes@[i] < 128,
    ensures
        r@ == ascii_chars_of(bytes@),
{
    String::from_utf8(bytes).expect("ASCII bytes are valid UTF-8")
}

/// The blanks `trim` strips.
pub open spec fn is_blank(c: char) -> bool {
    c == ' ' || c == '\t' || c == '\n' || c == '\r'
}

/// `s` with leading and trailing blanks removed.
pub open spec fn trimmed_of(s: Seq<char>) -> Seq<char>
    decreases s.len(),
{
    if s.len() == 0 {
        s
    } else if is_blank(s[0]) {
        trimmed_of(s.skip(1))
    } else if is_blank(s.last()) {
        trimmed_of(s.drop_last())
    } else {
        s
    }
}

/// A blank-bounded middle slice is the trimmed sequence.
pub proof fn lemma_trim_window(s: Seq<char>, a: int, b: int)
    requires
        0 <= a <= b <= s.len(),
        forall|j: int| 0 <= j < a ==> is_blank(#[trigger] s[j]),
        forall|j: int| b <= j < s.len() ==> is_blank(#[trigger] s[j]),
        a < b ==> !is_blank(s[a]) && !is_blank(s[b - 1]),
    ensures
        trimmed_of(s) == s.subrange(a, b),
    decreases s.len(),
{
    if s.len() == 0 {
        assert(s.subrange(a, b) =~= s);
    } else if is_blank(s[0]) {
        let t = s.skip(1);
        if a == 0 {
            assert(b == 0);
            lemma_trim_window(t, 0, 0);
            assert(t.subrange(0, 0) =~= s.subrange(0, 0));
        } else {
            assert(forall|j: int| 0 <= j < a - 1 ==> is_blank(#[trigger] t[j]));
            assert(forall|j: int| b - 1 <= j < t.len() ==> is_blank(#[trigger] t[j]));
            lemma_trim_window(t, a - 1, b - 1);
            assert(t.subrange(a - 1, b - 1) =~= s.subrange(a, b));
        }
    } else if is_blank(s.last()) {
        assert(a == 0);
        assert(b < s.len()) by {
            if b == s.len() {
                assert(!is_blank(s[b - 1]));
            }
        }
        let t = s.drop_last();
        lemma_trim_window(t, a, b);
        assert(t.subrange(a, b) =~= s.subrange(a, b));
    } else {
        assert(a == 0);
        assert(b == s.len()) by {
            if b < s.len() {
                assert(is_blank(s[s.len() - 1]));
            }
        }
        assert(s.subrange(0, s.len() as int) =~= s);
    }
}

/// Whether `c` is a blank `trim` strips.
pub fn is_blank_char(c: char) -> (r: bool)
    ensures
        r == is_blank(c),
{
    c == ' ' || c == '\t' || c == '\n' || c == '\r'
}

/// `s` with leading and trailing blanks removed.
pub fn trim_str(s: &str) -> (r: String)
    ensures
        r@ == trimmed_of(s@),
{
    let n = s.unicode_len();
    let mut a: usize = 0;
    while a < n && is_blank_char(s.get_char(a))
        invariant
            a <= n == s@.len(),
            forall|j: int| 0 <= j < a ==> is_blank(#[trigger] s@[j]),
        decreases n - a,
    {
        a += 1;
    }
    let mut b: usize = n;
    while b > a && is_blank_char(s.get_char(b - 1))
        invariant
            a <= b <= n == s@.len(),
            forall|j: int| 0 <= j < a ==> is_blank(#[trigger] s@[j]),
            forall|j: int| b <= j < n ==> is_blank(#[trigger] s@[j]),
        decreases b,
    {
        b -= 1;
    }
    proof {
        lemma_trim_window(s@, a as int, b as int);
    }
    s.substring_char(a, b).to_owned()
}

/// The position of the last dot in `s`, if there is one.
pub fn find_last_dot(s: &str) -> (r: Option<usize>)
    ensures
        r matches Some(i) ==> i < s@.len() && s@[i as int] == '.' && (forall|j: int|
            i < j < s@.len() ==> #[trigger] s@[j] != '.'),
        r is None ==> forall|j: int| 0 <= j < s@.len() ==> #[trigger] s@[j] != '.',
{
    let n = s.unicode_len();
    let mut i: usize = n;
    while i > 0
        invariant
            i <= n == s@.len(),
            forall|j: int| i <= j < n ==> #[trigger] s@[j] != '.',
        decreases i,
    {
        i -= 1;
        if s.get_char(i) == '.' {
            return Some(i);
        }
    }
    None
}

/// Relies on std's String::push: appends exactly one character.
#[verifier::external_body]
pub fn push_char(s: &mut String, c: char)
    ensures
        final(s)@ == old(s)@.push(c),
{
    s.push(c);
}

/// Whether some string of `v` holds exactly the characters `s`.
pub open spec fn contains_str(v: Seq<String>, s: Seq<char>) -> bool {
    exists|i: int| 0 <= i < v.len() && (#[trigger] v[i])@ == s
}

/// Whether `v` holds a string equal to `s`.
pub fn vec_contains_str(v: &Vec<String>, s: &str) -> (r: bool)
    ensures
        r == contains_str(v@, s@),
{
    let n = v.len();
    let mut i: usize = 0;
    while i < n
        invariant
            i <= n == v@.len(),
            forall|j: int| 0 <= j < i ==> (#[trigger] v@[j])@ != s@,
        decreases n - i,
    {
        if str_eq(v[i].as_str(), s) {
            return true;
        }
        i += 1;
    }
    false
}

/// Whether two string slices hold the same characters.
pub fn str_eq(a: &str, b: &str) -> (r: bool)
    ensures
        r == (a@ == b@),
{
    let sa: String = a.to_owned();
    let sb: String = b.to_owned();
    sa == sb
}

} // verus!
