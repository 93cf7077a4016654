//! Hand-rolled extraction from fetched pages: the document title
//! between its tags, and the result count a search page reports.
//! Fetching the page stays outside the library.

use vstd::prelude::*;

use crate::render::replace_all;
use crate::render::replace_all_str;
use crate::strutil::is_blank;
use crate::strutil::trim_str;
use crate::strutil::trimmed_of;

verus! {

use vstd::string::StrSliceExecFns;
use vstd::string::StringExecFns;

/// Whether `p` occurs in `h` starting at position `i`.
pub open spec fn cmatches_at(h: Seq<char>, p: Seq<char>, i: int) -> bool {
    0 <= i && i + p.len() <= h.len() && h.subrange(i, i + p.len()) == p
}

/// Whether position `i` is the first occurrence of `p` in `h`.
pub open spec fn first_occurrence(h: Seq<char>, p: Seq<char>, i: int) -> bool {
    cmatches_at(h, p, i) && forall|k: int| 0 <= k < i ==> !cmatches_at(h, p, k)
}

/// Two first occurrences are the same occurrence.
pub proof fn lemma_first_occurrence_unique(h: Seq<char>, p: Seq<char>, i1: int, i2: int)
    requires
        first_occurrence(h, p, i1),
        first_occurrence(h, p, i2),
    ensures
        i1 == i2,
{
}

/// The position of the first occurrence of `pat` in `s`, if any.
fn find_str(s: &str, pat: &str) -> (r: Option<usize>)
    requires
        pat@.len() >= 1,
    ensures
        r matches Some(i) ==> first_occurrence(s@, pat@, i as int),
        r is None ==> forall|i: int| !cmatches_at(s@, pat@, i),
{
    let n = s.unicode_len();
    let m = pat.unicode_len();
    if m > n {
        proof {
            assert forall|i: int| !cmatches_at(s@, pat@, i) by {}
        }
        return None;
    }
    let mut i: usize = 0;
    while i <= n - m
        invariant
            1 <= m <= n == s@.len(),
            m == pat@.len(),
            i <= n - m + 1,
            forall|k: int| 0 <= k < i ==> !cmatches_at(s@, pat@, k),
        decreases n - m + 1 - i,
    {
        let mut j: usize = 0;
        let mut hit = true;
        while j < m
            invariant
                i + m <= n == s@.len(),
                m == pat@.len(),
                j <= m,
                hit ==> forall|k: int| 0 <= k < j ==> s@[i + k] == pat@[k],
                !hit ==> !cmatches_at(s@, pat@, i as int),
            decreases m - j,
        {
            if s.get_char(i + j) != pat.get_char(j) {
                proof {
                    if cmatches_at(s@, pat@, i as int) {
                        assert(s@.subrange(i as int, i + m)[j as int] == s@[i + j]);
                    }
                }
                hit = false;
            }
            j += 1;
        }
        if hit {
            proof {
                assert(s@.subrange(i as int, i + m) =~= pat@);
            }
            return Some(i);
        }
        i += 1;
    }
    proof {
        assert forall|k: int| !cmatches_at(s@, pat@, k) by {
            if 0 <= k <= s@.len() - pat@.len() {
                assert(!cmatches_at(s@, pat@, k));
            }
        }
    }
    None
}


/// What sits between the first `<title>` and the first `</title>` that
/// follows it, trimmed; nothing when either tag is missing.
pub open spec fn title_of(h: Seq<char>) -> Option<Seq<char>> {
    if exists|i: int| cmatches_at(h, "<title>"@, i) {
        let i = choose|i: int| first_occurrence(h, "<title>"@, i);
        let rest = h.skip(i + 7);
        if exists|j: int| cmatches_at(rest, "</title>"@, j) {
            let j = choose|j: int| first_occurrence(rest, "</title>"@, j);
            Some(trimmed_of(rest.subrange(0, j)))
        } else {
            None
        }
    } else {
        None
    }
}

/// Extracts the document title, trimmed, from between the first pair
/// of title tags.
pub fn extract_title(html: &str) -> (r: Option<String>)
    ensures
        match r {
            Some(t) => title_of(html@) == Some(t@),
            None => title_of(html@) is None,
        },
{
    proof {
        reveal_strlit("<title>");
        reveal_strlit("</title>");
    }
    let open_at = match find_str(html, "<title>") {
        Some(i) => i,
        None => {
            return None;
        },
    };
    proof {
        let gi = choose|i: int| first_occurrence(html@, "<title>"@, i);
        lemma_first_occurrence_unique(html@, "<title>"@, gi, open_at as int);
    }
    let n = html.unicode_len();
    let rest = html.substring_char(open_at + 7, n);
    let close_at = match find_str(rest, "</title>") {
        Some(j) => j,
        None => {
            return None;
        },
    };
    proof {
        let gj = choose|j: int| first_occurrence(rest@, "</title>"@, j);
        lemma_first_occurrence_unique(rest@, "</title>"@, gj, close_at as int);
        assert(rest@ =~= html@.skip(open_at + 7));
    }
    let content = rest.substring_char(0, close_at);
    let title = trim_str(content);
    Some(title)
}

/// The value of a sequence of decimal digit characters, leading zeros
/// allowed.
pub open spec fn digits_value(s: Seq<char>) -> nat
    decreases s.len(),
{
    if s.len() == 0 {
        0
    } else {
        digits_value(s.drop_last()) * 10 + ((s.last() as u32 - 48) as nat)
    }
}

/// Whether every character of `s` is a decimal digit.
pub open spec fn all_digits(s: Seq<char>) -> bool {
    forall|j: int| 0 <= j < s.len() ==> 48 <= #[trigger] (s[j] as u32) <= 57
}

/// Growing a digit string never lowers its value.
proof fn lemma_digits_value_prefix(s: Seq<char>, k: int)
    requires
        0 <= k <= s.len(),
    ensures
        digits_value(s.subrange(0, k)) <= digits_value(s),
    decreases s.len() - k,
{
    if k < s.len() {
        lemma_digits_value_prefix(s, k + 1);
        assert(s.subrange(0, k + 1).drop_last() =~= s.subrange(0, k));
    } else {
        assert(s.subrange(0, k) =~= s);
    }
}

/// Parses a nonempty digit string, leading zeros allowed, into its
/// value; anything else, or a value beyond `u64`, is rejected.
fn parse_digits_str(s: &str) -> (r: Option<u64>)
    ensures
        match r {
            Some(v) => s@.len() >= 1 && all_digits(s@) && digits_value(s@) == v,
            None => s@.len() == 0 || !all_digits(s@) || digits_value(s@) > u64::MAX,
        },
{
    let n = s.unicode_len();
    if n == 0 {
        return None;
    }
    let mut acc: u64 = 0;
    let mut i: usize = 0;
    while i < n
        invariant
            i <= n == s@.len(),
            acc == digits_value(s@.subrange(0, i as int)),
            forall|j: int| 0 <= j < i ==> 48 <= #[trigger] (s@[j] as u32) <= 57,
        decreases n - i,
    {
        let c = s.get_char(i);
        let u = c as u32;
        if !(48 <= u && u <= 57) {
            return None;
        }
        let step = match acc.checked_mul(10) {
            Some(m) => m.checked_add((u - 48) as u64),
            None => None,
        };
        match step {
            Some(next) => {
                proof {
                    assert(s@.subrange(0, i + 1).drop_last() =~= s@.subrange(0, i as int));
                }
                acc = next;
            },
            None => {
                proof {
                    assert(s@.subrange(0, i + 1).drop_last() =~= s@.subrange(0, i as int));
                    assert(digits_value(s@.subrange(0, i + 1)) > u64::MAX);
                    lemma_digits_value_prefix(s@, i + 1);
                }
                return None;
            },
        }
        i += 1;
    }
    proof {
        assert(s@.subrange(0, n as int) =~= s@);
    }
    Some(acc)
}

/// The count a search page reports between `About ` and ` results`,
/// with thousands separators dropped and blanks trimmed; nothing when
/// the markers are missing or what remains is not a number.
pub open spec fn result_count_of(h: Seq<char>) -> Option<u64> {
    if exists|i: int| cmatches_at(h, "About "@, i) {
        let i = choose|i: int| first_occurrence(h, "About "@, i);
        let rest = h.skip(i + 6);
        if exists|j: int| cmatches_at(rest, " results"@, j) {
            let j = choose|j: int| first_occurrence(rest, " results"@, j);
            let cleaned = trimmed_of(replace_all(rest.subrange(0, j), ","@, Seq::empty()));
            if cleaned.len() >= 1 && all_digits(cleaned) && digits_value(cleaned) <= u64::MAX {
                Some(digits_value(cleaned) as u64)
            } else {
                None
            }
        } else {
            None
        }
    } else {
        None
    }
}

/// Extracts the reported result count, dropping thousands separators.
pub fn extract_result_count(html: &str) -> (r: Option<u64>)
    ensures
        r == result_count_of(html@),
{
    proof {
        reveal_strlit("About ");
        reveal_strlit(" results");
        reveal_strlit(",");
    }
    let start_at = match find_str(html, "About ") {
        Some(i) => i,
        None => {
            return None;
        },
    };
    proof {
        let gi = choose|i: int| first_occurrence(html@, "About "@, i);
        lemma_first_occurrence_unique(html@, "About "@, gi, start_at as int);
    }
    let n = html.unicode_len();
    let rest = html.substring_char(start_at + 6, n);
    let end_at = match find_str(rest, " results") {
        Some(j) => j,
        None => {
            return None;
        },
    };
    proof {
        let gj = choose|j: int| first_occurrence(rest@, " results"@, j);
        lemma_first_occurrence_unique(rest@, " results"@, gj, end_at as int);
        assert(rest@ =~= html@.skip(start_at + 6));
    }
    let region = rest.substring_char(0, end_at);
    let without_commas = replace_all_str(region, ",", "");
    proof {
        reveal_strlit("");
        assert(""@ =~= Seq::<char>::empty());
    }
    let cleaned = trim_str(without_commas.as_str());
    parse_digits_str(cleaned.as_str())
}

} // verus!
