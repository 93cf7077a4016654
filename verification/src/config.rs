//! In-memory configuration storage. Loading from and saving to disk are
//! the caller's concern; this store holds the settings, answers
//! lookups, and parses one line of a settings file into a key and a
//! value, so every operation has an exact contract.

use vstd::prelude::*;

use crate::kvmap::lemma_views_insert;
use crate::kvmap::views_of;
use crate::kvmap::StrMap;
use crate::strutil::trim_str;
use crate::strutil::trimmed_of;

verus! {

use vstd::string::StrSliceExecFns;
use vstd::string::StringExecFns;

/// Whether position `i` holds the first `=` of `s`.
pub open spec fn first_eq_at(s: Seq<char>, i: int) -> bool {
    0 <= i < s.len() && s[i] == '=' && forall|j: int| 0 <= j < i ==> #[trigger] s[j] != '='
}

/// What a settings line means: the first `=` splits it into a trimmed
/// key and a trimmed value; a line without `=` carries no setting.
pub open spec fn config_line_of(s: Seq<char>) -> Option<(Seq<char>, Seq<char>)> {
    if exists|i: int| 0 <= i < s.len() && s[i] == '=' {
        let i = choose|i: int| first_eq_at(s, i);
        Some((trimmed_of(s.subrange(0, i)), trimmed_of(s.subrange(i + 1, s.len() as int))))
    } else {
        None
    }
}

/// Parses one settings line: the text before the first `=` is the key,
/// the text after it the value, both trimmed; a line without `=` is no
/// setting. Reading the file that the lines come from is the caller's
/// concern.
pub fn parse_config_line(line: &str) -> (r: Option<(String, String)>)
    ensures
        match r {
            Some(kv) => config_line_of(line@) == Some((kv.0@, kv.1@)),
            None => config_line_of(line@) is None,
        },
{
    let n = line.unicode_len();
    let mut i: usize = 0;
    while i < n
        invariant
            i <= n == line@.len(),
            forall|j: int| 0 <= j < i ==> #[trigger] line@[j] != '=',
        decreases n - i,
    {
        if line.get_char(i) == '=' {
            proof {
                assert(first_eq_at(line@, i as int));
                let gi = choose|k: int| first_eq_at(line@, k);
                assert(gi == i as int) by {
                    if gi < i {
                        assert(line@[gi] != '=');
                    }
                    if gi > i {
                        assert(line@[i as int] != '=');
                    }
                }
            }
            let key = trim_str(line.substring_char(0, i));
            let value = trim_str(line.substring_char(i + 1, n));
            return Some((key, value));
        }
        i += 1;
    }
    None
}

/// Configuration settings, keyed by name.
pub struct ConfigManager {
    configs: StrMap<String>,
}

impl ConfigManager {
    /// The settings as a map from name to value.
    pub closed spec fn table(&self) -> Map<Seq<char>, Seq<char>> {
        views_of(self.configs@)
    }

    /// An empty configuration store.
    pub fn new() -> (r: ConfigManager)
        ensures
            r.table() == Map::<Seq<char>, Seq<char>>::empty(),
    {
        let r = ConfigManager { configs: StrMap::new() };
        proof {
            assert(r.table() =~= Map::<Seq<char>, Seq<char>>::empty());
        }
        r
    }

    /// The value stored under `key`, if any.
    pub fn get_config(&self, key: &str) -> (r: Option<String>)
        ensures
            match r {
                Some(v) => self.table().contains_key(key@) && v@ == self.table()[key@],
                None => !self.table().contains_key(key@),
            },
    {
        match self.configs.get(key) {
            Some(v) => Some(v.as_str().to_owned()),
            None => None,
        }
    }

    /// Stores `value` under `key`, replacing any previous value.
    pub fn set_config(&mut self, key: &str, value: &str)
        ensures
            final(self).table() == old(self).table().insert(key@, value@),
    {
        let ghost before = self.configs@;
        self.configs.insert(key, value.to_owned());
        proof {
            lemma_views_insert(before, key@, self.configs@[key@]);
        }
    }
}

} // verus!
