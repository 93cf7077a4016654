//! A string-keyed map backed by a vector of pairs, with a mathematical
//! `Map<Seq<char>, V>` view. Every stateful component of the crate (the
//! identity table, the session table, the rate-limit table, the various
//! caches) owns one of these, so their contracts all speak the language
//! of `Map`.

use vstd::prelude::*;

use crate::strutil::str_eq;

verus! {

/// The map described by an association list, later pairs winning.
pub open spec fn assoc_view<V>(s: Seq<(String, V)>) -> Map<Seq<char>, V>
    decreases s.len(),
{
    if s.len() == 0 {
        Map::empty()
    } else {
        assoc_view(s.drop_last()).insert(s.last().0@, s.last().1)
    }
}

/// No two pairs of `s` share a key.
pub open spec fn distinct_keys<V>(s: Seq<(String, V)>) -> bool {
    forall|i: int, j: int| 0 <= i < j < s.len() ==> (#[trigger] s[i]).0@ != (#[trigger] s[j]).0@
}

pub proof fn lemma_assoc_contains<V>(s: Seq<(String, V)>, k: Seq<char>)
    ensures
        assoc_view(s).contains_key(k) <==> exists|i: int| 0 <= i < s.len() && (#[trigger] s[i]).0@
            == k,
    decreases s.len(),
{
    if s.len() > 0 {
        lemma_assoc_contains(s.drop_last(), k);
        if assoc_view(s).contains_key(k) && s.last().0@ != k {
            let i = choose|i: int| 0 <= i < s.drop_last().len() && (#[trigger] s.drop_last()[i]).0@
                == k;
            assert(s[i].0@ == k);
        }
        if exists|i: int| 0 <= i < s.len() && (#[trigger] s[i]).0@ == k {
            let i = choose|i: int| 0 <= i < s.len() && (#[trigger] s[i]).0@ == k;
            if i < s.len() - 1 {
                assert(s.drop_last()[i].0@ == k);
            }
        }
    }
}

pub proof fn lemma_assoc_index<V>(s: Seq<(String, V)>, i: int)
    requires
        distinct_keys(s),
        0 <= i < s.len(),
    ensures
        assoc_view(s).contains_key(s[i].0@),
        assoc_view(s)[s[i].0@] == s[i].1,
    decreases s.len(),
{
    if i < s.len() - 1 {
        assert(s.drop_last()[i] == s[i]);
        lemma_assoc_index(s.drop_last(), i);
        assert(s[i].0@ != s.last().0@);
    }
}

pub proof fn lemma_assoc_absent<V>(s: Seq<(String, V)>, k: Seq<char>)
    requires
        forall|i: int| 0 <= i < s.len() ==> (#[trigger] s[i]).0@ != k,
    ensures
        !assoc_view(s).contains_key(k),
{
    lemma_assoc_contains(s, k);
}

pub proof fn lemma_assoc_len<V>(s: Seq<(String, V)>)
    requires
        distinct_keys(s),
    ensures
        assoc_view(s).dom().finite(),
        assoc_view(s).dom().len() == s.len(),
    decreases s.len(),
{
    if s.len() > 0 {
        assert(distinct_keys(s.drop_last())) by {
            assert(forall|i: int, j: int|
                0 <= i < j < s.len() - 1 ==> (#[trigger] s.drop_last()[i]) == s[i]
                    && (#[trigger] s.drop_last()[j]) == s[j]);
        }
        lemma_assoc_len(s.drop_last());
        assert(forall|i: int|
            0 <= i < s.len() - 1 ==> (#[trigger] s.drop_last()[i]).0@ != s.last().0@);
        lemma_assoc_absent(s.drop_last(), s.last().0@);
    }
}

proof fn lemma_assoc_remove_at<V>(s: Seq<(String, V)>, i: int)
    requires
        distinct_keys(s),
        0 <= i < s.len(),
    ensures
        assoc_view(s.remove(i)) == assoc_view(s).remove(s[i].0@),
    decreases s.len(),
{
    let k = s[i].0@;
    if i == s.len() - 1 {
        assert(s.remove(i) =~= s.drop_last());
        assert(forall|j: int| 0 <= j < s.len() - 1 ==> (#[trigger] s.drop_last()[j]).0@ != k);
        lemma_assoc_absent(s.drop_last(), k);
        assert(assoc_view(s).remove(k) =~= assoc_view(s.drop_last()));
    } else {
        assert(distinct_keys(s.drop_last())) by {
            assert(forall|a: int, b: int|
                0 <= a < b < s.len() - 1 ==> (#[trigger] s.drop_last()[a]) == s[a]
                    && (#[trigger] s.drop_last()[b]) == s[b]);
        }
        assert(s.drop_last()[i] == s[i]);
        lemma_assoc_remove_at(s.drop_last(), i);
        let t = s.remove(i);
        assert(t.len() == s.len() - 1);
        assert(t.last() == s.last());
        assert(t.drop_last() =~= s.drop_last().remove(i));
        assert(assoc_view(t) == assoc_view(s.drop_last().remove(i)).insert(
            s.last().0@,
            s.last().1,
        ));
        assert(k != s.last().0@);
        assert(assoc_view(s.drop_last()).remove(k).insert(s.last().0@, s.last().1)
            =~= assoc_view(s.drop_last()).insert(s.last().0@, s.last().1).remove(k));
    }
}

/// The map with each value replaced by its view.
pub open spec fn views_of<V: View>(m: Map<Seq<char>, V>) -> Map<Seq<char>, V::V> {
    Map::new(|k: Seq<char>| m.contains_key(k), |k: Seq<char>| m[k]@)
}

pub proof fn lemma_views_insert<V: View>(m: Map<Seq<char>, V>, k: Seq<char>, v: V)
    ensures
        views_of(m.insert(k, v)) == views_of(m).insert(k, v@),
{
    assert(views_of(m.insert(k, v)) =~= views_of(m).insert(k, v@));
}

pub proof fn lemma_views_remove<V: View>(m: Map<Seq<char>, V>, k: Seq<char>)
    ensures
        views_of(m.remove(k)) == views_of(m).remove(k),
{
    assert(views_of(m.remove(k)) =~= views_of(m).remove(k));
}

pub proof fn lemma_views_dom<V: View>(m: Map<Seq<char>, V>)
    ensures
        views_of(m).dom() == m.dom(),
{
    assert(views_of(m).dom() =~= m.dom());
}

/// A map from strings to values of type `V`.
pub struct StrMap<V> {
    pairs: Vec<(String, V)>,
}

impl<V> View for StrMap<V> {
    type V = Map<Seq<char>, V>;

    closed spec fn view(&self) -> Map<Seq<char>, V> {
        assoc_view(self.pairs@)
    }
}

#[verifier::type_invariant]
spec fn strmap_inv<V>(m: &StrMap<V>) -> bool {
    distinct_keys(m.pairs@)
}

impl<V> StrMap<V> {
    /// The underlying entries, in insertion order.
    pub closed spec fn entries(&self) -> Seq<(String, V)> {
        self.pairs@
    }

    /// An empty map.
    pub fn new() -> (r: StrMap<V>)
        ensures
            r@ == Map::<Seq<char>, V>::empty(),
            r.entries().len() == 0,
    {
        StrMap { pairs: Vec::new() }
    }

    /// How many keys the map holds.
    pub fn len(&self) -> (r: usize)
        ensures
            r == self@.dom().len(),
            r == self.entries().len(),
            self@.dom().finite(),
    {
        proof {
            use_type_invariant(self);
            lemma_assoc_len(self.pairs@);
        }
        self.pairs.len()
    }

    /// Whether `key` is bound.
    pub fn contains_key(&self, key: &str) -> (r: bool)
        ensures
            r == self@.contains_key(key@),
    {
        proof {
            use_type_invariant(self);
        }
        let n = self.pairs.len();
        let mut i: usize = 0;
        while i < n
            invariant
                i <= n == self.pairs@.len(),
                distinct_keys(self.pairs@),
                forall|j: int| 0 <= j < i ==> (#[trigger] self.pairs@[j]).0@ != key@,
            decreases n - i,
        {
            if str_eq(self.pairs[i].0.as_str(), key) {
                proof {
                    lemma_assoc_index(self.pairs@, i as int);
                }
                return true;
            }
            i += 1;
        }
        proof {
            lemma_assoc_absent(self.pairs@, key@);
        }
        false
    }

    /// The value bound to `key`, if any.
    pub fn get(&self, key: &str) -> (r: Option<&V>)
        ensures
            match r {
                Some(v) => self@.contains_key(key@) && *v == self@[key@],
                None => !self@.contains_key(key@),
            },
    {
        proof {
            use_type_invariant(self);
        }
        let n = self.pairs.len();
        let mut i: usize = 0;
        while i < n
            invariant
                i <= n == self.pairs@.len(),
                distinct_keys(self.pairs@),
                forall|j: int| 0 <= j < i ==> (#[trigger] self.pairs@[j]).0@ != key@,
            decreases n - i,
        {
            if str_eq(self.pairs[i].0.as_str(), key) {
                proof {
                    lemma_assoc_index(self.pairs@, i as int);
                }
                return Some(&self.pairs[i].1);
            }
            i += 1;
        }
        proof {
            lemma_assoc_absent(self.pairs@, key@);
        }
        None
    }

    /// Binds `key` to `value`, replacing any previous binding.
    pub fn insert(&mut self, key: &str, value: V)
        ensures
            final(self)@ == old(self)@.insert(key@, value),
            final(self)@.contains_key(key@),
    {
        proof {
            use_type_invariant(&*self);
        }
        self.remove(key);
        let ghost mid = self.pairs@;
        let mut pairs: Vec<(String, V)> = Vec::new();
        core::mem::swap(&mut pairs, &mut self.pairs);
        pairs.push((key.to_owned(), value));
        self.pairs = pairs;
        proof {
            assert(self.pairs@.drop_last() =~= mid);
            lemma_assoc_absent(mid, key@);
            assert(assoc_view(mid).insert(key@, value) =~= old(self)@.insert(key@, value));
            assert(forall|i: int| 0 <= i < mid.len() ==> (#[trigger] mid[i]).0@ != key@);
        }
    }

    /// Unbinds `key`; absent keys are left alone.
    pub fn remove(&mut self, key: &str)
        ensures
            final(self)@ == old(self)@.remove(key@),
            !final(self)@.contains_key(key@),
            distinct_keys(final(self).entries()),
            forall|i: int|
                0 <= i < final(self).entries().len() ==> (#[trigger] final(self).entries()[i]).0@
                    != key@,
    {
        proof {
            use_type_invariant(&*self);
        }
        let n = self.pairs.len();
        let mut i: usize = 0;
        while i < n
            invariant
                i <= n == self.pairs@.len(),
                self.pairs@ == old(self).pairs@,
                distinct_keys(self.pairs@),
                forall|j: int| 0 <= j < i ==> (#[trigger] self.pairs@[j]).0@ != key@,
            decreases n - i,
        {
            if str_eq(self.pairs[i].0.as_str(), key) {
                proof {
                    lemma_assoc_remove_at(self.pairs@, i as int);
                }
                let ghost pre = self.pairs@;
                let mut pairs: Vec<(String, V)> = Vec::new();
                core::mem::swap(&mut pairs, &mut self.pairs);
                pairs.remove(i);
                self.pairs = pairs;
                proof {
                    assert(forall|a: int|
                        0 <= a < self.pairs@.len() ==> (#[trigger] self.pairs@[a]) == if a < i {
                            pre[a]
                        } else {
                            pre[a + 1]
                        });
                    lemma_assoc_absent(self.pairs@, key@);
                }
                return ;
            }
            i += 1;
        }
        proof {
            lemma_assoc_absent(self.pairs@, key@);
            assert(old(self)@.remove(key@) =~= old(self)@);
        }
    }

    /// Removes every binding.
    pub fn clear(&mut self)
        ensures
            final(self)@ == Map::<Seq<char>, V>::empty(),
            final(self).entries().len() == 0,
    {
        self.pairs = Vec::new();
    }

    /// How many entries the map holds, as the length of `entries`, with
    /// what the view says of them.
    pub fn entry_count(&self) -> (r: usize)
        ensures
            r == self.entries().len(),
            self@ == assoc_view(self.entries()),
            distinct_keys(self.entries()),
    {
        proof {
            use_type_invariant(self);
        }
        self.pairs.len()
    }

    /// The entry at position `i`, with what the view says of it.
    pub fn entry_at(&self, i: usize) -> (r: &(String, V))
        requires
            i < self.entries().len(),
        ensures
            *r == self.entries()[i as int],
            self@.contains_key(r.0@),
            self@[r.0@] == r.1,
    {
        proof {
            use_type_invariant(self);
            lemma_assoc_index(self.pairs@, i as int);
        }
        &self.pairs[i]
    }
}

impl StrMap<String> {
    /// Copies every binding of `self` into `target`, later bindings of
    /// `self` overriding what `target` held.
    pub fn merge_into(&self, target: &mut StrMap<String>)
        ensures
            views_of(final(target)@) == views_of(old(target)@).union_prefer_right(
                views_of(self@),
            ),
    {
        let n = self.entry_count();
        let mut i: usize = 0;
        while i < n
            invariant
                n == self.entries().len(),
                self@ == assoc_view(self.entries()),
                distinct_keys(self.entries()),
                i <= n,
                views_of(target@) == views_of(old(target)@).union_prefer_right(
                    views_of(assoc_view(self.entries().subrange(0, i as int))),
                ),
            decreases n - i,
        {
            let e = self.entry_at(i);
            let ghost before = target@;
            let value = e.1.as_str().to_owned();
            target.insert(e.0.as_str(), value);
            proof {
                lemma_views_insert(before, e.0@, target@[e.0@]);
                let pre = self.entries().subrange(0, i as int);
                let cur = self.entries().subrange(0, i + 1);
                assert(cur.drop_last() =~= pre);
                assert(cur.last() == self.entries()[i as int]);
                assert(assoc_view(cur) == assoc_view(pre).insert(e.0@, cur.last().1));
                lemma_views_insert(assoc_view(pre), e.0@, cur.last().1);
                assert(views_of(target@) =~= views_of(old(target)@).union_prefer_right(
                    views_of(assoc_view(cur)),
                ));
            }
            i += 1;
        }
        proof {
            assert(self.entries().subrange(0, n as int) =~= self.entries());
        }
    }
}

} // verus!
