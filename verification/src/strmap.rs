//! An association map with `String` keys held in ascending key order.
//!
//! The configuration maps repository names to repository definitions, and a
//! status message maps branch and remote names to status texts; all of them
//! need deterministic, name-ordered iteration for canonical serialization.

use vstd::prelude::*;

use crate::strutil::lex_lt;

verus! {

/// The entry list after binding `k` to `v`: replaces an equal key, otherwise
/// places the new pair before the first greater key.
pub open spec fn assoc_insert<V>(s: Seq<(String, V)>, k: String, v: V) -> Seq<(String, V)>
    decreases s.len(),
{
    if s.len() == 0 {
        seq![(k, v)]
    } else if lex_lt(k@, s[0].0@) {
        seq![(k, v)] + s
    } else if k@ == s[0].0@ {
        seq![(k, v)] + s.drop_first()
    } else {
        seq![s[0]] + assoc_insert(s.drop_first(), k, v)
    }
}

/// The value bound to `k`, if any.
pub open spec fn assoc_get<V>(s: Seq<(String, V)>, k: Seq<char>) -> Option<V>
    decreases s.len(),
{
    if s.len() == 0 {
        None
    } else if s[0].0@ == k {
        Some(s[0].1)
    } else {
        assoc_get(s.drop_first(), k)
    }
}

/// Inserting a key that no prefix entry equals or exceeds leaves the prefix
/// in place.
proof fn lemma_assoc_insert_prefix<V>(s: Seq<(String, V)>, k: String, v: V, i: int)
    requires
        0 <= i <= s.len(),
        forall|j: int| 0 <= j < i ==> !lex_lt(k@, #[trigger] s[j].0@) && k@ != s[j].0@,
    ensures
        assoc_insert(s, k, v) == s.take(i) + assoc_insert(s.skip(i), k, v),
    decreases i,
{
    if i == 0 {
        assert(s.skip(0) =~= s);
        assert(s.take(0) + assoc_insert(s.skip(0), k, v) =~= assoc_insert(s, k, v));
    } else {
        let t = s.drop_first();
        assert forall|j: int| 0 <= j < i - 1 implies !lex_lt(k@, #[trigger] t[j].0@) && k@
            != t[j].0@ by {
            assert(t[j] == s[j + 1]);
        }
        lemma_assoc_insert_prefix(t, k, v, i - 1);
        assert(t.take(i - 1) =~= s.take(i).drop_first());
        assert(t.skip(i - 1) =~= s.skip(i));
        assert(s.take(i) + assoc_insert(s.skip(i), k, v) =~= seq![s[0]] + (t.take(i - 1)
            + assoc_insert(t.skip(i - 1), k, v)));
    }
}

/// Lookup ignores a prefix of entries whose keys differ from `k`.
proof fn lemma_assoc_get_skip<V>(s: Seq<(String, V)>, k: Seq<char>, i: int)
    requires
        0 <= i <= s.len(),
        forall|j: int| 0 <= j < i ==> #[trigger] s[j].0@ != k,
    ensures
        assoc_get(s, k) == assoc_get(s.skip(i), k),
    decreases i,
{
    if i == 0 {
        assert(s.skip(0) =~= s);
    } else {
        let t = s.drop_first();
        assert forall|j: int| 0 <= j < i - 1 implies #[trigger] t[j].0@ != k by {
            assert(t[j] == s[j + 1]);
        }
        lemma_assoc_get_skip(t, k, i - 1);
        assert(t.skip(i - 1) =~= s.skip(i));
    }
}

/// An association list with `String` keys, kept in ascending key order by
/// `insert`.
#[derive(Debug, Clone, PartialEq)]
pub struct StrMap<V> {
    /// The key/value pairs, ascending by key.
    pub entries: Vec<(String, V)>,
}

impl<V> StrMap<V> {
    /// An empty map.
    pub fn new() -> (r: StrMap<V>)
        ensures
            r.entries@ =~= Seq::<(String, V)>::empty(),
    {
        StrMap { entries: Vec::new() }
    }

    /// The number of entries.
    pub fn len(&self) -> (r: usize)
        ensures
            r == self.entries@.len(),
    {
        self.entries.len()
    }

    /// Whether the map holds no entry.
    pub fn is_empty(&self) -> (r: bool)
        ensures
            r == (self.entries@.len() == 0),
    {
        self.entries.len() == 0
    }

    /// Bind `k` to `v`, replacing any entry with an equal key and otherwise
    /// keeping the entries in ascending key order.
    #[verifier::loop_isolation(false)]
    pub fn insert(&mut self, k: String, v: V)
        ensures
            final(self).entries@ == assoc_insert(old(self).entries@, k, v),
    {
        let ghost s = self.entries@;
        let ghost k0 = k;
        let ghost v0 = v;
        let mut i: usize = 0;
        loop
            invariant
                self.entries@ == s,
                k == k0,
                v == v0,
                i <= s.len(),
                forall|j: int| 0 <= j < i ==> !lex_lt(k@, #[trigger] s[j].0@) && k@ != s[j].0@,
            decreases s.len() - i,
        {
            if i == self.entries.len() {
                proof {
                    lemma_assoc_insert_prefix(s, k, v, i as int);
                    assert(s.take(i as int) =~= s);
                }
                self.entries.push((k, v));
                proof {
                    assert(self.entries@ =~= s.take(s.len() as int) + assoc_insert(
                        s.skip(s.len() as int),
                        k,
                        v,
                    ));
                }
                return ;
            }
            if crate::strutil::str_lt(k.as_str(), self.entries[i].0.as_str()) {
                proof {
                    lemma_assoc_insert_prefix(s, k, v, i as int);
                }
                self.entries.insert(i, (k, v));
                proof {
                    assert(self.entries@ =~= s.take(i as int) + (seq![(k, v)] + s.skip(i as int)));
                }
                return ;
            }
            if crate::strutil::str_eq(k.as_str(), self.entries[i].0.as_str()) {
                proof {
                    lemma_assoc_insert_prefix(s, k, v, i as int);
                }
                self.entries.remove(i);
                self.entries.insert(i, (k, v));
                proof {
                    assert(s.skip(i as int).drop_first() =~= s.skip(i + 1));
                    assert(self.entries@ =~= s.take(i as int) + (seq![(k, v)] + s.skip(i + 1)));
                }
                return ;
            }
            i = i + 1;
        }
    }

    /// The value bound to `k`, if any.
    #[verifier::loop_isolation(false)]
    pub fn get(&self, k: &str) -> (r: Option<&V>)
        ensures
            match r {
                Some(v) => assoc_get(self.entries@, k@) == Some(*v),
                None => assoc_get(self.entries@, k@) is None,
            },
    {
        let ghost s = self.entries@;
        let mut i: usize = 0;
        loop
            invariant
                self.entries@ == s,
                i <= s.len(),
                forall|j: int| 0 <= j < i ==> #[trigger] s[j].0@ != k@,
            decreases s.len() - i,
        {
            if i == self.entries.len() {
                proof {
                    lemma_assoc_get_skip(s, k@, i as int);
                }
                return None;
            }
            if crate::strutil::str_eq(k, self.entries[i].0.as_str()) {
                proof {
                    lemma_assoc_get_skip(s, k@, i as int);
                    assert(s.skip(i as int)[0] == s[i as int]);
                }
                return Some(&self.entries[i].1);
            }
            i = i + 1;
        }
    }

    /// Whether some entry's key equals `k`.
    pub fn contains_key(&self, k: &str) -> (r: bool)
        ensures
            r == (assoc_get(self.entries@, k@) is Some),
    {
        match self.get(k) {
            Some(_) => true,
            None => false,
        }
    }
}

} // verus!
