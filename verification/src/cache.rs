//! Time-windowed memoization.  A cached derivation stays valid for a fixed
//! window after it is stored; a read within the window returns the stored
//! value without recomputing, a read after it returns nothing, telling the
//! caller to recompute and store anew.  Staleness is bounded and accepted
//! by design: this bounds repeated I/O, it is not a correctness mechanism.
//! The caller supplies the clock, in milliseconds.

use vstd::prelude::*;
use crate::strutil::str_eq;

verus! {

/// A single memoized derivation (the global configuration, the composed
/// content, the site metadata: derivations with no input).
pub struct TimedCache<V> {
    ttl: u64,
    slot: Option<(V, u64)>,
}

impl<V> TimedCache<V> {
    /// How long a stored value stays valid.
    pub closed spec fn spec_ttl(&self) -> u64 {
        self.ttl
    }

    /// The stored value and its expiry time.
    pub closed spec fn spec_entry(&self) -> Option<(V, u64)> {
        self.slot
    }

    pub fn new(ttl: u64) -> (r: TimedCache<V>)
        ensures
            r.spec_ttl() == ttl,
            r.spec_entry() is None,
    {
        TimedCache { ttl, slot: None }
    }

    /// The stored value, when one is present and still valid at `now`.
    pub fn get(&self, now: u64) -> (r: Option<&V>)
        ensures
            match self.spec_entry() {
                Some(e) => if now < e.1 {
                    r matches Some(v) && *v == e.0
                } else {
                    r is None
                },
                None => r is None,
            },
    {
        match &self.slot {
            Some(e) => {
                if now < e.1 {
                    Some(&e.0)
                } else {
                    None
                }
            },
            None => None,
        }
    }

    /// Stores a freshly computed value, valid for one window from `now`.
    pub fn put(&mut self, v: V, now: u64)
        requires
            now + old(self).spec_ttl() <= u64::MAX,
        ensures
            final(self).spec_ttl() == old(self).spec_ttl(),
            final(self).spec_entry() matches Some(e) && e.0 == v && e.1 == now + old(
                self,
            ).spec_ttl(),
    {
        let deadline = now + self.ttl;
        self.slot = Some((v, deadline));
    }
}

/// Memoized derivations keyed by a string input (a scanned directory, a
/// parsed file's text).  A later store for the same key wins.
pub struct KeyedCache<V> {
    ttl: u64,
    entries: Vec<(String, V, u64)>,
}

impl<V> KeyedCache<V> {
    pub closed spec fn spec_ttl(&self) -> u64 {
        self.ttl
    }

    /// The live entry for a key: the latest stored value and expiry.
    pub closed spec fn spec_entry(&self, key: Seq<char>) -> Option<(V, u64)> {
        last_entry(self.entries@, key)
    }

    pub fn new(ttl: u64) -> (r: KeyedCache<V>)
        ensures
            r.spec_ttl() == ttl,
            forall|k: Seq<char>| r.spec_entry(k) is None,
    {
        let r = KeyedCache { ttl, entries: Vec::new() };
        proof {
            assert(forall|k: Seq<char>| last_entry(r.entries@, k) is None);
        }
        r
    }

    /// The stored value for `key`, when present and still valid at `now`.
    pub fn get(&self, key: &str, now: u64) -> (r: Option<&V>)
        ensures
            match self.spec_entry(key@) {
                Some(e) => if now < e.1 {
                    r matches Some(v) && *v == e.0
                } else {
                    r is None
                },
                None => r is None,
            },
    {
        let n = self.entries.len();
        let mut i: usize = n;
        while i > 0
            invariant
                i <= n,
                n == self.entries@.len(),
                forall|l: int| i <= l < n ==> (#[trigger] self.entries@[l]).0@ != key@,
            decreases i,
        {
            i = i - 1;
            if str_eq(self.entries[i].0.as_str(), key) {
                proof {
                    lemma_last_entry_at(self.entries@, key@, i as int);
                }
                if now < self.entries[i].2 {
                    return Some(&self.entries[i].1);
                } else {
                    return None;
                }
            }
        }
        proof {
            lemma_last_entry_none(self.entries@, key@);
        }
        None
    }

    /// Stores a value for `key`, valid for one window from `now`.
    pub fn put(&mut self, key: String, v: V, now: u64)
        requires
            now + old(self).spec_ttl() <= u64::MAX,
        ensures
            final(self).spec_ttl() == old(self).spec_ttl(),
            final(self).spec_entry(key@) matches Some(e) && e.0 == v && e.1 == now + old(
                self,
            ).spec_ttl(),
            forall|k: Seq<char>|
                k != key@ ==> #[trigger] final(self).spec_entry(k) == old(self).spec_entry(k),
    {
        let deadline = now + self.ttl;
        let ghost before = self.entries@;
        self.entries.push((key, v, deadline));
        proof {
            assert(self.entries@.drop_last() =~= before);
        }
    }
}

/// The latest entry for a key in a store list.
pub open spec fn last_entry<V>(entries: Seq<(String, V, u64)>, key: Seq<char>) -> Option<(V, u64)>
    decreases entries.len(),
{
    if entries.len() == 0 {
        None
    } else if entries.last().0@ == key {
        Some((entries.last().1, entries.last().2))
    } else {
        last_entry(entries.drop_last(), key)
    }
}

proof fn lemma_last_entry_at<V>(entries: Seq<(String, V, u64)>, key: Seq<char>, j: int)
    requires
        0 <= j < entries.len(),
        entries[j].0@ == key,
        forall|l: int| j < l < entries.len() ==> (#[trigger] entries[l]).0@ != key,
    ensures
        last_entry(entries, key) == Some((entries[j].1, entries[j].2)),
    decreases entries.len(),
{
    if j < entries.len() - 1 {
        assert(entries.last().0@ != key);
        lemma_last_entry_at(entries.drop_last(), key, j);
    }
}

proof fn lemma_last_entry_none<V>(entries: Seq<(String, V, u64)>, key: Seq<char>)
    requires
        forall|l: int| 0 <= l < entries.len() ==> (#[trigger] entries[l]).0@ != key,
    ensures
        last_entry(entries, key) is None,
    decreases entries.len(),
{
    if entries.len() > 0 {
        lemma_last_entry_none(entries.drop_last(), key);
    }
}

} // verus!

