//! Maps keyed by text, kept in insertion order.

use vstd::prelude::*;
use crate::util::text::str_eq;

verus! {

/// Position of the entry with key `k`, when there is one.
pub open spec fn key_position<W>(entries: Seq<(Seq<char>, W)>, k: Seq<char>) -> Option<int> {
    if exists|i: int| 0 <= i < entries.len() && entries[i].0 == k {
        Some(choose|i: int| 0 <= i < entries.len() && entries[i].0 == k)
    } else {
        None
    }
}

/// No key occurs twice.
pub open spec fn keys_distinct<W>(entries: Seq<(Seq<char>, W)>) -> bool {
    forall|i: int, j: int|
        0 <= i < entries.len() && 0 <= j < entries.len() && i != j ==> entries[i].0 != entries[j].0
}

/// The value under `k`, when there is one.
pub open spec fn key_value<W>(entries: Seq<(Seq<char>, W)>, k: Seq<char>) -> Option<W> {
    match key_position(entries, k) {
        Some(i) => Some(entries[i].1),
        None => None,
    }
}

/// Entries after inserting `w` under `k`: an entry with that key keeps its place and takes
/// the new value; otherwise the entry goes last.
pub open spec fn entries_insert<W>(entries: Seq<(Seq<char>, W)>, k: Seq<char>, w: W) -> Seq<(Seq<char>, W)> {
    match key_position(entries, k) {
        Some(i) => entries.update(i, (k, w)),
        None => entries.push((k, w)),
    }
}

/// In entries with distinct keys, the position of a key is where it occurs.
pub proof fn lemma_key_position_unique<W>(entries: Seq<(Seq<char>, W)>, k: Seq<char>, i: int)
    requires
        keys_distinct(entries),
        0 <= i < entries.len(),
        entries[i].0 == k,
    ensures
        key_position(entries, k) == Some(i),
{
    let j = choose|j: int| 0 <= j < entries.len() && entries[j].0 == k;
    assert(0 <= j < entries.len() && entries[j].0 == k);
}

/// Inserting keeps the keys distinct.
pub proof fn lemma_insert_distinct<W>(entries: Seq<(Seq<char>, W)>, k: Seq<char>, w: W)
    requires
        keys_distinct(entries),
    ensures
        keys_distinct(entries_insert(entries, k, w)),
{
    if let Some(i) = key_position(entries, k) {
        let j = choose|j: int| 0 <= j < entries.len() && entries[j].0 == k;
        assert(0 <= j < entries.len() && entries[j].0 == k);
    }
}

/// In entries with distinct keys, reading a key after inserting under it gives the value
/// inserted; reading another key gives what it held before.
pub proof fn lemma_key_value_insert<W>(entries: Seq<(Seq<char>, W)>, k: Seq<char>, w: W, q: Seq<char>)
    requires
        keys_distinct(entries),
    ensures
        key_value(entries_insert(entries, k, w), q) == if q == k {
            Some(w)
        } else {
            key_value(entries, q)
        },
{
    let after = entries_insert(entries, k, w);
    lemma_insert_distinct(entries, k, w);
    match key_position(entries, k) {
        Some(i) => {
            let j = choose|j: int| 0 <= j < entries.len() && entries[j].0 == k;
            assert(0 <= j < entries.len() && entries[j].0 == k);
            assert(after[i].0 == k);
            lemma_key_position_unique(after, k, i);
            if q != k {
                match key_position(entries, q) {
                    Some(m) => {
                        let mm = choose|mm: int| 0 <= mm < entries.len() && entries[mm].0 == q;
                        assert(0 <= mm < entries.len() && entries[mm].0 == q);
                        assert(after[m].0 == q);
                        lemma_key_position_unique(after, q, m);
                    },
                    None => {
                        if key_position(after, q) is Some {
                            let m = choose|m: int| 0 <= m < after.len() && after[m].0 == q;
                            assert(entries[m].0 == q);
                        }
                    },
                }
            }
        },
        None => {
            lemma_key_position_unique(after, k, entries.len() as int);
            if q != k {
                match key_position(entries, q) {
                    Some(m) => {
                        let mm = choose|mm: int| 0 <= mm < entries.len() && entries[mm].0 == q;
                        assert(0 <= mm < entries.len() && entries[mm].0 == q);
                        assert(after[m] == entries[m]);
                        lemma_key_position_unique(after, q, m);
                    },
                    None => {
                        if key_position(after, q) is Some {
                            let m = choose|m: int| 0 <= m < after.len() && after[m].0 == q;
                            assert(m < entries.len());
                            assert(entries[m].0 == q);
                        }
                    },
                }
            }
        },
    }
}

/// A map from text keys to values, entries in insertion order.
#[derive(Debug)]
pub struct StringMap<V: View> {
    entries: Vec<(String, V)>,
}

impl<V: View> View for StringMap<V> {
    type V = Seq<(Seq<char>, V::V)>;

    closed spec fn view(&self) -> Seq<(Seq<char>, V::V)> {
        self.entries@.map_values(|e: (String, V)| (e.0@, e.1@))
    }
}

impl<V: View> StringMap<V> {
    #[verifier::type_invariant]
    closed spec fn inv(self) -> bool {
        keys_distinct(self@)
    }

    /// An empty map.
    pub fn new() -> (r: Self)
        ensures
            r@ == Seq::<(Seq<char>, V::V)>::empty(),
            keys_distinct(r@),
    {
        let m = StringMap { entries: Vec::new() };
        assert(m@ =~= Seq::<(Seq<char>, V::V)>::empty());
        m
    }

    /// Number of entries (the keys being distinct).
    pub fn len(&self) -> (r: usize)
        ensures
            r == self@.len(),
            keys_distinct(self@),
    {
        proof {
            use_type_invariant(self);
        }
        self.entries.len()
    }

    /// Whether the map is empty.
    pub fn is_empty(&self) -> (r: bool)
        ensures
            r == (self@.len() == 0),
    {
        self.entries.len() == 0
    }

    fn position(&self, key: &str) -> (r: Option<usize>)
        ensures
            match r {
                Some(i) => key_position(self@, key@) == Some(i as int),
                None => key_position(self@, key@) is None,
            },
    {
        proof {
            use_type_invariant(self);
        }
        let mut i: usize = 0;
        while i < self.entries.len()
            invariant
                i <= self.entries@.len(),
                self@.len() == self.entries@.len(),
                keys_distinct(self@),
                forall|j: int| 0 <= j < i ==> self@[j].0 != key@,
            decreases self.entries@.len() - i,
        {
            if str_eq(self.entries[i].0.as_str(), key) {
                proof {
                    lemma_key_position_unique(self@, key@, i as int);
                }
                return Some(i);
            }
            i += 1;
        }
        None
    }

    /// The value under `key`.
    pub fn get(&self, key: &str) -> (r: Option<&V>)
        ensures
            match key_value(self@, key@) {
                Some(w) => r matches Some(v) && v@ == w,
                None => r is None,
            },
            keys_distinct(self@),
    {
        proof {
            use_type_invariant(self);
        }
        match self.position(key) {
            Some(i) => Some(&self.entries[i].1),
            None => None,
        }
    }

    /// Whether there is a value under `key`.
    pub fn contains_key(&self, key: &str) -> (r: bool)
        ensures
            r == key_position(self@, key@) is Some,
    {
        self.position(key).is_some()
    }

    /// Inserts `value` under `key`, replacing the value already there.
    pub fn insert(&mut self, key: String, value: V)
        ensures
            final(self)@ == entries_insert(old(self)@, key@, value@),
            keys_distinct(final(self)@),
    {
        proof {
            use_type_invariant(&*self);
            lemma_insert_distinct(self@, key@, value@);
        }
        let ghost kv = key@;
        let ghost vv = value@;
        match self.position(key.as_str()) {
            Some(i) => {
                let ghost before = self@;
                let mut entries = Vec::new();
                std::mem::swap(&mut entries, &mut self.entries);
                entries.set(i, (key, value));
                assert(entries@.map_values(|e: (String, V)| (e.0@, e.1@)) =~= before.update(
                    i as int,
                    (kv, vv),
                ));
                self.entries = entries;
            },
            None => {
                let ghost before = self@;
                let mut entries = Vec::new();
                std::mem::swap(&mut entries, &mut self.entries);
                entries.push((key, value));
                assert(entries@.map_values(|e: (String, V)| (e.0@, e.1@)) =~= before.push((kv, vv)));
                self.entries = entries;
            },
        }
    }

    /// The key of entry `i`.
    pub fn key_at(&self, i: usize) -> (r: &str)
        requires
            i < self@.len(),
        ensures
            r@ == self@[i as int].0,
    {
        self.entries[i].0.as_str()
    }

    /// The key of entry `i`, as the stored string.
    pub fn key_string_at(&self, i: usize) -> (r: &String)
        requires
            i < self@.len(),
        ensures
            r@ == self@[i as int].0,
    {
        &self.entries[i].0
    }

    /// The value of entry `i`.
    pub fn value_at(&self, i: usize) -> (r: &V)
        requires
            i < self@.len(),
        ensures
            r@ == self@[i as int].1,
    {
        &self.entries[i].1
    }
}


impl<V: View + Clone> Clone for StringMap<V> {
    /// A copy with the same keys in the same order and clones of the values.
    fn clone(&self) -> (r: Self)
        ensures
            r@.len() == self@.len(),
            forall|i: int| 0 <= i < self@.len() ==> #[trigger] r@[i].0 == self@[i].0,
    {
        proof {
            use_type_invariant(self);
        }
        let mut entries: Vec<(String, V)> = Vec::new();
        let mut i: usize = 0;
        while i < self.entries.len()
            invariant
                i <= self.entries@.len(),
                self@.len() == self.entries@.len(),
                keys_distinct(self@),
                entries@.len() == i,
                forall|j: int| 0 <= j < i ==> #[trigger] entries@[j].0@ == self@[j].0,
            decreases self.entries@.len() - i,
        {
            let key = self.entries[i].0.clone();
            let value = self.entries[i].1.clone();
            entries.push((key, value));
            i += 1;
        }
        let r = StringMap { entries };
        assert forall|a: int, b: int|
            0 <= a < r@.len() && 0 <= b < r@.len() && a != b implies r@[a].0 != r@[b].0 by {
            assert(r@[a].0 == self@[a].0 && r@[b].0 == self@[b].0);
        }
        r
    }
}

} // verus!
