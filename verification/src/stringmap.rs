//! A map from strings to values, kept as the list of what was inserted.

use crate::text::str_eq;
use vstd::prelude::*;
use vstd::string::*;

verus! {

/// A key and what it stands for.
pub struct Entry<V> {
    key: String,
    value: V,
}

/// A map keyed by strings. An insertion under a key that is already there
/// replaces what the key stood for.
pub struct StringMap<V> {
    entries: Vec<Entry<V>>,
}

/// The map that holds the first `n` of the entries, a later entry taking
/// the place of an earlier one with the same key.
pub closed spec fn entries_map<V: View>(entries: Seq<Entry<V>>, n: int) -> Map<Seq<char>, V::V>
    decreases n,
{
    if n <= 0 {
        Map::empty()
    } else {
        entries_map(entries, n - 1).insert(entries[n - 1].key@, entries[n - 1].value@)
    }
}

impl<V: View> View for StringMap<V> {
    type V = Map<Seq<char>, V::V>;

    closed spec fn view(&self) -> Map<Seq<char>, V::V> {
        entries_map(self.entries@, self.entries@.len() as int)
    }
}

impl<V: View> StringMap<V> {
    /// The map without entries.
    pub fn new() -> (r: Self)
        ensures
            r@ == Map::<Seq<char>, V::V>::empty(),
    {
        StringMap { entries: Vec::new() }
    }

    /// Lets `key` stand for `value`.
    pub fn insert(&mut self, key: String, value: V)
        ensures
            final(self)@ == old(self)@.insert(key@, value@),
    {
        self.entries.push(Entry { key, value });
        proof {
            Self::lemma_entries_prefix(
                self.entries@,
                old(self).entries@,
                old(self).entries@.len() as int,
            );
        }
    }

    /// What `key` stands for, if anything.
    pub fn get(&self, key: &str) -> (r: Option<&V>)
        ensures
            match r {
                Some(v) => self@.contains_key(key@) && self@[key@] == v@,
                None => !self@.contains_key(key@),
            },
    {
        let n = self.entries.len();
        let mut i: usize = n;
        while i > 0
            invariant
                i <= n,
                n == self.entries@.len(),
                self@.contains_key(key@) == entries_map(self.entries@, i as int).contains_key(
                    key@,
                ),
                self@.contains_key(key@) ==> self@[key@] == entries_map(self.entries@, i as int)[key@],
            decreases i,
        {
            if str_eq(self.entries[i - 1].key.as_str(), key) {
                return Some(&self.entries[i - 1].value);
            }
            i = i - 1;
        }
        None
    }

    proof fn lemma_entries_prefix(entries: Seq<Entry<V>>, before: Seq<Entry<V>>, n: int)
        requires
            0 <= n <= before.len(),
            before.len() <= entries.len(),
            forall|i: int| 0 <= i < n ==> entries[i] == before[i],
        ensures
            entries_map(entries, n) == entries_map(before, n),
        decreases n,
    {
        if n > 0 {
            Self::lemma_entries_prefix(entries, before, n - 1);
        }
    }
}

} // verus!
