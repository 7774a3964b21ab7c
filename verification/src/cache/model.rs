//! What a cache holds, as mathematics: a capacity and a sequence of entries in
//! recency order, and what `put` and `touch` do to them.
use vstd::prelude::*;

verus! {

/// The keys of a sequence of entries, in their order.
pub open spec fn keys<K, V>(entries: Seq<(K, V)>) -> Seq<K> {
    entries.map_values(|e: (K, V)| e.0)
}

/// The last `n` elements of `s`, or all of `s` where it has no more than `n`.
pub open spec fn tail<A>(s: Seq<A>, n: nat) -> Seq<A> {
    if s.len() <= n {
        s
    } else {
        s.skip(s.len() - n)
    }
}

/// The records that no later record of the same key supersedes, in their
/// order: a record that is appended takes the place of any earlier one with
/// its key.
pub open spec fn latest<K, V>(records: Seq<(K, V)>) -> Seq<(K, V)>
    decreases records.len(),
{
    if records.len() == 0 {
        Seq::empty()
    } else {
        let last = records.last();
        latest(records.drop_last()).filter(|e: (K, V)| e.0 != last.0).push(last)
    }
}

/// The mathematical content of a cache: its capacity and its entries, listed
/// from the least recently used (front) to the most recently used (back).
#[verifier::ext_equal]
pub struct Store<K, V> {
    pub capacity: nat,
    pub entries: Seq<(K, V)>,
}

impl<K, V> Store<K, V> {
    /// The store of the given capacity that holds nothing.
    pub open spec fn empty(capacity: nat) -> Self {
        Store { capacity, entries: Seq::empty() }
    }

    /// The recency sequence: the keys from least to most recently used.
    pub open spec fn order(self) -> Seq<K> {
        keys(self.entries)
    }

    pub open spec fn len(self) -> nat {
        self.entries.len()
    }

    pub open spec fn contains(self, key: K) -> bool {
        self.order().contains(key)
    }

    /// Where `key` stands in the recency sequence (meaningful when it is contained).
    pub open spec fn position(self, key: K) -> int {
        self.order().index_of(key)
    }

    /// Keys are unique and the capacity bound is kept.
    pub open spec fn valid(self) -> bool {
        &&& self.order().no_duplicates()
        &&& self.entries.len() <= self.capacity
    }

    /// The mapping from keys to values that the entries make.
    pub open spec fn mapping(self) -> Map<K, V> {
        Map::new(|k: K| self.contains(k), |k: K| self.entries[self.position(k)].1)
    }

    /// The value stored under `key`, if any.
    pub open spec fn lookup(self, key: K) -> Option<V> {
        if self.contains(key) {
            Some(self.entries[self.position(key)].1)
        } else {
            None
        }
    }

    /// Marks `key` as most recently used; the other keys keep their order.
    pub open spec fn touch(self, key: K) -> Self {
        if self.contains(key) {
            let i = self.position(key);
            Store { capacity: self.capacity, entries: self.entries.remove(i).push(self.entries[i]) }
        } else {
            self
        }
    }

    /// Stores `value` under `key` as the most recently used entry, evicting
    /// the least recently used one when a new key meets a full store.
    pub open spec fn put(self, key: K, value: V) -> Self {
        if self.contains(key) {
            let i = self.position(key);
            Store { capacity: self.capacity, entries: self.entries.remove(i).push((key, value)) }
        } else if self.capacity == 0 {
            self
        } else if self.entries.len() >= self.capacity {
            Store { capacity: self.capacity, entries: self.entries.drop_first().push((key, value)) }
        } else {
            Store { capacity: self.capacity, entries: self.entries.push((key, value)) }
        }
    }

    /// The same store with each value seen through `f`.
    pub open spec fn map_values<W>(self, f: spec_fn(V) -> W) -> Store<K, W> {
        Store {
            capacity: self.capacity,
            entries: self.entries.map_values(|e: (K, V)| (e.0, f(e.1))),
        }
    }

    /// The store after each of `records` has been put, first to last.
    pub open spec fn put_all(self, records: Seq<(K, V)>) -> Self
        decreases records.len(),
    {
        if records.len() == 0 {
            self
        } else {
            self.put_all(records.drop_last()).put(records.last().0, records.last().1)
        }
    }
}

} // verus!
