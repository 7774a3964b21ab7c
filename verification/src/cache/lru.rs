//! The cache itself.
use vstd::prelude::*;
use crate::cache::model::Store;
use crate::types::{CacheKey, LruCache};

verus! {

/// A cache of at most `capacity` entries that evicts the least recently used.
///
/// The entries are kept in recency order, the least recently used first. No
/// two of them have the same key, and they are never more than `capacity`.
pub struct Cache<K: CacheKey, V> {
    capacity: usize,
    entries: Vec<(K, V)>,
}

/// The stored entries as the model sees them: each key by its view.
spec fn model_entries<K: CacheKey, V>(entries: Seq<(K, V)>) -> Seq<(K::V, V)> {
    entries.map_values(|e: (K, V)| (e.0@, e.1))
}

impl<K: CacheKey, V> View for Cache<K, V> {
    type V = Store<K::V, V>;

    closed spec fn view(&self) -> Store<K::V, V> {
        Store { capacity: self.capacity as nat, entries: model_entries(self.entries@) }
    }
}

impl<K: CacheKey, V> Cache<K, V> {
    #[verifier::type_invariant]
    spec fn well_formed(&self) -> bool {
        self@.valid()
    }

    /// An empty cache that will hold at most `capacity` entries.
    pub fn new(capacity: usize) -> (cache: Self)
        ensures
            cache@ == Store::<K::V, V>::empty(capacity as nat),
            cache@.valid(),
    {
        let cache = Cache { capacity, entries: Vec::new() };
        cache
    }

    /// The most entries that the cache will hold.
    pub fn capacity(&self) -> (capacity: usize)
        ensures
            capacity == self@.capacity,
    {
        self.capacity
    }

    /// The number of entries that the cache holds.
    pub fn len(&self) -> (len: usize)
        ensures
            len == self@.len(),
            self@.valid(),
    {
        proof {
            use_type_invariant(self);
        }
        self.entries.len()
    }

    /// Whether the cache holds nothing.
    pub fn is_empty(&self) -> (empty: bool)
        ensures
            empty == (self@.len() == 0),
    {
        self.entries.len() == 0
    }

    /// The entry at `index` of the recency order, where index 0 is the least
    /// recently used entry. Reading it does not count as a use.
    pub fn entry(&self, index: usize) -> (entry: Option<(&K, &V)>)
        ensures
            (match entry {
                Some((key, value)) => index < self@.len() && self@.entries[index as int] == (
                    key@,
                    *value,
                ),
                None => index >= self@.len(),
            }),
    {
        if index < self.entries.len() {
            let entry = &self.entries[index];
            Some((&entry.0, &entry.1))
        } else {
            None
        }
    }

    /// The position of `key` in the recency order, if it is present.
    fn find(&self, key: &K) -> (found: Option<usize>)
        ensures
            (match found {
                Some(i) => self@.contains(key@) && i == self@.position(key@),
                None => !self@.contains(key@),
            }),
    {
        proof {
            use_type_invariant(self);
        }
        let mut i: usize = 0;
        while i < self.entries.len()
            invariant
                i <= self.entries.len(),
                forall|j: int| 0 <= j < i ==> self@.order()[j] != key@,
                self@.valid(),
            decreases self.entries.len() - i,
        {
            if self.entries[i].0.same_key(key) {
                assert(self@.order()[i as int] == key@);
                return Some(i);
            }
            i += 1;
        }
        None
    }

    /// Marks `key` as most recently used, if it is present, and tells whether
    /// it is.
    fn touch(&mut self, key: &K) -> (present: bool)
        ensures
            final(self)@ == old(self)@.touch(key@),
            present == old(self)@.contains(key@),
    {
        match self.find(key) {
            Some(i) => {
                proof {
                    use_type_invariant(&*self);
                    self@.lemma_touch_moves_to_back(key@);
                }
                let mut entries = Vec::new();
                std::mem::swap(&mut entries, &mut self.entries);
                let entry = entries.remove(i);
                entries.push(entry);
                assert(model_entries(entries@) =~= old(self)@.touch(key@).entries);
                self.entries = entries;
                true
            },
            None => false,
        }
    }

    /// Stores `value` under `key` and marks the key as most recently used.
    ///
    /// A key that is present gets the new value, and nothing is evicted. A
    /// new key that meets a full cache evicts the least recently used entry
    /// first. A cache of capacity zero takes the call and stays empty.
    pub fn put(&mut self, key: K, value: V)
        ensures
            final(self)@ == old(self)@.put(key@, value),
            final(self)@.valid(),
    {
        proof {
            use_type_invariant(&*self);
            self@.lemma_put_keeps_valid(key@, value);
        }
        let found = self.find(&key);
        let mut entries = Vec::new();
        std::mem::swap(&mut entries, &mut self.entries);
        match found {
            Some(i) => {
                entries.remove(i);
                entries.push((key, value));
            },
            None => {
                if self.capacity > 0 {
                    if entries.len() >= self.capacity {
                        entries.remove(0);
                    }
                    entries.push((key, value));
                }
            },
        }
        assert(model_entries(entries@) =~= old(self)@.put(key@, value).entries);
        self.entries = entries;
    }

    /// Returns the value stored under `key` and marks the key as most
    /// recently used; returns `None`, and changes nothing, where the key is
    /// absent.
    pub fn get(&mut self, key: &K) -> (found: Option<&V>)
        ensures
            final(self)@ == old(self)@.touch(key@),
            final(self)@.valid(),
            (match found {
                Some(value) => old(self)@.lookup(key@) == Some(*value),
                None => old(self)@.lookup(key@).is_none(),
            }),
    {
        proof {
            use_type_invariant(&*self);
            self@.lemma_touch_moves_to_back(key@);
        }
        if self.touch(key) {
            proof {
                let before = old(self)@;
                before.lemma_position(key@);
                assert(self@.entries.last() == before.entries[before.position(key@)]);
            }
            let last: usize = self.entries.len() - 1;
            Some(&self.entries[last].1)
        } else {
            None
        }
    }
}

impl<K: CacheKey, V> LruCache<K, V> for Cache<K, V> {
    open spec fn store(&self) -> Store<K::V, V> {
        self@
    }

    fn put(&mut self, key: K, value: V) {
        Cache::put(self, key, value)
    }

    fn get(&mut self, key: &K) -> (found: Option<&V>) {
        Cache::get(self, key)
    }
}

} // verus!
