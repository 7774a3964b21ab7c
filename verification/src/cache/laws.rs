//! What holds of every store: the capacity bound, which entry an eviction
//! takes, what a read and an update change, and what a replay of records
//! leaves.
use vstd::prelude::*;
use vstd::seq_lib::seq_to_set_is_finite;
use crate::cache::model::{keys, latest, tail, Store};

verus! {

/// Moving one element of a duplicate-free sequence to the back, or putting in
/// its place at the back a value that occurs nowhere else, leaves the
/// sequence duplicate-free.
pub proof fn lemma_requeue_no_duplicates<A>(s: Seq<A>, i: int, x: A)
    requires
        s.no_duplicates(),
        0 <= i < s.len(),
        forall|j: int| 0 <= j < s.len() && j != i ==> s[j] != x,
    ensures
        s.remove(i).push(x).no_duplicates(),
{
    let t = s.remove(i).push(x);
    let from = |n: int| if n < i { n } else { n + 1 };
    assert forall|a: int, b: int| 0 <= a < b < t.len() implies t[a] != t[b] by {
        assert(t[a] == s[from(a)]);
        if b < t.len() - 1 {
            assert(t[b] == s[from(b)]);
        }
    }
}

/// Among entries with unique keys, dropping the entries of one key removes
/// the one entry that has it, if there is one.
pub proof fn lemma_drop_key<K, V>(entries: Seq<(K, V)>, key: K)
    requires
        keys(entries).no_duplicates(),
    ensures
        entries.filter(|e: (K, V)| e.0 != key) == (if keys(entries).contains(key) {
            entries.remove(keys(entries).index_of(key))
        } else {
            entries
        }),
    decreases entries.len(),
{
    reveal(Seq::filter);
    if entries.len() > 0 {
        let head = entries.drop_last();
        let n = head.len() as int;
        assert(keys(head) =~= keys(entries).drop_last());
        assert(keys(entries)[n] == entries.last().0);
        lemma_drop_key(head, key);
        if keys(entries).contains(key) {
            let i = keys(entries).index_of(key);
            if i < n {
                assert(keys(head)[i] == key);
            }
        }
    }
}

/// The latest records have unique keys.
pub proof fn lemma_latest_keys<K, V>(records: Seq<(K, V)>)
    ensures
        keys(latest(records)).no_duplicates(),
    decreases records.len(),
{
    if records.len() > 0 {
        let last = records.last();
        let prior = latest(records.drop_last());
        lemma_latest_keys(records.drop_last());
        lemma_drop_key(prior, last.0);
        if keys(prior).contains(last.0) {
            let i = keys(prior).index_of(last.0);
            lemma_requeue_no_duplicates(keys(prior), i, last.0);
            assert(keys(latest(records)) =~= keys(prior).remove(i).push(last.0));
        } else {
            assert(keys(latest(records)) =~= keys(prior).push(last.0));
        }
    }
}

/// Where no key occurs twice, every record is the latest of its key.
pub proof fn lemma_latest_of_distinct<K, V>(records: Seq<(K, V)>)
    requires
        keys(records).no_duplicates(),
    ensures
        latest(records) == records,
    decreases records.len(),
{
    if records.len() > 0 {
        let head = records.drop_last();
        let last = records.last();
        assert(keys(head) =~= keys(records).drop_last());
        lemma_latest_of_distinct(head);
        lemma_drop_key(head, last.0);
        assert(keys(records)[head.len() as int] == last.0);
    }
}

impl<K, V> Store<K, V> {
    /// A key that is contained has a position, and its entry stands there.
    pub proof fn lemma_position(self, key: K)
        requires
            self.contains(key),
        ensures
            0 <= self.position(key) < self.len(),
            self.entries[self.position(key)].0 == key,
    {
    }

    /// In a valid store the entry at index `i` is the one found under its key.
    pub proof fn lemma_entry_at(self, i: int)
        requires
            self.valid(),
            0 <= i < self.len(),
        ensures
            self.contains(self.entries[i].0),
            self.position(self.entries[i].0) == i,
            self.lookup(self.entries[i].0) == Some(self.entries[i].1),
    {
        assert(self.order()[i] == self.entries[i].0);
    }

    /// In a valid store the mapping and the recency sequence have the same
    /// keys, each once: the mapping has as many keys as the store has
    /// entries, which is no more than the capacity.
    pub proof fn lemma_mapping_keys(self)
        requires
            self.valid(),
        ensures
            self.mapping().dom() == self.order().to_set(),
            self.mapping().dom().finite(),
            self.mapping().len() == self.len(),
            self.mapping().len() <= self.capacity,
    {
        seq_to_set_is_finite(self.order());
        self.order().unique_seq_to_set();
    }

    /// A put leaves a valid store valid, with the capacity it had: keys stay
    /// unique, and the store holds no more than its capacity.
    pub proof fn lemma_put_keeps_valid(self, key: K, value: V)
        requires
            self.valid(),
        ensures
            self.put(key, value).valid(),
            self.put(key, value).capacity == self.capacity,
            self.put(key, value).len() <= self.capacity,
    {
        let after = self.put(key, value);
        if self.contains(key) {
            self.lemma_position(key);
            let i = self.position(key);
            lemma_requeue_no_duplicates(self.order(), i, key);
            assert(after.order() =~= self.order().remove(i).push(key));
        } else if self.capacity > 0 {
            if self.entries.len() >= self.capacity {
                assert(after.order() =~= self.order().drop_first().push(key));
            } else {
                assert(after.order() =~= self.order().push(key));
            }
        }
    }

    /// However many records are put, and whatever they hold, the store stays
    /// valid after each of them: it never holds more than its capacity.
    pub proof fn lemma_put_all_keeps_valid(self, records: Seq<(K, V)>)
        requires
            self.valid(),
        ensures
            self.put_all(records).valid(),
            self.put_all(records).capacity == self.capacity,
            self.put_all(records).len() <= self.capacity,
        decreases records.len(),
    {
        if records.len() > 0 {
            self.lemma_put_all_keeps_valid(records.drop_last());
            self.put_all(records.drop_last()).lemma_put_keeps_valid(
                records.last().0,
                records.last().1,
            );
        }
    }

    /// A put on a key that is present replaces its value in place: nothing is
    /// evicted, the size stays, every other key keeps its value and its place
    /// among the others, and the key becomes the most recently used.
    pub proof fn lemma_put_present_updates_in_place(self, key: K, value: V)
        requires
            self.valid(),
            self.contains(key),
        ensures
            self.put(key, value).len() == self.len(),
            self.put(key, value).order() == self.order().remove(self.position(key)).push(key),
            self.put(key, value).entries.last() == (key, value),
            self.put(key, value).lookup(key) == Some(value),
            forall|k: K| #[trigger] self.put(key, value).contains(k) <==> self.contains(k),
            forall|k: K| k != key ==> #[trigger] self.put(key, value).lookup(k) == self.lookup(k),
    {
        let after = self.put(key, value);
        self.lemma_put_keeps_valid(key, value);
        self.lemma_position(key);
        let i = self.position(key);
        let last = after.len() - 1;
        after.lemma_entry_at(last);
        assert forall|k: K| #[trigger] after.contains(k) <==> self.contains(k) by {
            if self.contains(k) {
                self.lemma_position(k);
                let j = self.position(k);
                let to = if j < i { j } else if j > i { j - 1 } else { last };
                assert(after.order()[to] == k);
            }
            if after.contains(k) {
                after.lemma_position(k);
                let j = after.position(k);
                let from = if j < i { j } else if j < last { j + 1 } else { i };
                assert(self.order()[from] == k);
            }
        }
        assert forall|k: K| k != key implies #[trigger] after.lookup(k) == self.lookup(k) by {
            if self.contains(k) {
                self.lemma_position(k);
                let j = self.position(k);
                let to = if j < i { j } else { j - 1 };
                after.lemma_entry_at(to);
            }
        }
    }

    /// To touch a key that is present is to put the value that it has.
    pub proof fn lemma_touch_is_put(self, key: K)
        requires
            self.contains(key),
        ensures
            self.touch(key) == self.put(key, self.lookup(key).unwrap()),
    {
        self.lemma_position(key);
    }

    /// A touch moves a key that is present to the back of the recency
    /// sequence and changes nothing else: the store stays valid, the other
    /// keys keep their place among each other, and every key keeps its value.
    /// A touch of any other key changes nothing at all.
    pub proof fn lemma_touch_moves_to_back(self, key: K)
        requires
            self.valid(),
        ensures
            self.touch(key).valid(),
            self.touch(key).capacity == self.capacity,
            self.touch(key).len() == self.len(),
            forall|k: K| #[trigger] self.touch(key).lookup(k) == self.lookup(k),
            self.contains(key) ==> self.touch(key).order() == self.order().remove(
                self.position(key),
            ).push(key),
            !self.contains(key) ==> self.touch(key) == self,
    {
        if self.contains(key) {
            let value = self.lookup(key).unwrap();
            self.lemma_touch_is_put(key);
            self.lemma_put_keeps_valid(key, value);
            self.lemma_put_present_updates_in_place(key, value);
        }
    }

    /// A put of a new key into a full store evicts exactly the least recently
    /// used entry: the front of the recency sequence leaves, every other
    /// entry stays with its value and in its place among the others, and the
    /// new entry is the most recently used.
    pub proof fn lemma_put_evicts_least_recent(self, key: K, value: V)
        requires
            self.valid(),
            !self.contains(key),
            self.len() == self.capacity,
            self.capacity > 0,
        ensures
            self.put(key, value).entries == self.entries.drop_first().push((key, value)),
            self.put(key, value).len() == self.len(),
            !self.put(key, value).contains(self.order()[0]),
            self.put(key, value).lookup(key) == Some(value),
            forall|k: K|
                k != self.order()[0] && self.contains(k) ==> #[trigger] self.put(
                    key,
                    value,
                ).lookup(k) == self.lookup(k),
    {
        let after = self.put(key, value);
        let oldest = self.order()[0];
        self.lemma_put_keeps_valid(key, value);
        if after.contains(oldest) {
            after.lemma_position(oldest);
            assert(self.order()[after.position(oldest) + 1] == oldest);
        }
        after.lemma_entry_at(after.len() - 1);
        assert forall|k: K| k != oldest && self.contains(k) implies #[trigger] after.lookup(k)
            == self.lookup(k) by {
            self.lemma_position(k);
            after.lemma_entry_at(self.position(k) - 1);
        }
    }

    /// What a put does to the mapping. A key that is present, or a new key
    /// that finds room, is mapped to the value and nothing else changes. A
    /// new key that meets a full store takes the place of the least recently
    /// used key. A store without capacity keeps mapping nothing.
    pub proof fn lemma_put_mapping(self, key: K, value: V)
        requires
            self.valid(),
        ensures
            self.put(key, value).mapping() == (if self.contains(key) || self.len()
                < self.capacity {
                self.mapping().insert(key, value)
            } else if self.capacity == 0 {
                self.mapping()
            } else {
                self.mapping().remove(self.order()[0]).insert(key, value)
            }),
    {
        let after = self.put(key, value);
        self.lemma_put_keeps_valid(key, value);
        if self.contains(key) {
            self.lemma_put_present_updates_in_place(key, value);
            assert forall|k: K| after.contains(k) implies #[trigger] after.mapping()[k]
                == self.mapping().insert(key, value)[k] by {
                assert(after.lookup(k) == if k == key { Some(value) } else { self.lookup(k) });
            }
        } else if self.capacity == 0 {
        } else if self.len() < self.capacity {
            let last = after.len() - 1;
            assert forall|k: K| #[trigger] after.contains(k) <==> (self.contains(k) || k
                == key) by {
                if self.contains(k) {
                    self.lemma_position(k);
                    assert(after.order()[self.position(k)] == k);
                }
                if k == key {
                    assert(after.order()[last] == k);
                }
                if after.contains(k) && k != key {
                    after.lemma_position(k);
                    assert(self.order()[after.position(k)] == k);
                }
            }
            assert forall|k: K| after.contains(k) implies #[trigger] after.mapping()[k]
                == self.mapping().insert(key, value)[k] by {
                if k == key {
                    after.lemma_entry_at(last);
                } else {
                    self.lemma_position(k);
                    let i = self.position(k);
                    after.lemma_entry_at(i);
                }
            }
        } else {
            let oldest = self.order()[0];
            let last = after.len() - 1;
            self.lemma_put_evicts_least_recent(key, value);
            assert forall|k: K| #[trigger] after.contains(k) <==> ((self.contains(k) && k
                != oldest) || k == key) by {
                if self.contains(k) && k != oldest {
                    self.lemma_position(k);
                    assert(after.order()[self.position(k) - 1] == k);
                }
                if after.contains(k) && k != key {
                    after.lemma_position(k);
                    assert(self.order()[after.position(k) + 1] == k);
                }
            }
            assert forall|k: K| after.contains(k) implies #[trigger] after.mapping()[k]
                == self.mapping().remove(oldest).insert(key, value)[k] by {
                assert(after.lookup(k) == if k == key { Some(value) } else { self.lookup(k) });
            }
        }
    }

    /// A touch changes the recency sequence only: the mapping stays.
    pub proof fn lemma_touch_mapping(self, key: K)
        requires
            self.valid(),
        ensures
            self.touch(key).mapping() == self.mapping(),
    {
        let after = self.touch(key);
        self.lemma_touch_moves_to_back(key);
        assert forall|k: K| #[trigger] after.contains(k) <==> self.contains(k) by {
            assert(after.lookup(k) == self.lookup(k));
        }
        assert forall|k: K| after.contains(k) implies #[trigger] after.mapping()[k]
            == self.mapping()[k] by {
            assert(after.lookup(k) == self.lookup(k));
        }
    }

    /// A key that has just been read outlives the next put, whatever that put
    /// brings, and keeps its value where the put brings another key. The one
    /// exception is a store with room for a single entry, where a put of
    /// another key must evict it.
    pub proof fn lemma_touch_protects_from_eviction(self, key: K, other: K, value: V)
        requires
            self.valid(),
            self.contains(key),
            self.capacity != 1 || other == key,
        ensures
            self.touch(key).put(other, value).contains(key),
            other != key ==> self.touch(key).put(other, value).lookup(key) == self.lookup(key),
    {
        let read = self.touch(key);
        let after = read.put(other, value);
        let last = read.len() - 1;
        self.lemma_touch_moves_to_back(key);
        self.lemma_position(key);
        if read.contains(other) {
            read.lemma_put_present_updates_in_place(other, value);
        } else if read.len() >= read.capacity {
            read.lemma_put_evicts_least_recent(other, value);
        } else {
            read.lemma_put_keeps_valid(other, value);
            after.lemma_entry_at(last);
            read.lemma_entry_at(last);
        }
    }

    /// Whatever records are put into an empty store, it ends up with the
    /// latest record of each key, in the order of the records; where these
    /// are more than its capacity, with the last of them, as many as the
    /// capacity.
    pub proof fn lemma_put_all_keeps_latest(capacity: nat, records: Seq<(K, V)>)
        ensures
            Self::empty(capacity).put_all(records).entries == tail(latest(records), capacity),
        decreases records.len(),
    {
        if records.len() > 0 {
            let head = records.drop_last();
            let last = records.last();
            let before = Self::empty(capacity).put_all(head);
            let after = before.put(last.0, last.1);
            let prior = latest(head);
            let now = latest(records);
            Self::lemma_put_all_keeps_latest(capacity, head);
            Self::empty(capacity).lemma_put_all_keeps_valid(head);
            lemma_latest_keys(head);
            lemma_drop_key(prior, last.0);
            // `before` holds the last entries of `prior`, from index `off` on.
            let off = prior.len() - before.len();
            assert forall|p: int| 0 <= p < before.len() implies #[trigger] before.order()[p]
                == keys(prior)[p + off] by {
                assert(before.entries[p] == prior[p + off]);
            }
            if before.contains(last.0) {
                // The key stands in both: it moves to the back of both.
                before.lemma_position(last.0);
                let p = before.position(last.0);
                assert(now =~= prior.remove(p + off).push(last));
            } else if keys(prior).contains(last.0) {
                // The key was evicted before: the store is full and evicts
                // its front, while the key leaves its earlier place in
                // `prior`, before `off`.
                let j = keys(prior).index_of(last.0);
                if j >= off {
                    assert(before.order()[j - off] == last.0);
                }
                assert(now =~= prior.remove(j).push(last));
            } else {
                // A key that was never seen: both take it at the back.
                assert(now =~= prior.push(last));
            }
            assert(after.entries =~= tail(now, capacity));
        }
    }

    /// Records with unique keys that are put into an empty store stay as they
    /// are, in their order; where they are more than the capacity, only the
    /// last of them stay, as many as the capacity.
    pub proof fn lemma_put_all_of_distinct(capacity: nat, records: Seq<(K, V)>)
        requires
            keys(records).no_duplicates(),
        ensures
            Self::empty(capacity).put_all(records).entries == tail(records, capacity),
    {
        Self::lemma_put_all_keeps_latest(capacity, records);
        lemma_latest_of_distinct(records);
    }

    /// Putting the entries of a valid store, in their order, into an empty
    /// store of the same capacity gives the store again.
    pub proof fn lemma_put_all_rebuilds(self)
        requires
            self.valid(),
        ensures
            Self::empty(self.capacity).put_all(self.entries) == self,
    {
        Self::lemma_put_all_of_distinct(self.capacity, self.entries);
        Self::empty(self.capacity).lemma_put_all_keeps_valid(self.entries);
    }

    /// A put does not look at the values: it does the same to a store whose
    /// values are seen through `f`.
    pub proof fn lemma_put_map_values<W>(self, f: spec_fn(V) -> W, key: K, value: V)
        ensures
            self.put(key, value).map_values(f) == self.map_values(f).put(key, f(value)),
    {
        assert(self.map_values(f).order() =~= self.order());
        assert(self.put(key, value).map_values(f).entries =~= self.map_values(f).put(
            key,
            f(value),
        ).entries);
    }
}

} // verus!
