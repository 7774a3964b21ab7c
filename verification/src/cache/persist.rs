//! Caches of strings as text: loading one from a text and storing one as a
//! text.
use vstd::prelude::*;
use crate::cache::format::{
    lemma_records_of_render, parse_records, records, records_view, render, storable, write_record,
};
use crate::cache::lru::Cache;
use crate::cache::model::{keys, latest, tail, Store};

verus! {

/// A store of strings as the text form sees it: each value by its characters.
pub open spec fn text_view(store: Store<Seq<char>, String>) -> Store<Seq<char>, Seq<char>> {
    store.map_values(|value: String| value@)
}

/// What a load of `text` into a cache of the given capacity gives: its
/// records, put one after the other into an empty store.
pub open spec fn loaded(capacity: nat, text: Seq<char>) -> Store<Seq<char>, Seq<char>> {
    Store::empty(capacity).put_all(records(text))
}

/// The text that stores what a store holds: one line for each entry, from the
/// least to the most recently used.
pub open spec fn saved(store: Store<Seq<char>, Seq<char>>) -> Seq<char> {
    render(store.entries)
}

impl Cache<String, String> {
    /// Loads a cache of the given capacity from a text: each record of the
    /// text is put, in the order of the text.
    pub fn from_text(capacity: usize, text: &str) -> (cache: Self)
        ensures
            text_view(cache@) == loaded(capacity as nat, text@),
            cache@.valid(),
    {
        let parsed = parse_records(text);
        let mut cache = Cache::new(capacity);
        let ghost all = records(text@);
        for record in it: parsed
            invariant
                records_view(it.seq()) == all,
                cache@.valid(),
                text_view(cache@) == Store::empty(capacity as nat).put_all(
                    all.take(it.index() as int),
                ),
        {
            let ghost done = all.take(it.index() as int);
            let ghost before = cache@;
            let (key, value) = record;
            cache.put(key, value);
            proof {
                before.lemma_put_map_values(|value: String| value@, key@, value);
                assert(all.take(it.index() + 1).drop_last() =~= done);
            }
        }
        assert(all.take(all.len() as int) =~= all);
        cache
    }

    /// Stores what the cache holds as a text: one record for each entry, from
    /// the least to the most recently used.
    pub fn to_text(&self) -> (text: String)
        ensures
            text@ == saved(text_view(self@)),
    {
        let mut text = String::new();
        let count: usize = self.len();
        let ghost stored = text_view(self@).entries;
        let mut index: usize = 0;
        while index < count
            invariant
                index <= count,
                count == self@.len(),
                stored == text_view(self@).entries,
                text@ == render(stored.take(index as int)),
            decreases count - index,
        {
            if let Some((key, value)) = self.entry(index) {
                write_record(&mut text, key.as_str(), value.as_str());
                assert(stored.take(index + 1).drop_last() =~= stored.take(index as int));
            }
            index += 1;
        }
        assert(stored.take(count as int) =~= stored);
        text
    }
}

/// A load of what was saved gives the store back where every entry is
/// storable: the same keys, the same values, the same recency order.
pub proof fn lemma_load_of_saved(store: Store<Seq<char>, Seq<char>>)
    requires
        store.valid(),
        forall|i: int| 0 <= i < store.len() ==> storable(#[trigger] store.entries[i]),
    ensures
        loaded(store.capacity, saved(store)) == store,
{
    lemma_records_of_render(store.entries);
    store.lemma_put_all_rebuilds();
}

/// A load keeps the latest record of each key, in the order of the text;
/// where these are more than the capacity, it keeps the last of them, as many
/// as the capacity.
pub proof fn lemma_load_keeps_latest(capacity: nat, text: Seq<char>)
    ensures
        loaded(capacity, text).entries == tail(latest(records(text)), capacity),
        loaded(capacity, text).capacity == capacity,
        loaded(capacity, text).valid(),
{
    Store::lemma_put_all_keeps_latest(capacity, records(text));
    Store::empty(capacity).lemma_put_all_keeps_valid(records(text));
}

/// A load of a text that holds no key twice, and at least as many records as
/// the capacity, keeps exactly its last records, as many as the capacity, in
/// the order of the text.
pub proof fn lemma_load_of_long_text(capacity: nat, text: Seq<char>)
    requires
        keys(records(text)).no_duplicates(),
        records(text).len() >= capacity,
    ensures
        loaded(capacity, text).entries == records(text).skip(records(text).len() - capacity),
{
    Store::lemma_put_all_of_distinct(capacity, records(text));
}

} // verus!
