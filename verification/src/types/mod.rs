//! The traits of the library: what a key must offer, and what a cache offers.
use vstd::prelude::*;
use crate::cache::model::Store;

verus! {

/// A type whose values can serve as cache keys.
///
/// Two keys name the same entry exactly when their views are equal;
/// `same_key` decides that at run time. The library implements the trait for
/// `String`, `char` and the integer types.
pub trait CacheKey: View + Sized {
    fn same_key(&self, other: &Self) -> (same: bool)
        ensures
            same == (self@ == other@),
    ;
}

/// A key-value cache that evicts the least recently used entry.
///
/// `store` is what the cache holds; `put` and `get` act on it as
/// [`Store::put`] and [`Store::touch`] say, and keep it valid.
pub trait LruCache<K: CacheKey, V> {
    spec fn store(&self) -> Store<K::V, V>;

    /// Inserts an entry, or updates the one that `key` names.
    fn put(&mut self, key: K, value: V)
        ensures
            final(self).store() == old(self).store().put(key@, value),
            final(self).store().valid(),
    ;

    /// Returns the value stored under `key`, and marks the key as most
    /// recently used.
    fn get(&mut self, key: &K) -> (found: Option<&V>)
        ensures
            final(self).store() == old(self).store().touch(key@),
            final(self).store().valid(),
            (match found {
                Some(value) => old(self).store().lookup(key@) == Some(*value),
                None => old(self).store().lookup(key@).is_none(),
            }),
    ;
}

impl CacheKey for String {
    fn same_key(&self, other: &Self) -> (same: bool) {
        *self == *other
    }
}

impl CacheKey for char {
    fn same_key(&self, other: &Self) -> (same: bool) {
        *self == *other
    }
}

impl CacheKey for u8 {
    fn same_key(&self, other: &Self) -> (same: bool) {
        *self == *other
    }
}

impl CacheKey for u16 {
    fn same_key(&self, other: &Self) -> (same: bool) {
        *self == *other
    }
}

impl CacheKey for u32 {
    fn same_key(&self, other: &Self) -> (same: bool) {
        *self == *other
    }
}

impl CacheKey for u64 {
    fn same_key(&self, other: &Self) -> (same: bool) {
        *self == *other
    }
}

impl CacheKey for u128 {
    fn same_key(&self, other: &Self) -> (same: bool) {
        *self == *other
    }
}

impl CacheKey for usize {
    fn same_key(&self, other: &Self) -> (same: bool) {
        *self == *other
    }
}

impl CacheKey for i8 {
    fn same_key(&self, other: &Self) -> (same: bool) {
        *self == *other
    }
}

impl CacheKey for i16 {
    fn same_key(&self, other: &Self) -> (same: bool) {
        *self == *other
    }
}

impl CacheKey for i32 {
    fn same_key(&self, other: &Self) -> (same: bool) {
        *self == *other
    }
}

impl CacheKey for i64 {
    fn same_key(&self, other: &Self) -> (same: bool) {
        *self == *other
    }
}

impl CacheKey for i128 {
    fn same_key(&self, other: &Self) -> (same: bool) {
        *self == *other
    }
}

impl CacheKey for isize {
    fn same_key(&self, other: &Self) -> (same: bool) {
        *self == *other
    }
}

} // verus!
