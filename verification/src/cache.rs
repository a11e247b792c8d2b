//! A small cache of values under keys.

use vstd::prelude::*;
use std::collections::BTreeMap;

verus! {

/// What a cache does, whatever it is made of.
pub trait Cacheable<K, V> {
    /// What the cache holds.
    spec fn contents(&self) -> Map<K, V>;

    /// The keys are ordered as the cache needs them to be. Of a cache whose
    /// keys are not, nothing is promised.
    spec fn dependable(&self) -> bool;

    /// The value under `key`.
    fn get(&self, key: &K) -> (r: Option<&V>)
        ensures
            self.dependable() ==> match r {
                Some(v) => self.contents().contains_key(*key) && *v == self.contents()[*key],
                None => !self.contents().contains_key(*key),
            },
    ;

    /// Whether there is a value under `key`.
    fn has(&self, key: &K) -> (r: bool)
        ensures
            self.dependable() ==> r == self.contents().contains_key(*key),
    ;

    /// Puts `value` under `key`, and gives the value that was there.
    fn set(&mut self, key: K, value: V) -> (r: Option<V>)
        ensures
            final(self).dependable() == old(self).dependable(),
            old(self).dependable() ==> {
                &&& final(self).contents() == old(self).contents().insert(key, value)
                &&& match r {
                    Some(v) => old(self).contents().contains_key(key) && v == old(self).contents()[key],
                    None => !old(self).contents().contains_key(key),
                }
            },
    ;

    /// Takes the value under `key` out of the cache, and gives it.
    fn delete(&mut self, key: &K) -> (r: Option<V>)
        ensures
            final(self).dependable() == old(self).dependable(),
            old(self).dependable() ==> {
                &&& final(self).contents() == old(self).contents().remove(*key)
                &&& match r {
                    Some(v) => old(self).contents().contains_key(*key) && v == old(
                        self,
                    ).contents()[*key],
                    None => !old(self).contents().contains_key(*key),
                }
            },
    ;

    /// Empties the cache. The result is always `None`.
    fn clear(&mut self) -> (r: Option<V>)
        ensures
            final(self).dependable() == old(self).dependable(),
            final(self).contents() == Map::<K, V>::empty(),
            r is None,
    ;
}

/// A cache in an ordered map.
pub struct Cache<K, V> {
    pub cache: BTreeMap<K, V>,
}

impl<K: Ord, V> Cacheable<K, V> for Cache<K, V> {
    open spec fn contents(&self) -> Map<K, V> {
        self.cache@
    }

    open spec fn dependable(&self) -> bool {
        vstd::laws_cmp::obeys_cmp::<K>()
    }

    fn get(&self, key: &K) -> (r: Option<&V>) {
        self.cache.get(key)
    }

    fn clear(&mut self) -> (r: Option<V>) {
        self.cache.clear();
        None
    }

    fn delete(&mut self, key: &K) -> (r: Option<V>) {
        self.cache.remove(key)
    }

    fn set(&mut self, key: K, value: V) -> (r: Option<V>) {
        self.cache.insert(key, value)
    }

    fn has(&self, key: &K) -> (r: bool) {
        self.cache.contains_key(key)
    }
}

} // verus!
