//! The frequency-aware caches that remember dictionary answers by pattern.
//!
//! Both are `caches::lfu::WTinyLFUCache`, keyed by a packed pattern. What a
//! cache holds is named by a map from key to value; which entries it keeps is
//! the crate's eviction policy and is left open here: a lookup returns a
//! stored value or nothing, and no entry ever changes value.

use vstd::prelude::*;
use caches::lfu::{DefaultKeyHasher, WTinyLFUCache};
use caches::Cache;
use std::hash::Hash;

verus! {

#[verifier::external_type_specification]
#[verifier::external_body]
#[verifier::reject_recursive_types(K)]
#[verifier::reject_recursive_types(V)]
#[verifier::reject_recursive_types(KH)]
#[verifier::reject_recursive_types(FH)]
#[verifier::reject_recursive_types(RH)]
#[verifier::reject_recursive_types(WH)]
pub struct ExWTinyLFUCache<K: Hash, V, KH, FH, RH, WH>(WTinyLFUCache<K, V, KH, FH, RH, WH>);

#[verifier::external_type_specification]
#[verifier::external_body]
#[verifier::reject_recursive_types(K)]
pub struct ExDefaultKeyHasher<K: Hash + Eq>(DefaultKeyHasher<K>);

/// A cache of yes/no answers by pattern.
pub type HitCache = WTinyLFUCache<u32, bool>;

/// A cache of counts by pattern.
pub type CountCache = WTinyLFUCache<u32, usize>;

/// What a cache of yes/no answers holds.
pub uninterp spec fn hit_entries(c: HitCache) -> Map<u32, bool>;

/// What a cache of counts holds.
pub uninterp spec fn count_entries(c: CountCache) -> Map<u32, usize>;

/// Relies on `WTinyLFUCache::new`: with these sizes every derived segment is
/// non-empty, so construction succeeds, and a new cache holds nothing.
#[verifier::external_body]
pub(crate) fn new_hit_cache(size: usize, samples: usize) -> (r: HitCache)
    requires
        size >= 1000,
        size <= 1000000,
        samples >= 1,
        samples <= 100000,
    ensures
        hit_entries(r).dom().is_empty(),
{
    WTinyLFUCache::new(size, samples).unwrap()
}

/// Relies on `WTinyLFUCache::new`, as `new_hit_cache`.
#[verifier::external_body]
pub(crate) fn new_count_cache(size: usize, samples: usize) -> (r: CountCache)
    requires
        size >= 1000,
        size <= 1000000,
        samples >= 1,
        samples <= 100000,
    ensures
        count_entries(r).dom().is_empty(),
{
    WTinyLFUCache::new(size, samples).unwrap()
}

/// Relies on `Cache::get` of `WTinyLFUCache`: it returns the stored value
/// of the key, if any; it may move entries between segments, never changing
/// a value or adding an entry.
#[verifier::external_body]
pub(crate) fn hit_cache_get(c: &mut HitCache, k: u32) -> (r: Option<bool>)
    ensures
        r matches Some(v) ==> hit_entries(*old(c)).contains_key(k) && hit_entries(*old(c))[k]
            == v,
        hit_entries(*final(c)).submap_of(hit_entries(*old(c))),
{
    c.get(&k).copied()
}

/// Relies on `Cache::get` of `WTinyLFUCache`, as `hit_cache_get`.
#[verifier::external_body]
pub(crate) fn count_cache_get(c: &mut CountCache, k: u32) -> (r: Option<usize>)
    ensures
        r matches Some(v) ==> count_entries(*old(c)).contains_key(k) && count_entries(*old(c))[k]
            == v,
        count_entries(*final(c)).submap_of(count_entries(*old(c))),
{
    c.get(&k).copied()
}

/// Relies on `Cache::put` of `WTinyLFUCache`: afterwards the cache holds at
/// most the old entries and the new one; any of them may have been evicted.
#[verifier::external_body]
pub(crate) fn hit_cache_put(c: &mut HitCache, k: u32, v: bool)
    ensures
        hit_entries(*final(c)).submap_of(hit_entries(*old(c)).insert(k, v)),
{
    c.put(k, v);
}

/// Relies on `Cache::put` of `WTinyLFUCache`, as `hit_cache_put`.
#[verifier::external_body]
pub(crate) fn count_cache_put(c: &mut CountCache, k: u32, v: usize)
    ensures
        count_entries(*final(c)).submap_of(count_entries(*old(c)).insert(k, v)),
{
    c.put(k, v);
}

} // verus!
