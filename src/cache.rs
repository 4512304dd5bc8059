use vstd::prelude::*;

use crate::message::{DnsMessage, Fingerprint, MessageView};

verus! {

#[verifier::external_type_specification]
#[verifier::external_body]
#[verifier::reject_recursive_types(Key)]
#[verifier::reject_recursive_types(Value)]
pub struct ExLruCache<Key, Value>(lru_time_cache::LruCache<Key, Value>);

/// The answers an answer cache holds, expired ones included, by the view of
/// their key.
pub uninterp spec fn cached_answers(c: lru_time_cache::LruCache<Fingerprint, DnsMessage>) -> Map<KeyView, MessageView>;

/// The capacity an answer cache was built with.
pub uninterp spec fn cache_capacity(c: lru_time_cache::LruCache<Fingerprint, DnsMessage>) -> nat;

/// The view of a cache key.
pub type KeyView = (Seq<u8>, u16, u16);

pub open spec fn key_view(k: Fingerprint) -> KeyView {
    (k.0@, k.1, k.2)
}

/// Relies on `lru_time_cache::LruCache::with_expiry_duration_and_capacity`:
/// the new cache is empty. Every later read and write adds the time to live
/// to an insertion `Instant`, and std's `Instant + Duration` panics when the
/// sum overflows; so the time to live is kept to at most a day.
#[verifier::external_body]
pub(crate) fn new_answer_cache(ttl_secs: u64, capacity: usize) -> (r: lru_time_cache::LruCache<Fingerprint, DnsMessage>)
    requires
        capacity > 0,
        ttl_secs <= 86_400,
    ensures
        cached_answers(r) =~= Map::empty(),
        cache_capacity(r) == capacity,
{
    lru_time_cache::LruCache::with_expiry_duration_and_capacity(std::time::Duration::from_secs(ttl_secs), capacity)
}

/// Relies on `lru_time_cache::LruCache::get`: it first drops expired
/// entries, then hands out the value stored under the key (nothing when the
/// key is absent), marking that entry most recently used.
#[verifier::external_body]
pub(crate) fn cache_get(c: &mut lru_time_cache::LruCache<Fingerprint, DnsMessage>, k: &Fingerprint) -> (r: Option<DnsMessage>)
    ensures
        cache_capacity(*final(c)) == cache_capacity(*old(c)),
        forall|kk: KeyView| #[trigger] cached_answers(*final(c)).contains_key(kk)
            ==> cached_answers(*old(c)).contains_key(kk) && cached_answers(*final(c))[kk] == cached_answers(*old(c))[kk],
        r matches Some(m) ==> cached_answers(*final(c)).contains_key(key_view(*k)) && cached_answers(*final(c))[key_view(*k)] == m@,
{
    c.get(k).cloned()
}

/// Relies on `lru_time_cache::LruCache::insert`: it drops expired and least
/// recently used entries, then stores the value under the key; it panics on a
/// cache of capacity 0.
#[verifier::external_body]
pub(crate) fn cache_insert(c: &mut lru_time_cache::LruCache<Fingerprint, DnsMessage>, k: Fingerprint, m: DnsMessage)
    requires
        cache_capacity(*old(c)) > 0,
    ensures
        cache_capacity(*final(c)) == cache_capacity(*old(c)),
        cached_answers(*final(c)).contains_key(key_view(k)),
        cached_answers(*final(c))[key_view(k)] == m@,
        forall|kk: KeyView| #[trigger] cached_answers(*final(c)).contains_key(kk) && kk != key_view(k)
            ==> cached_answers(*old(c)).contains_key(kk) && cached_answers(*final(c))[kk] == cached_answers(*old(c))[kk],
{
    c.insert(k, m);
}

} // verus!
