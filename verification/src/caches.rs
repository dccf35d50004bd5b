//! The bounded caches of the routing table. They are `cached::SizedCache`s; what is believed of
//! its methods is stated here, over the entries that a cache holds ([`crate::lru`]).
use crate::lru::{evicted, deleted, lookup, stored, touched};
use crate::types::{AnnounceAccount, Announcement, PeerId};
use cached::{Cached, SizedCache};
use vstd::prelude::*;

verus! {

/// The most entries that a cache may be asked to hold.
pub const MAX_CACHE_SIZE: usize = 0x10_0000;

/// `cached::SizedCache`: a map of bounded size that gives up its least recently used entry when it
/// needs room.
#[verifier::external_type_specification]
#[verifier::external_body]
#[verifier::reject_recursive_types(K)]
#[verifier::reject_recursive_types(V)]
pub struct ExSizedCache<K, V>(cached::SizedCache<K, V>);

// Counters by peer.

/// The entries of a cache of counters, the most recently used one first.
pub uninterp spec fn counter_entries(cache: SizedCache<PeerId, usize>) -> Seq<(PeerId, usize)>;

/// The size that a cache of counters was made with.
pub uninterp spec fn counter_limit(cache: SizedCache<PeerId, usize>) -> nat;

/// `SizedCache::with_size`: an empty cache with the given limit. A limit of zero panics.
#[verifier::external_body]
pub(crate) fn counters_with_size(size: usize) -> (cache: SizedCache<PeerId, usize>)
    requires
        0 < size <= MAX_CACHE_SIZE,
    ensures
        counter_entries(cache) == Seq::<(PeerId, usize)>::empty(),
        counter_limit(cache) == size,
{
    SizedCache::with_size(size)
}

/// `SizedCache::cache_get`: the value under the key, whose entry moves to the front.
#[verifier::external_body]
pub(crate) fn counters_get(cache: &mut SizedCache<PeerId, usize>, key: &PeerId) -> (res: Option<usize>)
    ensures
        res == lookup(counter_entries(*old(cache)), *key),
        counter_entries(*final(cache)) == touched(counter_entries(*old(cache)), *key),
        counter_limit(*final(cache)) == counter_limit(*old(cache)),
{
    cache.cache_get(key).cloned()
}

/// `SizedCache::cache_get_mut`: like `cache_get`, and what is written through the reference is the
/// new value.
#[verifier::external_body]
pub(crate) fn counters_get_mut<'a>(
    cache: &'a mut SizedCache<PeerId, usize>,
    key: &PeerId,
) -> (res: Option<&'a mut usize>)
    ensures
        match res {
            Some(value) => {
                &&& lookup(counter_entries(*old(cache)), *key) == Some(*value)
                &&& counter_entries(*final(cache)) == touched(
                    counter_entries(*old(cache)),
                    *key,
                ).update(0, (*key, *final(value)))
            },
            None => {
                &&& lookup(counter_entries(*old(cache)), *key) is None
                &&& counter_entries(*final(cache)) == counter_entries(*old(cache))
            },
        },
        counter_limit(*final(cache)) == counter_limit(*old(cache)),
{
    cache.cache_get_mut(key)
}

/// `SizedCache::cache_set`: a cache at its limit first gives up its last entry; then the value is
/// put under the key. Hands out the value that was there.
#[verifier::external_body]
pub(crate) fn counters_set(
    cache: &mut SizedCache<PeerId, usize>,
    key: PeerId,
    value: usize,
) -> (res: Option<usize>)
    ensures
        res == lookup(evicted(counter_entries(*old(cache)), counter_limit(*old(cache))), key),
        counter_entries(*final(cache)) == stored(
            counter_entries(*old(cache)),
            counter_limit(*old(cache)),
            key,
            value,
        ),
        counter_limit(*final(cache)) == counter_limit(*old(cache)),
{
    cache.cache_set(key, value)
}

// Pings and pongs by nonce, each as its nonce and its source.

/// The entries of a cache of pings or pongs, the most recently used one first.
pub uninterp spec fn note_entries(cache: SizedCache<usize, (u64, PeerId)>) -> Seq<
    (usize, (u64, PeerId)),
>;

/// The size that a cache of pings or pongs was made with.
pub uninterp spec fn note_limit(cache: SizedCache<usize, (u64, PeerId)>) -> nat;

/// `SizedCache::with_size`: an empty cache with the given limit. A limit of zero panics.
#[verifier::external_body]
pub(crate) fn notes_with_size(size: usize) -> (cache: SizedCache<usize, (u64, PeerId)>)
    requires
        0 < size <= MAX_CACHE_SIZE,
    ensures
        note_entries(cache) == Seq::<(usize, (u64, PeerId))>::empty(),
        note_limit(cache) == size,
{
    SizedCache::with_size(size)
}

/// `SizedCache::cache_set`: a cache at its limit first gives up its last entry; then the value is
/// put under the key. Hands out the value that was there.
#[verifier::external_body]
pub(crate) fn notes_set(
    cache: &mut SizedCache<usize, (u64, PeerId)>,
    key: usize,
    value: (u64, PeerId),
) -> (res: Option<(u64, PeerId)>)
    ensures
        res == lookup(evicted(note_entries(*old(cache)), note_limit(*old(cache))), key),
        note_entries(*final(cache)) == stored(
            note_entries(*old(cache)),
            note_limit(*old(cache)),
            key,
            value,
        ),
        note_limit(*final(cache)) == note_limit(*old(cache)),
{
    cache.cache_set(key, value)
}

/// `SizedCache::key_order`: the keys, from the most to the least recently used one.
#[verifier::external_body]
pub(crate) fn notes_keys(cache: &SizedCache<usize, (u64, PeerId)>) -> (keys: Vec<usize>)
    ensures
        keys@.len() == note_entries(*cache).len(),
        forall|i: int| 0 <= i < keys@.len() ==> #[trigger] keys@[i] == note_entries(*cache)[i].0,
{
    cache.key_order().cloned().collect()
}

/// `SizedCache::value_order`: the values, in the order of their keys.
#[verifier::external_body]
pub(crate) fn notes_values(cache: &SizedCache<usize, (u64, PeerId)>) -> (values: Vec<(u64, PeerId)>)
    ensures
        values@.len() == note_entries(*cache).len(),
        forall|i: int| 0 <= i < values@.len() ==> #[trigger] values@[i] == note_entries(*cache)[i].1,
{
    cache.value_order().cloned().collect()
}

// Times at which pings left, by nonce.

/// The entries of a cache of sending times, the most recently used one first.
pub uninterp spec fn sent_entries(cache: SizedCache<usize, u64>) -> Seq<(usize, u64)>;

/// The size that a cache of sending times was made with.
pub uninterp spec fn sent_limit(cache: SizedCache<usize, u64>) -> nat;

/// `SizedCache::with_size`: an empty cache with the given limit. A limit of zero panics.
#[verifier::external_body]
pub(crate) fn sent_with_size(size: usize) -> (cache: SizedCache<usize, u64>)
    requires
        0 < size <= MAX_CACHE_SIZE,
    ensures
        sent_entries(cache) == Seq::<(usize, u64)>::empty(),
        sent_limit(cache) == size,
{
    SizedCache::with_size(size)
}

/// `SizedCache::cache_set`: a cache at its limit first gives up its last entry; then the value is
/// put under the key. Hands out the value that was there.
#[verifier::external_body]
pub(crate) fn sent_set(cache: &mut SizedCache<usize, u64>, key: usize, value: u64) -> (res: Option<u64>)
    ensures
        res == lookup(evicted(sent_entries(*old(cache)), sent_limit(*old(cache))), key),
        sent_entries(*final(cache)) == stored(
            sent_entries(*old(cache)),
            sent_limit(*old(cache)),
            key,
            value,
        ),
        sent_limit(*final(cache)) == sent_limit(*old(cache)),
{
    cache.cache_set(key, value)
}

/// `SizedCache::cache_remove`: takes the entry of the key out and hands out its value.
#[verifier::external_body]
pub(crate) fn sent_remove(cache: &mut SizedCache<usize, u64>, key: &usize) -> (res: Option<u64>)
    ensures
        res == lookup(sent_entries(*old(cache)), *key),
        sent_entries(*final(cache)) == deleted(sent_entries(*old(cache)), *key),
        sent_limit(*final(cache)) == sent_limit(*old(cache)),
{
    cache.cache_remove(key)
}

// Pings without an answer, by peer.

/// What one cache of sending times holds, and its limit.
pub open spec fn sent_view(cache: SizedCache<usize, u64>) -> (Seq<(usize, u64)>, nat) {
    (sent_entries(cache), sent_limit(cache))
}

/// The entries of a cache of caches, the most recently used one first, each with what its cache
/// holds and that cache's limit.
pub uninterp spec fn waiting_entries(cache: SizedCache<PeerId, SizedCache<usize, u64>>) -> Seq<
    (PeerId, (Seq<(usize, u64)>, nat)),
>;

/// The size that a cache of caches was made with.
pub uninterp spec fn waiting_limit(cache: SizedCache<PeerId, SizedCache<usize, u64>>) -> nat;

/// `SizedCache::with_size`: an empty cache with the given limit. A limit of zero panics.
#[verifier::external_body]
pub(crate) fn waiting_with_size(size: usize) -> (cache: SizedCache<PeerId, SizedCache<usize, u64>>)
    requires
        0 < size <= MAX_CACHE_SIZE,
    ensures
        waiting_entries(cache) == Seq::<(PeerId, (Seq<(usize, u64)>, nat))>::empty(),
        waiting_limit(cache) == size,
{
    SizedCache::with_size(size)
}

/// `SizedCache::cache_get_mut`: the cache under the key, whose entry moves to the front. What is
/// done to it through the reference is done to the entry.
#[verifier::external_body]
pub(crate) fn waiting_get_mut<'a>(
    cache: &'a mut SizedCache<PeerId, SizedCache<usize, u64>>,
    key: &PeerId,
) -> (res: Option<&'a mut SizedCache<usize, u64>>)
    ensures
        match res {
            Some(value) => {
                &&& lookup(waiting_entries(*old(cache)), *key) == Some(sent_view(*value))
                &&& waiting_entries(*final(cache)) == touched(
                    waiting_entries(*old(cache)),
                    *key,
                ).update(0, (*key, sent_view(*final(value))))
            },
            None => {
                &&& lookup(waiting_entries(*old(cache)), *key) is None
                &&& waiting_entries(*final(cache)) == waiting_entries(*old(cache))
            },
        },
        waiting_limit(*final(cache)) == waiting_limit(*old(cache)),
{
    cache.cache_get_mut(key)
}

/// `SizedCache::cache_set`: a cache at its limit first gives up its last entry; then the value is
/// put under the key. The value that was there is dropped.
#[verifier::external_body]
pub(crate) fn waiting_set(
    cache: &mut SizedCache<PeerId, SizedCache<usize, u64>>,
    key: PeerId,
    value: SizedCache<usize, u64>,
)
    ensures
        waiting_entries(*final(cache)) == stored(
            waiting_entries(*old(cache)),
            waiting_limit(*old(cache)),
            key,
            sent_view(value),
        ),
        waiting_limit(*final(cache)) == waiting_limit(*old(cache)),
{
    cache.cache_set(key, value);
}

// Announcements by account.

/// The entries of a cache of announcements, the most recently used one first.
pub uninterp spec fn account_entries(cache: SizedCache<String, AnnounceAccount>) -> Seq<
    (Seq<char>, Announcement),
>;

/// The size that a cache of announcements was made with.
pub uninterp spec fn account_limit(cache: SizedCache<String, AnnounceAccount>) -> nat;

/// `SizedCache::with_size`: an empty cache with the given limit. A limit of zero panics.
#[verifier::external_body]
pub(crate) fn accounts_with_size(size: usize) -> (cache: SizedCache<String, AnnounceAccount>)
    requires
        0 < size <= MAX_CACHE_SIZE,
    ensures
        account_entries(cache) == Seq::<(Seq<char>, Announcement)>::empty(),
        account_limit(cache) == size,
{
    SizedCache::with_size(size)
}

/// `SizedCache::cache_get`: the value under the key, whose entry moves to the front. Two account
/// names are one key when their characters are the same.
#[verifier::external_body]
pub(crate) fn accounts_get<'a>(
    cache: &'a mut SizedCache<String, AnnounceAccount>,
    key: &String,
) -> (res: Option<&'a AnnounceAccount>)
    ensures
        match res {
            Some(value) => lookup(account_entries(*old(cache)), key@) == Some(value@),
            None => lookup(account_entries(*old(cache)), key@) is None,
        },
        account_entries(*final(cache)) == touched(account_entries(*old(cache)), key@),
        account_limit(*final(cache)) == account_limit(*old(cache)),
{
    cache.cache_get(key)
}

/// `SizedCache::cache_set`: a cache at its limit first gives up its last entry; then the value is
/// put under the key. The value that was there is dropped.
#[verifier::external_body]
pub(crate) fn accounts_set(
    cache: &mut SizedCache<String, AnnounceAccount>,
    key: String,
    value: AnnounceAccount,
)
    ensures
        account_entries(*final(cache)) == stored(
            account_entries(*old(cache)),
            account_limit(*old(cache)),
            key@,
            value@,
        ),
        account_limit(*final(cache)) == account_limit(*old(cache)),
{
    cache.cache_set(key, value);
}

/// `SizedCache::key_order`: the keys, from the most to the least recently used one.
#[verifier::external_body]
pub(crate) fn accounts_keys(cache: &SizedCache<String, AnnounceAccount>) -> (keys: Vec<&String>)
    ensures
        keys@.len() == account_entries(*cache).len(),
        forall|i: int| 0 <= i < keys@.len() ==> (#[trigger] keys@[i])@ == account_entries(*cache)[i].0,
{
    cache.key_order().collect()
}

/// `SizedCache::value_order`: the values, in the order of their keys.
#[verifier::external_body]
pub(crate) fn accounts_values(cache: &SizedCache<String, AnnounceAccount>) -> (values: Vec<
    &AnnounceAccount,
>)
    ensures
        values@.len() == account_entries(*cache).len(),
        forall|i: int|
            0 <= i < values@.len() ==> (#[trigger] values@[i])@ == account_entries(*cache)[i].1,
{
    cache.value_order().collect()
}

} // verus!
