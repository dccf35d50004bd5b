//! The way back of an answer.
use crate::laws::keys::{law_keys_are_ordered_by_their_bytes, number_of};
use crate::route_back::{
    is_most_frequent, is_oldest, lemma_most_frequent_unique, older, records_of, without_oldest,
    RouteBacks,
};
use crate::state::TableState;
use crate::types::{CryptoHash, FindRouteError, PeerId, PeerIdOrHash};
use vstd::prelude::*;

verus! {

/// `table` after a message came from `peer`.
pub open spec fn with_route_back(table: TableState, hash: CryptoHash, peer: PeerId, now: u64) -> TableState {
    TableState { route_back: table.route_back.inserted(hash, peer, now), ..table }
}

/// The answer to a new message finds its way back, unless it comes so late that the record may have
/// been given up.
pub proof fn law_answer_goes_back(
    table: TableState,
    hash: CryptoHash,
    peer: PeerId,
    now: u64,
    later: u64,
)
    requires
        table.route_back.target(hash) is None,
        later - now <= table.route_back.evict_timeout,
    ensures
        with_route_back(table, hash, peer, now).route_back.target(hash) == Some(peer),
        with_route_back(table, hash, peer, now).route(PeerIdOrHash::Hash(hash), later) == Ok::<
            PeerId,
            FindRouteError,
        >(peer),
{
}

/// Each record serves one answer: the next one does not find a way back.
pub proof fn law_answer_goes_back_once(table: TableState, hash: CryptoHash, now: u64, later: u64)
    ensures
        table.with_route(PeerIdOrHash::Hash(hash), now).route(PeerIdOrHash::Hash(hash), later) == Err::<
            PeerId,
            FindRouteError,
        >(FindRouteError::RouteBackNotFound),
{
}

/// A message that is known keeps the peer that it came from first.
pub proof fn law_first_sender_counts(
    table: TableState,
    hash: CryptoHash,
    first: PeerId,
    second: PeerId,
    now: u64,
)
    requires
        table.route_back.target(hash) == Some(first),
    ensures
        with_route_back(table, hash, second, now) == table,
{
    assert(with_route_back(table, hash, second, now) =~= table);
}

/// While there is room, no record is given up.
pub proof fn law_no_record_is_lost_while_there_is_room(
    cache: RouteBacks,
    hash: CryptoHash,
    peer: PeerId,
    now: u64,
    other: CryptoHash,
)
    requires
        !cache.is_full(),
        other != hash,
    ensures
        cache.inserted(hash, peer, now).target(other) == cache.target(other),
        cache.removed(hash, now).target(other) == cache.target(other),
{
}

/// The message was seen longer ago than the timeout allows.
pub open spec fn is_late(cache: RouteBacks, hash: CryptoHash, now: u64) -> bool {
    cache.records[hash].0 + cache.evict_timeout < now
}

/// Taking a record: the answer goes to the peer that the message came from, if there is a record of it,
/// unless the cache is full and the record is late. The record is gone then, and a full cache loses the
/// other late ones with it. All others stay.
pub proof fn law_record_is_taken(cache: RouteBacks, hash: CryptoHash, now: u64)
    requires
        cache.valid(),
    ensures
        ({
            let after = cache.removed(hash, now);
            let full = cache.records.len() == cache.capacity;
            &&& cache.without_expired(now).target(hash) == (if cache.records.contains_key(hash) && !(full
                && is_late(cache, hash, now)) {
                Some(cache.records[hash].1)
            } else {
                None
            })
            &&& forall|h: CryptoHash| #[trigger]
                after.records.contains_key(h) <==> h != hash && cache.records.contains_key(h) && !(full
                    && is_late(cache, h, now))
            &&& forall|h: CryptoHash| #[trigger]
                after.records.contains_key(h) ==> after.records[h] == cache.records[h]
            &&& after == (RouteBacks { records: after.records, ..cache })
        }),
        cache.target(hash) == (if cache.records.contains_key(hash) {
            Some(cache.records[hash].1)
        } else {
            None
        }),
{
}

/// A message that is seen is recorded with the time and the peer it came from, unless there is a record
/// of it. While there is room, all other records stay. A full cache loses the late ones; if there are
/// some, all others stay.
pub proof fn law_message_is_recorded(
    cache: RouteBacks,
    hash: CryptoHash,
    peer: PeerId,
    now: u64,
    late: CryptoHash,
)
    requires
        cache.valid(),
    ensures
        ({
            let after = cache.inserted(hash, peer, now);
            let full = cache.records.len() == cache.capacity;
            &&& after == (RouteBacks { records: after.records, ..cache })
            &&& cache.records.contains_key(hash) ==> after.records == cache.records
            &&& !cache.records.contains_key(hash) ==> {
                &&& after.records.contains_key(hash)
                &&& after.records[hash] == (now, peer)
                &&& forall|h: CryptoHash|
                    h != hash && #[trigger] after.records.contains_key(h)
                        ==> cache.records.contains_key(h) && after.records[h] == cache.records[h]
                &&& forall|h: CryptoHash|
                    full && h != hash && cache.records.contains_key(h) && is_late(cache, h, now)
                        ==> !#[trigger] after.records.contains_key(h)
                &&& !full || (cache.records.contains_key(late) && is_late(cache, late, now))
                    ==> forall|h: CryptoHash|
                    h != hash ==> (#[trigger] after.records.contains_key(h)
                        <==> cache.records.contains_key(h) && !(full && is_late(cache, h, now)))
            }
        }),
{
    let kept = cache.without_expired(now);
    let full = cache.records.len() == cache.capacity;
    vstd::set_lib::lemma_len_subset(kept.records.dom(), cache.records.dom());
    if full && cache.records.contains_key(late) && is_late(cache, late, now) {
        assert(!kept.records.contains_key(late));
        vstd::set_lib::lemma_len_subset(kept.records.dom(), cache.records.dom().remove(late));
    }
    if kept.is_full() {
        let busiest = choose|p: PeerId| is_most_frequent(kept.records, p);
        lemma_without_oldest(kept.records, busiest, kept.remove_batch as nat);
    }
    let roomy = kept.without_frequent();
    let after = cache.inserted(hash, peer, now);
    assert(roomy.records.submap_of(kept.records));
    if !cache.records.contains_key(hash) {
        assert forall|h: CryptoHash| h != hash && #[trigger] after.records.contains_key(h) implies
            kept.records.contains_key(h) && after.records[h] == cache.records[h] by {
            assert(roomy.records.contains_key(h));
            assert(kept.records.dom().contains(h));
        }
        if !full || (cache.records.contains_key(late) && is_late(cache, late, now)) {
            assert(!kept.is_full());
        }
    }
}

/// The messages that came from a peer.
pub open spec fn sent_by(cache: RouteBacks, peer: PeerId) -> Set<CryptoHash> {
    cache.records.dom().filter(|hash: CryptoHash| cache.records[hash].1 == peer)
}

/// Of the messages in a set one is the oldest.
proof fn lemma_oldest_exists(
    records: Map<CryptoHash, (u64, PeerId)>,
    hashes: Set<CryptoHash>,
) -> (oldest: CryptoHash)
    requires
        hashes.finite(),
        hashes.len() > 0,
    ensures
        hashes.contains(oldest),
        forall|other: CryptoHash| #[trigger]
            hashes.contains(other) && other != oldest ==> older(records, oldest, other),
    decreases hashes.len(),
{
    let one = hashes.choose();
    let fewer = hashes.remove(one);
    if fewer.len() == 0 {
        assert forall|other: CryptoHash| #[trigger] hashes.contains(other) implies other == one by {
            if other != one {
                assert(fewer.contains(other));
                fewer.lemma_len0_is_empty();
            }
        }
        one
    } else {
        let best = lemma_oldest_exists(records, fewer);
        law_keys_are_ordered_by_their_bytes(one, best);
        law_keys_are_ordered_by_their_bytes(best, one);
        let oldest = if older(records, one, best) {
            one
        } else {
            best
        };
        assert forall|other: CryptoHash| #[trigger]
            hashes.contains(other) && other != oldest implies older(records, oldest, other) by {
            if other != one {
                assert(fewer.contains(other));
            }
        }
        oldest
    }
}

/// What is lost with the oldest records of a peer.
proof fn lemma_without_oldest(records: Map<CryptoHash, (u64, PeerId)>, peer: PeerId, count: nat)
    requires
        records.dom().finite(),
    ensures
        ({
            let after = without_oldest(records, peer, count);
            let all = records_of(records, peer);
            let lost = records.dom().difference(after.dom());
            &&& after.submap_of(records)
            &&& forall|a: CryptoHash| #[trigger] lost.contains(a) ==> records[a].1 == peer
            &&& forall|a: CryptoHash, b: CryptoHash| #[trigger]
                lost.contains(a) && #[trigger] after.contains_key(b) && records[b].1 == peer ==> older(
                    records,
                    a,
                    b,
                )
            &&& lost.finite()
            &&& lost.len() == (if count < all.len() {
                count
            } else {
                all.len()
            })
        }),
    decreases count,
{
    let after = without_oldest(records, peer, count);
    let all = records_of(records, peer);
    let lost = records.dom().difference(after.dom());
    records.dom().lemma_len_filter(|hash: CryptoHash| records[hash].1 == peer);
    assert(all.finite());
    if count == 0 || all.len() == 0 {
        assert(lost =~= Set::empty());
    } else {
        let first = lemma_oldest_exists(records, all);
        assert(is_oldest(records, peer, first));
        let hash = choose|hash: CryptoHash| is_oldest(records, peer, hash);
        assert(all.contains(hash));
        let fewer = records.remove(hash);
        lemma_without_oldest(fewer, peer, (count - 1) as nat);
        let lost_later = fewer.dom().difference(after.dom());
        assert(records_of(fewer, peer) =~= all.remove(hash));
        assert(lost =~= lost_later.insert(hash));
        assert forall|a: CryptoHash, b: CryptoHash| #[trigger]
            lost.contains(a) && #[trigger] after.contains_key(b) && records[b].1 == peer implies older(
            records,
            a,
            b,
        ) by {
            assert(fewer.contains_key(b));
            if a == hash {
                assert(all.contains(b));
            } else {
                assert(lost_later.contains(a));
                assert(older(fewer, a, b));
            }
        }
    }
}

/// A full cache without late records makes room for a new one by sender: the peer that sent the most
/// messages loses its oldest ones, a batch of them or as many as there are. Among peers that sent as many
/// the one with the smallest key loses, and of records that are as old the ones with the smaller hashes
/// go. The records of all other peers stay.
pub proof fn law_busiest_sender_gives_way(
    cache: RouteBacks,
    hash: CryptoHash,
    peer: PeerId,
    now: u64,
    busiest: PeerId,
)
    requires
        cache.valid(),
        cache.records.len() == cache.capacity,
        !cache.records.contains_key(hash),
        forall|h: CryptoHash| #[trigger] cache.records.contains_key(h) ==> !is_late(cache, h, now),
        forall|p: PeerId|
            p != busiest ==> (#[trigger] sent_by(cache, p)).len() < sent_by(cache, busiest).len() || (
            sent_by(cache, p).len() == sent_by(cache, busiest).len() && number_of(busiest)
                < number_of(p)),
    ensures
        ({
            let after = cache.inserted(hash, peer, now).records;
            let lost = cache.records.dom().difference(after.dom());
            &&& forall|h: CryptoHash| #[trigger] lost.contains(h) ==> cache.records[h].1 == busiest
            &&& lost.finite()
            &&& lost.len() == (if cache.remove_batch < sent_by(cache, busiest).len() {
                cache.remove_batch as nat
            } else {
                sent_by(cache, busiest).len()
            })
            &&& forall|a: CryptoHash, b: CryptoHash| #[trigger]
                lost.contains(a) && #[trigger] after.contains_key(b) && b != hash && after[b].1 == busiest
                    ==> cache.records[a].0 < after[b].0 || (cache.records[a].0 == after[b].0
                    && number_of(a) < number_of(b))
            &&& lost.len() > 0
        }),
{
    let kept = cache.without_expired(now);
    assert(kept.records =~= cache.records);
    assert forall|p: PeerId| #[trigger] records_of(cache.records, p) == sent_by(cache, p) by {
        assert(records_of(cache.records, p) =~= sent_by(cache, p));
    }
    assert(is_most_frequent(cache.records, busiest)) by {
        assert forall|other: PeerId| other != busiest implies {
            let n = (#[trigger] records_of(cache.records, other)).len();
            ||| n < records_of(cache.records, busiest).len()
            ||| n == records_of(cache.records, busiest).len() && crate::types::key_before(
                busiest,
                other,
            )
        } by {
            law_keys_are_ordered_by_their_bytes(busiest, other);
            assert(sent_by(cache, other).len() <= sent_by(cache, busiest).len());
        }
    }
    let chosen = choose|p: PeerId| is_most_frequent(cache.records, p);
    lemma_most_frequent_unique(cache.records, busiest, chosen);
    lemma_without_oldest(cache.records, busiest, cache.remove_batch as nat);
    let roomy = kept.without_frequent().records;
    let after = cache.inserted(hash, peer, now).records;
    let lost = cache.records.dom().difference(after.dom());
    assert(lost =~= cache.records.dom().difference(roomy.dom()));
    assert forall|a: CryptoHash, b: CryptoHash| #[trigger]
        lost.contains(a) && #[trigger] after.contains_key(b) && b != hash && after[b].1
            == busiest implies cache.records[a].0 < after[b].0 || (cache.records[a].0 == after[b].0
        && number_of(a) < number_of(b)) by {
        assert(roomy.contains_key(b));
        assert(roomy[b] == cache.records[b]);
        assert(older(cache.records, a, b));
        law_keys_are_ordered_by_their_bytes(a, b);
    }
    // Some peer sent the records that fill the cache.
    let h = cache.records.dom().choose();
    assert(cache.records.contains_key(h));
    let p = cache.records[h].1;
    assert(sent_by(cache, p).contains(h));
    cache.records.dom().lemma_len_filter(|hash: CryptoHash| cache.records[hash].1 == p);
    if sent_by(cache, p).len() == 0 {
        sent_by(cache, p).lemma_len0_is_empty();
    }
}

/// The way back of an answer is the peer that the message came from, as long as there is a record of it
/// and the cache is not full or the record is not late. The record is gone then.
pub proof fn law_way_back_is_found(table: TableState, hash: CryptoHash, now: u64)
    requires
        table.valid(),
    ensures
        ({
            let cache = table.route_back;
            let full = cache.records.len() == cache.capacity;
            let after = table.with_route(PeerIdOrHash::Hash(hash), now);
            &&& table.route(PeerIdOrHash::Hash(hash), now) == (if cache.records.contains_key(hash) && !(
            full && is_late(cache, hash, now)) {
                Ok::<PeerId, FindRouteError>(cache.records[hash].1)
            } else {
                Err(FindRouteError::RouteBackNotFound)
            })
            &&& !after.route_back.records.contains_key(hash)
            &&& forall|h: CryptoHash|
                h != hash ==> (#[trigger] after.route_back.records.contains_key(h)
                    <==> cache.records.contains_key(h) && !(full && is_late(cache, h, now)))
            &&& forall|h: CryptoHash| #[trigger]
                after.route_back.records.contains_key(h) ==> after.route_back.records[h]
                    == cache.records[h]
            &&& after == (TableState { route_back: after.route_back, ..table })
        }),
{
    law_record_is_taken(table.route_back, hash, now);
}

} // verus!
