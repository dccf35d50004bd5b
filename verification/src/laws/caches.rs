//! What each cache of the table holds after a change, entry by entry.
use crate::lru::{
    deleted, distinct, evicted, has_key, lemma_lookup, lemma_stored, lookup, position, stored,
    touched,
};
use crate::state::{
    ping_map, pong_map, TableState, PENDING_PINGS_PER_PEER, PING_PONG_CACHE_SIZE,
};
use crate::store::{StoreChange, StoreReply};
use crate::types::{Announcement, PeerId, Ping, Pong};
use vstd::prelude::*;

verus! {

/// The entry at `k` has the key.
pub open spec fn is_at<K, V>(entries: Seq<(K, V)>, key: K, k: int) -> bool {
    0 <= k < entries.len() && entries[k].0 == key
}

/// No entry has the key.
pub open spec fn is_absent<K, V>(entries: Seq<(K, V)>, key: K) -> bool {
    forall|i: int| 0 <= i < entries.len() ==> (#[trigger] entries[i]).0 != key
}

/// The value was put under the key. A cache with as many entries as it may hold gave up its last one
/// first. An entry of the key that was left got the value and kept its place. Without one, a new entry
/// came first, before all others. These kept their values and their order.
pub open spec fn put_in<K, V>(
    before: Seq<(K, V)>,
    after: Seq<(K, V)>,
    limit: int,
    key: K,
    value: V,
) -> bool {
    let left = if before.len() < limit {
        before.len() as int
    } else {
        before.len() - 1
    };
    if is_absent(before.take(left), key) {
        &&& after.len() == left + 1
        &&& after[0] == (key, value)
        &&& forall|i: int| 0 <= i < left ==> after[i + 1] == #[trigger] before[i]
    } else {
        &&& after.len() == left
        &&& forall|i: int|
            0 <= i < left ==> #[trigger] after[i] == (if before[i].0 == key {
                (key, value)
            } else {
                before[i]
            })
    }
}

/// The entry at `k` came first, before all others, with the given value. The others kept their values
/// and their order.
pub open spec fn moved_up<K, V>(before: Seq<(K, V)>, after: Seq<(K, V)>, k: int, value: V) -> bool {
    &&& after.len() == before.len()
    &&& after[0] == (before[k].0, value)
    &&& forall|i: int| 0 <= i < k ==> after[i + 1] == #[trigger] before[i]
    &&& forall|i: int| k < i < before.len() ==> #[trigger] after[i] == before[i]
}

proof fn lemma_absent<K, V>(entries: Seq<(K, V)>, key: K)
    ensures
        is_absent(entries, key) <==> !has_key(entries, key),
        has_key(entries, key) <==> lookup(entries, key) is Some,
        has_key(entries, key) ==> is_at(entries, key, position(entries, key)),
{
}

proof fn lemma_put_in<K, V>(entries: Seq<(K, V)>, limit: nat, key: K, value: V)
    requires
        distinct(entries),
        entries.len() <= limit,
        limit > 0,
    ensures
        put_in(entries, stored(entries, limit, key, value), limit as int, key, value),
{
    let left = if entries.len() < limit {
        entries.len() as int
    } else {
        entries.len() - 1
    };
    let rest = evicted(entries, limit);
    assert(rest =~= entries.take(left));
    lemma_absent(rest, key);
    if has_key(rest, key) {
        let at = position(rest, key);
        assert(rest[at].0 == key);
        let after = stored(entries, limit, key, value);
        assert forall|i: int| 0 <= i < left implies #[trigger] after[i] == (if entries[i].0 == key {
            (key, value)
        } else {
            entries[i]
        }) by {
            assert(rest[i] == entries[i]);
            assert(entries[at].0 == key);
        }
    }
}

proof fn lemma_at<K, V>(entries: Seq<(K, V)>, key: K, k: int)
    requires
        distinct(entries),
        is_at(entries, key, k),
    ensures
        lookup(entries, key) == Some(entries[k].1),
        position(entries, key) == k,
        has_key(entries, key),
{
    lemma_lookup(entries, k);
}

proof fn lemma_moved_up<K, V>(entries: Seq<(K, V)>, key: K, k: int, value: V)
    requires
        distinct(entries),
        is_at(entries, key, k),
    ensures
        moved_up(entries, touched(entries, key).update(0, (key, value)), k, value),
        moved_up(entries, touched(entries, key), k, entries[k].1),
{
    lemma_at(entries, key, k);
}

/// Announcing an account: the latest announcement of the account is in the cache, and the others stay.
/// The cache holds at most ten thousand.
pub proof fn law_announcement_goes_to_the_cache(table: TableState, announce: Announcement)
    requires
        table.valid(),
    ensures
        put_in(
            table.accounts,
            table.with_account(announce).accounts,
            10_000,
            announce.account_id,
            announce,
        ),
{
    lemma_put_in(table.accounts, 10_000, announce.account_id, announce);
}

/// Looking up an account that is in the cache, at `k`: this is the answer, and the entry comes first.
/// Nothing is written.
pub proof fn law_cached_account_comes_first(
    table: TableState,
    account_id: Seq<char>,
    reply: StoreReply<Announcement>,
    k: int,
)
    requires
        table.valid(),
        is_at(table.accounts, account_id, k),
    ensures
        table.announcement(account_id, reply) == Some(table.accounts[k].1),
        moved_up(
            table.accounts,
            table.with_lookup(account_id, reply).accounts,
            k,
            table.accounts[k].1,
        ),
        table.lookup_changes(account_id, reply) == Seq::<StoreChange>::empty(),
{
    lemma_at(table.accounts, account_id, k);
    lemma_moved_up(table.accounts, account_id, k, table.accounts[k].1);
}

/// Looking up an account that is not in the cache: what the store found is the answer. It goes to the
/// cache, and is written again. If the store found nothing there is no answer, and nothing changes.
pub proof fn law_account_comes_from_the_store(
    table: TableState,
    account_id: Seq<char>,
    reply: StoreReply<Announcement>,
)
    requires
        table.valid(),
        is_absent(table.accounts, account_id),
    ensures
        match reply {
            StoreReply::Found(announce) => {
                &&& table.announcement(account_id, reply) == Some(announce)
                &&& put_in(
                    table.accounts,
                    table.with_lookup(account_id, reply).accounts,
                    10_000,
                    announce.account_id,
                    announce,
                )
                &&& table.lookup_changes(account_id, reply) == seq![
                    StoreChange::SetAnnouncement(announce),
                ]
            },
            _ => {
                &&& table.announcement(account_id, reply) is None
                &&& table.with_lookup(account_id, reply) == table
                &&& table.lookup_changes(account_id, reply) == Seq::<StoreChange>::empty()
            },
        },
{
    lemma_absent(table.accounts, account_id);
    if let StoreReply::Found(announce) = reply {
        lemma_put_in(table.accounts, 10_000, announce.account_id, announce);
    }
}

/// A ping that comes in is remembered under its nonce. At most a thousand are.
pub proof fn law_ping_is_noted(table: TableState, ping: Ping)
    requires
        table.valid(),
    ensures
        put_in(
            table.pings,
            table.with_ping(ping).pings,
            1_000,
            ping.nonce as usize,
            (ping.nonce, ping.source),
        ),
{
    lemma_put_in(table.pings, 1_000, ping.nonce as usize, (ping.nonce, ping.source));
}

/// A pong that comes in is remembered under its nonce. At most a thousand are.
pub proof fn law_pong_is_noted(table: TableState, pong: Pong)
    requires
        table.valid(),
    ensures
        put_in(
            table.pongs,
            table.with_pong(pong).pongs,
            1_000,
            pong.nonce as usize,
            (pong.nonce, pong.source),
        ),
{
    lemma_put_in(table.pongs, 1_000, pong.nonce as usize, (pong.nonce, pong.source));
}

/// The notes that are shown are those that are remembered, with their nonces and their senders.
pub proof fn law_notes_are_shown(
    notes: Seq<(usize, (u64, PeerId))>,
    key: usize,
    k: int,
)
    requires
        distinct(notes),
    ensures
        is_at(notes, key, k) ==> {
            &&& ping_map(notes).contains_key(key)
            &&& ping_map(notes)[key] == (Ping { nonce: notes[k].1.0, source: notes[k].1.1 })
            &&& pong_map(notes).contains_key(key)
            &&& pong_map(notes)[key] == (Pong { nonce: notes[k].1.0, source: notes[k].1.1 })
        },
        is_absent(notes, key) ==> !ping_map(notes).contains_key(key) && !pong_map(
            notes,
        ).contains_key(key),
{
    lemma_absent(notes, key);
    if is_at(notes, key, k) {
        lemma_at(notes, key, k);
    }
}

/// The pings to a peer are numbered from zero on. The number of a peer that was pinged before, with its
/// entry at `k`, goes up by one and comes first; a new peer gets an entry. At most a thousand peers
/// have one. The numbers of the others stay.
pub proof fn law_pings_are_numbered_from_zero(table: TableState, peer: PeerId, k: int)
    requires
        table.valid(),
    ensures
        is_at(table.last_pings, peer, k) && table.last_pings[k].1 < usize::MAX ==> {
            &&& table.next_ping(peer) == table.last_pings[k].1
            &&& moved_up(
                table.last_pings,
                table.with_next_ping(peer).last_pings,
                k,
                (table.last_pings[k].1 + 1) as usize,
            )
        },
        is_at(table.last_pings, peer, k) ==> table.next_ping(peer) == table.last_pings[k].1,
        is_absent(table.last_pings, peer) ==> {
            &&& table.next_ping(peer) == 0
            &&& put_in(
                table.last_pings,
                table.with_next_ping(peer).last_pings,
                1_000,
                peer,
                1usize,
            )
        },
{
    lemma_absent(table.last_pings, peer);
    if is_at(table.last_pings, peer, k) {
        lemma_at(table.last_pings, peer, k);
        lemma_moved_up(
            table.last_pings,
            peer,
            k,
            (table.last_pings[k].1 + 1) as usize,
        );
    }
    lemma_put_in(table.last_pings, 1_000, peer, 1usize);
}

/// A ping that leaves for a peer to which pings are waiting already, in the entry at `k`: its sending time
/// joins theirs, of which there are at most ten, and the entry comes first.
pub proof fn law_ping_joins_the_waiting(
    table: TableState,
    nonce: usize,
    peer: PeerId,
    now: u64,
    k: int,
)
    requires
        table.valid(),
        is_at(table.waiting, peer, k),
    ensures
        ({
            let after = table.with_sent_ping(nonce, peer, now).waiting;
            &&& moved_up(table.waiting, after, k, after[0].1)
            &&& after[0].1.1 == 10
            &&& put_in(table.waiting[k].1.0, after[0].1.0, 10, nonce, now)
        }),
        table.has_room_for_ping(peer) <==> table.waiting[k].1.0.len() < 10,
{
    lemma_at(table.waiting, peer, k);
    let (sent, limit) = table.waiting[k].1;
    assert(limit == PENDING_PINGS_PER_PEER);
    lemma_put_in(sent, limit, nonce, now);
    lemma_moved_up(table.waiting, peer, k, (stored(sent, limit, nonce, now), limit));
}

/// A ping that leaves for a peer to which none is waiting: the peer gets an entry, which comes first and
/// holds this ping alone. At most a thousand peers have one; the entries of the others stay.
pub proof fn law_first_ping_waits(table: TableState, nonce: usize, peer: PeerId, now: u64)
    requires
        table.valid(),
        is_absent(table.waiting, peer),
    ensures
        put_in(
            table.waiting,
            table.with_sent_ping(nonce, peer, now).waiting,
            1_000,
            peer,
            (seq![(nonce, now)], 10nat),
        ),
        table.has_room_for_ping(peer) <==> table.waiting.len() < 1_000,
{
    lemma_absent(table.waiting, peer);
    let none = (Seq::<(usize, u64)>::empty(), PENDING_PINGS_PER_PEER as nat);
    let room = table.waiting_for(peer);
    lemma_put_in(table.waiting, 1_000, peer, none);
    lemma_stored(table.waiting, PING_PONG_CACHE_SIZE as nat, peer, none);
    let left = if table.waiting.len() < 1_000 {
        table.waiting.len() as int
    } else {
        table.waiting.len() - 1
    };
    assert(is_absent(table.waiting.take(left), peer));
    assert(is_at(room, peer, 0));
    lemma_at(room, peer, 0);
    let one = stored(Seq::<(usize, u64)>::empty(), 10, nonce, now);
    assert(one =~= seq![(nonce, now)]);
    lemma_moved_up(room, peer, 0, (one, 10nat));
    let after = table.with_sent_ping(nonce, peer, now).waiting;
    assert(moved_up(room, after, 0, (one, 10nat)));
    assert forall|i: int| 0 <= i < left implies after[i + 1] == #[trigger] table.waiting[i] by {
        assert(room[i + 1] == table.waiting[i]);
    }
}

/// When a ping left is what its entry says.
pub proof fn law_sending_times_are_kept(table: TableState, peer: PeerId, nonce: usize, k: int, j: int)
    requires
        table.valid(),
    ensures
        is_at(table.waiting, peer, k) && is_at(table.waiting[k].1.0, nonce, j) ==> table.sent_at(
            peer,
            nonce,
        ) == Some(table.waiting[k].1.0[j].1),
        is_at(table.waiting, peer, k) && is_absent(table.waiting[k].1.0, nonce) ==> table.sent_at(
            peer,
            nonce,
        ) is None,
        is_absent(table.waiting, peer) ==> table.sent_at(peer, nonce) is None,
{
    lemma_absent(table.waiting, peer);
    if is_at(table.waiting, peer, k) {
        lemma_at(table.waiting, peer, k);
        let sent = table.waiting[k].1.0;
        lemma_absent(sent, nonce);
        if is_at(sent, nonce, j) {
            lemma_at(sent, nonce, j);
        }
    }
}

/// A pong takes the ping that it answers, at `j` of the pings to its sender, off the waiting ones. The
/// entry of the sender, at `k`, comes first. All other pings stay. A pong that answers none takes none.
pub proof fn law_answered_ping_waits_no_more(table: TableState, pong: Pong, k: int, j: int)
    requires
        table.valid(),
    ensures
        is_at(table.waiting, pong.source, k) ==> {
            let after = table.with_pong(pong).waiting;
            let sent = table.waiting[k].1.0;
            &&& moved_up(table.waiting, after, k, after[0].1)
            &&& after[0].1.1 == 10
            &&& is_at(sent, pong.nonce as usize, j) ==> after[0].1.0 == sent.remove(j)
            &&& is_absent(sent, pong.nonce as usize) ==> after[0].1.0 == sent
        },
        is_absent(table.waiting, pong.source) ==> table.with_pong(pong).waiting == table.waiting,
{
    lemma_absent(table.waiting, pong.source);
    if is_at(table.waiting, pong.source, k) {
        lemma_at(table.waiting, pong.source, k);
        let (sent, limit) = table.waiting[k].1;
        let nonce = pong.nonce as usize;
        lemma_absent(sent, nonce);
        if is_at(sent, nonce, j) {
            lemma_at(sent, nonce, j);
        }
        lemma_moved_up(table.waiting, pong.source, k, (deleted(sent, nonce), limit));
    }
}

} // verus!
