//! Pings and their answers.
use crate::lru::{
    deleted, distinct, has_key, lemma_deleted, lemma_evicted, lemma_stored, lemma_touched_update,
    lookup, position, stored,
};
use crate::state::{
    ping_map, pong_map, TableState, PENDING_PINGS_PER_PEER, PING_PONG_CACHE_SIZE,
};
use crate::types::{PeerId, Ping, Pong};
use vstd::prelude::*;

verus! {

/// The pings to a peer are numbered one after the other.
pub proof fn law_pings_are_numbered(table: TableState, peer: PeerId)
    requires
        table.valid(),
        table.next_ping(peer) < usize::MAX,
    ensures
        table.with_next_ping(peer).next_ping(peer) == table.next_ping(peer) + 1,
{
    match lookup(table.last_pings, peer) {
        Some(nonce) => {
            lemma_touched_update(table.last_pings, peer, (nonce + 1) as usize);
        },
        None => {
            lemma_stored(table.last_pings, PING_PONG_CACHE_SIZE as nat, peer, 1usize);
        },
    }
}

/// The pings to other peers keep their numbers, as long as there is room for one peer more.
pub proof fn law_pings_are_numbered_by_peer(table: TableState, peer: PeerId, other: PeerId)
    requires
        table.valid(),
        table.last_pings.len() < PING_PONG_CACHE_SIZE || has_key(table.last_pings, peer),
        peer != other,
    ensures
        table.with_next_ping(peer).next_ping(other) == table.next_ping(other),
{
    match lookup(table.last_pings, peer) {
        Some(nonce) => {
            lemma_touched_update(table.last_pings, peer, (nonce + 1) as usize);
        },
        None => {
            lemma_stored(table.last_pings, PING_PONG_CACHE_SIZE as nat, peer, 1usize);
            lemma_evicted(table.last_pings, PING_PONG_CACHE_SIZE as nat);
        },
    }
}

proof fn lemma_sent(table: TableState, nonce: usize, peer: PeerId, now: u64)
    requires
        table.valid(),
    ensures
        table.with_sent_ping(nonce, peer, now).sent_at(peer, nonce) == Some(now),
        distinct(table.with_sent_ping(nonce, peer, now).waiting),
        lookup(table.with_sent_ping(nonce, peer, now).waiting, peer) matches Some(pending)
            ==> distinct(pending.0),
{
    let none = (Seq::<(usize, u64)>::empty(), PENDING_PINGS_PER_PEER as nat);
    if !has_key(table.waiting, peer) {
        lemma_stored(table.waiting, PING_PONG_CACHE_SIZE as nat, peer, none);
    } else {
        let at = position(table.waiting, peer);
        assert(table.waiting[at].0 == peer);
    }
    let waiting = table.waiting_for(peer);
    let (sent, limit) = lookup(waiting, peer).unwrap();
    assert(has_key(waiting, peer));
    lemma_stored(sent, limit, nonce, now);
    lemma_touched_update(waiting, peer, (stored(sent, limit, nonce, now), limit));
}

/// The answer to a ping tells when the ping left. A second answer tells nothing.
pub proof fn law_pong_answers_its_ping(table: TableState, nonce: u64, peer: PeerId, now: u64)
    requires
        table.valid(),
    ensures
        ({
            let sent = table.with_sent_ping(nonce as usize, peer, now);
            let pong = Pong { nonce, source: peer };
            &&& sent.sent_at(peer, nonce as usize) == Some(now)
            &&& sent.with_pong(pong).sent_at(peer, nonce as usize) is None
        }),
{
    lemma_sent(table, nonce as usize, peer, now);
    let sent = table.with_sent_ping(nonce as usize, peer, now);
    lemma_answered(sent, Pong { nonce, source: peer });
}

/// After a pong nothing waits for it.
pub proof fn law_pong_is_waited_for_once(table: TableState, pong: Pong)
    requires
        table.valid(),
    ensures
        table.with_pong(pong).sent_at(pong.source, pong.nonce as usize) is None,
{
    if has_key(table.waiting, pong.source) {
        let at = position(table.waiting, pong.source);
        assert(table.waiting[at].0 == pong.source);
    }
    lemma_answered(table, pong);
}

proof fn lemma_answered(table: TableState, pong: Pong)
    requires
        distinct(table.waiting),
        lookup(table.waiting, pong.source) matches Some(pending) ==> distinct(pending.0),
    ensures
        table.with_pong(pong).sent_at(pong.source, pong.nonce as usize) is None,
{
    if let Some((sent, limit)) = lookup(table.waiting, pong.source) {
        let nonce = pong.nonce as usize;
        lemma_deleted(sent, nonce);
        lemma_touched_update(
            table.waiting,
            pong.source,
            (deleted(sent, nonce), limit),
        );
    }
}

/// A pong leaves all other pings waiting as they are.
pub proof fn law_pong_leaves_other_pings(table: TableState, pong: Pong, peer: PeerId, nonce: usize)
    requires
        table.valid(),
        (peer, nonce) != (pong.source, pong.nonce as usize),
    ensures
        table.with_pong(pong).sent_at(peer, nonce) == table.sent_at(peer, nonce),
{
    if let Some((sent, limit)) = lookup(table.waiting, pong.source) {
        let at = position(table.waiting, pong.source);
        assert(table.waiting[at].0 == pong.source);
        let answered = pong.nonce as usize;
        lemma_deleted(sent, answered);
        lemma_touched_update(table.waiting, pong.source, (deleted(sent, answered), limit));
    }
}

/// While there is room, a ping that is sent leaves all other pings waiting as they are.
pub proof fn law_sent_ping_leaves_other_pings(
    table: TableState,
    sent_nonce: usize,
    target: PeerId,
    now: u64,
    peer: PeerId,
    nonce: usize,
)
    requires
        table.valid(),
        table.has_room_for_ping(target),
        (peer, nonce) != (target, sent_nonce),
    ensures
        table.with_sent_ping(sent_nonce, target, now).sent_at(peer, nonce) == table.sent_at(peer, nonce),
{
    let none = (Seq::<(usize, u64)>::empty(), PENDING_PINGS_PER_PEER as nat);
    if !has_key(table.waiting, target) {
        lemma_stored(table.waiting, PING_PONG_CACHE_SIZE as nat, target, none);
    } else {
        let at = position(table.waiting, target);
        assert(table.waiting[at].0 == target);
    }
    let waiting = table.waiting_for(target);
    let (sent, limit) = lookup(waiting, target).unwrap();
    assert(has_key(waiting, target));
    lemma_stored(sent, limit, sent_nonce, now);
    lemma_touched_update(waiting, target, (stored(sent, limit, sent_nonce, now), limit));
}

/// The latest ping and the latest pong are remembered under their nonces.
pub proof fn law_latest_notes_are_remembered(table: TableState, ping: Ping, pong: Pong)
    requires
        table.valid(),
    ensures
        ping_map(table.with_ping(ping).pings).contains_key(ping.nonce as usize),
        ping_map(table.with_ping(ping).pings)[ping.nonce as usize] == ping,
        pong_map(table.with_pong(pong).pongs).contains_key(pong.nonce as usize),
        pong_map(table.with_pong(pong).pongs)[pong.nonce as usize] == pong,
{
    lemma_stored(
        table.pings,
        PING_PONG_CACHE_SIZE as nat,
        ping.nonce as usize,
        (ping.nonce, ping.source),
    );
    lemma_stored(
        table.pongs,
        PING_PONG_CACHE_SIZE as nat,
        pong.nonce as usize,
        (pong.nonce, pong.source),
    );
}

} // verus!
