//! Pings and pongs.
use super::RoutingTable;
use crate::caches::{
    counters_get_mut, counters_set, notes_keys, notes_set, notes_values, sent_remove, sent_set,
    sent_with_size, waiting_get_mut, waiting_set,
};
use crate::lru::{
    bounded, deleted, distinct, has_key, lemma_deleted, lemma_lookup, lemma_stored, lemma_touched,
    lemma_touched_update, lookup, position, stored, touched,
};
use crate::state::{ping_map, pong_map, TableState, PENDING_PINGS_PER_PEER, PING_PONG_CACHE_SIZE};
use crate::types::{PeerId, Ping, Pong};
use std::collections::HashMap;
use vstd::prelude::*;

verus! {

broadcast use vstd::std_specs::hash::group_hash_axioms;

/// Pings without an answer, by peer.
type Waiting = Seq<(PeerId, (Seq<(usize, u64)>, nat))>;

/// Every peer's pings are within the limit.
spec fn pending_bounded(waiting: Waiting) -> bool {
    forall|i: int|
        0 <= i < waiting.len() ==> (#[trigger] waiting[i]).1.1 == PENDING_PINGS_PER_PEER && bounded(
            waiting[i].1.0,
            PENDING_PINGS_PER_PEER as nat,
        )
}

/// What is found is within the limit.
proof fn lemma_pending(waiting: Waiting, peer: PeerId)
    requires
        pending_bounded(waiting),
        lookup(waiting, peer) is Some,
    ensures
        ({
            let (sent, limit) = lookup(waiting, peer).unwrap();
            limit == PENDING_PINGS_PER_PEER && bounded(sent, limit)
        }),
{
    let at = position(waiting, peer);
    assert(waiting[at].0 == peer);
}

/// A peer's pings may be replaced where a lookup left them.
proof fn lemma_pending_update(waiting: Waiting, peer: PeerId, sent: Seq<(usize, u64)>)
    requires
        pending_bounded(waiting),
        has_key(waiting, peer),
        bounded(sent, PENDING_PINGS_PER_PEER as nat),
    ensures
        pending_bounded(
            touched(waiting, peer).update(0, (peer, (sent, PENDING_PINGS_PER_PEER as nat))),
        ),
{
    let at = position(waiting, peer);
    let seen = touched(waiting, peer);
    let after = seen.update(0, (peer, (sent, PENDING_PINGS_PER_PEER as nat)));
    assert(waiting[at].0 == peer);
    assert forall|i: int| 0 <= i < after.len() implies (#[trigger] after[i]).1.1
        == PENDING_PINGS_PER_PEER && bounded(after[i].1.0, PENDING_PINGS_PER_PEER as nat) by {
        if i > 0 {
            assert(after[i] == waiting[if i <= at {
                i - 1
            } else {
                i
            }]);
        }
    }
}

impl RoutingTable {
    /// Remembers a ping that came in.
    pub fn add_ping(&mut self, ping: Ping)
        requires
            old(self).wf(),
        ensures
            final(self).wf(),
            final(self)@ == old(self)@.with_ping(ping),
    {
        proof {
            lemma_stored(
                self@.pings,
                PING_PONG_CACHE_SIZE as nat,
                ping.nonce as usize,
                (ping.nonce, ping.source),
            );
        }
        notes_set(&mut self.internals.ping_info, ping.nonce as usize, (ping.nonce, ping.source));
    }

    /// Remembers a pong that came in. Return time of the round trip of ping + pong, if the ping is
    /// known. Times are in nanoseconds, from any fixed point on.
    pub fn add_pong(&mut self, pong: Pong, now: u64) -> (res: Option<u64>)
        requires
            old(self).wf(),
        ensures
            final(self).wf(),
            final(self)@ == old(self)@.with_pong(pong),
            res == match old(self)@.sent_at(pong.source, pong.nonce as usize) {
                Some(sent) => Some(
                    if now >= sent {
                        (now - sent) as u64
                    } else {
                        0
                    },
                ),
                None => None,
            },
    {
        let ghost waiting = self@.waiting;
        let mut res: Option<u64> = None;
        proof {
            if has_key(waiting, pong.source) {
                let (sent, limit) = lookup(waiting, pong.source).unwrap();
                let nonce = pong.nonce as usize;
                lemma_pending(waiting, pong.source);
                lemma_deleted(sent, nonce);
                lemma_pending_update(waiting, pong.source, deleted(sent, nonce));
                lemma_touched_update(
                    waiting,
                    pong.source,
                    (deleted(sent, nonce), limit),
                );
            }
            lemma_stored(
                self@.pongs,
                PING_PONG_CACHE_SIZE as nat,
                pong.nonce as usize,
                (pong.nonce, pong.source),
            );
        }
        if let Some(nonces) = waiting_get_mut(&mut self.internals.waiting_pong, &pong.source) {
            if let Some(sent) = sent_remove(nonces, &(pong.nonce as usize)) {
                res = Some(now.saturating_sub(sent));
            }
        }
        notes_set(&mut self.internals.pong_info, pong.nonce as usize, (pong.nonce, pong.source));
        res
    }

    /// Remembers when a ping left for `target`.
    pub fn sending_ping(&mut self, nonce: usize, target: PeerId, now: u64)
        requires
            old(self).wf(),
        ensures
            final(self).wf(),
            final(self)@ == old(self)@.with_sent_ping(nonce, target, now),
    {
        let ghost before = self@.waiting;
        let ghost waiting = self@.waiting_for(target);
        let ghost (pending, limit) = lookup(waiting, target).unwrap();
        proof {
            let none = (Seq::<(usize, u64)>::empty(), PENDING_PINGS_PER_PEER as nat);
            if !has_key(before, target) {
                lemma_stored(before, PING_PONG_CACHE_SIZE as nat, target, none);
            }
            lemma_pending(waiting, target);
            lemma_stored(pending, limit, nonce, now);
            lemma_touched_update(waiting, target, (stored(pending, limit, nonce, now), limit));
            lemma_pending_update(waiting, target, stored(pending, limit, nonce, now));
        }
        if let Some(entry) = waiting_get_mut(&mut self.internals.waiting_pong, &target) {
            sent_set(entry, nonce, now);
            return ;
        }
        waiting_set(&mut self.internals.waiting_pong, target, sent_with_size(PENDING_PINGS_PER_PEER));
        if let Some(entry) = waiting_get_mut(&mut self.internals.waiting_pong, &target) {
            sent_set(entry, nonce, now);
        }
    }

    /// The nonce of the next ping to a peer.
    pub fn get_ping(&mut self, peer_id: PeerId) -> (nonce: usize)
        requires
            old(self).wf(),
            old(self)@.next_ping(peer_id) < usize::MAX,
        ensures
            final(self).wf(),
            nonce == old(self)@.next_ping(peer_id),
            final(self)@ == old(self)@.with_next_ping(peer_id),
    {
        proof {
            lemma_next_ping(self@, peer_id);
        }
        if let Some(entry) = counters_get_mut(&mut self.internals.last_ping_nonce, &peer_id) {
            *entry = *entry + 1;
            *entry - 1
        } else {
            counters_set(&mut self.internals.last_ping_nonce, peer_id, 1);
            0
        }
    }

    /// Like [`RoutingTable::get_ping`], for a caller that does not know whether there is a nonce
    /// left. `None` if there is none.
    pub fn try_get_ping(&mut self, peer_id: PeerId) -> (res: Option<usize>)
        requires
            old(self).wf(),
        ensures
            final(self).wf(),
            match res {
                Some(nonce) => {
                    &&& nonce < usize::MAX
                    &&& nonce == old(self)@.next_ping(peer_id)
                    &&& final(self)@ == old(self)@.with_next_ping(peer_id)
                },
                None => {
                    &&& old(self)@.next_ping(peer_id) == usize::MAX
                    &&& final(self)@ == (TableState {
                        last_pings: touched(old(self)@.last_pings, peer_id),
                        ..old(self)@
                    })
                },
            },
    {
        proof {
            lemma_next_ping(self@, peer_id);
        }
        let ghost pings = self@.last_pings;
        if let Some(entry) = counters_get_mut(&mut self.internals.last_ping_nonce, &peer_id) {
            if *entry == usize::MAX {
                assert(touched(pings, peer_id).update(0, (peer_id, usize::MAX)) =~= touched(
                    pings,
                    peer_id,
                ));
                return None;
            }
            *entry = *entry + 1;
            Some(*entry - 1)
        } else {
            counters_set(&mut self.internals.last_ping_nonce, peer_id, 1);
            Some(0)
        }
    }

    /// The pings and pongs that are remembered, by nonce.
    pub fn fetch_ping_pong(&self) -> (res: (HashMap<usize, Ping>, HashMap<usize, Pong>))
        requires
            self.wf(),
        ensures
            res.0@ == ping_map(self@.pings),
            res.1@ == pong_map(self@.pongs),
    {
        (self.pings_by_nonce(), self.pongs_by_nonce())
    }

    fn pings_by_nonce(&self) -> (res: HashMap<usize, Ping>)
        requires
            self.wf(),
        ensures
            res@ == ping_map(self@.pings),
    {
        let keys = notes_keys(&self.internals.ping_info);
        let values = notes_values(&self.internals.ping_info);
        let ghost entries = self@.pings;
        let mut res: HashMap<usize, Ping> = HashMap::new();
        let mut i: usize = 0;
        while i < keys.len()
            invariant
                distinct(entries),
                i <= keys@.len() == values@.len() == entries.len(),
                forall|k: int| 0 <= k < keys@.len() ==> #[trigger] keys@[k] == entries[k].0,
                forall|k: int| 0 <= k < values@.len() ==> #[trigger] values@[k] == entries[k].1,
                res@ == ping_map(entries.take(i as int)),
            decreases keys.len() - i,
        {
            let nonce: usize = keys[i];
            let note = values[i];
            proof {
                lemma_next_entry(entries, i as int);
            }
            res.insert(nonce, Ping { nonce: note.0, source: note.1 });
            assert(res@ =~= ping_map(entries.take(i + 1)));
            i += 1;
        }
        assert(entries.take(i as int) =~= entries);
        res
    }

    fn pongs_by_nonce(&self) -> (res: HashMap<usize, Pong>)
        requires
            self.wf(),
        ensures
            res@ == pong_map(self@.pongs),
    {
        let keys = notes_keys(&self.internals.pong_info);
        let values = notes_values(&self.internals.pong_info);
        let ghost entries = self@.pongs;
        let mut res: HashMap<usize, Pong> = HashMap::new();
        let mut i: usize = 0;
        while i < keys.len()
            invariant
                distinct(entries),
                i <= keys@.len() == values@.len() == entries.len(),
                forall|k: int| 0 <= k < keys@.len() ==> #[trigger] keys@[k] == entries[k].0,
                forall|k: int| 0 <= k < values@.len() ==> #[trigger] values@[k] == entries[k].1,
                res@ == pong_map(entries.take(i as int)),
            decreases keys.len() - i,
        {
            let nonce: usize = keys[i];
            let note = values[i];
            proof {
                lemma_next_entry(entries, i as int);
            }
            res.insert(nonce, Pong { nonce: note.0, source: note.1 });
            assert(res@ =~= pong_map(entries.take(i + 1)));
            i += 1;
        }
        assert(entries.take(i as int) =~= entries);
        res
    }
}

/// Counting the next ping keeps the cache in order.
proof fn lemma_next_ping(table: TableState, peer: PeerId)
    requires
        bounded(table.last_pings, PING_PONG_CACHE_SIZE as nat),
    ensures
        bounded(table.with_next_ping(peer).last_pings, PING_PONG_CACHE_SIZE as nat),
        bounded(touched(table.last_pings, peer), PING_PONG_CACHE_SIZE as nat),
        has_key(table.last_pings, peer) ==> touched(table.last_pings, peer)[0] == (
            peer,
            lookup(table.last_pings, peer).unwrap(),
        ),
{
    lemma_touched(table.last_pings, peer);
    match lookup(table.last_pings, peer) {
        Some(nonce) => {
            lemma_touched_update(table.last_pings, peer, (nonce + 1) as usize);
        },
        None => {
            lemma_stored(table.last_pings, PING_PONG_CACHE_SIZE as nat, peer, 1usize);
        },
    }
}

/// The first entries with the next one: it is found under its key, and the others as before.
proof fn lemma_next_entry<V>(entries: Seq<(usize, V)>, i: int)
    requires
        distinct(entries),
        0 <= i < entries.len(),
    ensures
        has_key(entries.take(i + 1), entries[i].0),
        lookup(entries.take(i + 1), entries[i].0) == Some(entries[i].1),
        forall|k: usize|
            k != entries[i].0 ==> (#[trigger] has_key(entries.take(i + 1), k) <==> has_key(
                entries.take(i),
                k,
            )),
        forall|k: usize|
            k != entries[i].0 ==> #[trigger] lookup(entries.take(i + 1), k) == lookup(
                entries.take(i),
                k,
            ),
{
    let first = entries.take(i);
    let more = entries.take(i + 1);
    assert(distinct(first));
    assert(distinct(more));
    assert(more[i] == entries[i]);
    lemma_lookup(more, i);
    assert forall|k: usize| k != entries[i].0 implies (#[trigger] has_key(more, k) <==> has_key(
        first,
        k,
    )) && lookup(more, k) == lookup(first, k) by {
        if has_key(first, k) {
            let j = position(first, k);
            assert(first[j].0 == k);
            assert(more[j].0 == k);
            lemma_lookup(more, j);
        }
        if has_key(more, k) {
            let j = position(more, k);
            assert(more[j].0 == k);
            assert(first[j].0 == k);
        }
    }
}

} // verus!
