//! What holds after any calls.
use crate::clock::NANOS_PER_SECOND;
use crate::laws::disk::{
    law_restart_carries_on, law_saved_is_on_disk, law_saved_peers_come_back, law_touch_stays_ahead,
};
use crate::laws::edges::{
    law_edges_stay_truthful, law_fresh_table_is_truthful, law_touch_stays_truthful,
    law_update_stays_truthful,
};
use crate::laws::routes::law_routes_have_hops;
use crate::laws::way_back::with_route_back;
use crate::lru::{
    bounded, deleted, evicted, has_key, lemma_deleted, lemma_stored, lemma_touched_update, lookup,
    stored, touched,
};
use crate::state::{
    processed_on, replies_of, touched_on, TableState, PENDING_PINGS_PER_PEER, PING_PONG_CACHE_SIZE,
    SAVE_PEERS_MAX_TIME,
};
use crate::store::{Disk, StoreChange, StoreReply};
use crate::types::{Announcement, CryptoHash, Edge, PeerId, PeerIdOrHash, Ping, Pong, Time};
use vstd::prelude::*;

verus! {

/// A call of a method that changes the table, on a working store. What is to be written is written.
pub enum Event {
    Edges(Seq<Edge>, Time),
    Routes(Time),
    /// With what is written, if peers are due to be saved.
    Save(Time, Seq<StoreChange>),
    Account(Announcement),
    Lookup(Seq<char>),
    Route(PeerIdOrHash, u64),
    RouteBack(CryptoHash, PeerId, u64),
    Ping(Ping),
    Pong(Pong),
    SentPing(usize, PeerId, u64),
    NextPing(PeerId),
    /// The table is dropped, and a new one is made from the store.
    Restart,
}

/// The edges are valid, peers are saved as they are to be, and there is a nonce left to save them
/// under.
pub open spec fn may_happen(table: TableState, event: Event) -> bool {
    match event {
        Event::Edges(edges, now) => forall|i: int|
            0 <= i < edges.len() ==> (#[trigger] edges[i]).is_ordered(),
        Event::Save(now, changes) => if table.save_is_due(now) {
            table.saves(now, changes) && table.component_nonce < u64::MAX
        } else {
            changes == Seq::<StoreChange>::empty()
        },
        _ => true,
    }
}

/// The table and the store after an event.
pub open spec fn after_event(table: TableState, disk: Disk, event: Event) -> (TableState, Disk) {
    match event {
        Event::Edges(edges, now) => {
            let (after, changed, news) = processed_on(table, disk, edges, now);
            (after, changed)
        },
        Event::Routes(now) => (table.with_routes(now), disk),
        Event::Save(now, changes) => (table.with_save(now), disk.updated(changes)),
        Event::Account(announce) => (
            table.with_account(announce),
            disk.updated(seq![StoreChange::SetAnnouncement(announce)]),
        ),
        Event::Lookup(account_id) => {
            let reply = disk.announcement_reply(account_id);
            (
                table.with_lookup(account_id, reply),
                disk.updated(table.lookup_changes(account_id, reply)),
            )
        },
        Event::Route(target, now) => (table.with_route(target, now), disk),
        Event::RouteBack(hash, peer, now) => (with_route_back(table, hash, peer, now), disk),
        Event::Ping(ping) => (table.with_ping(ping), disk),
        Event::Pong(pong) => (table.with_pong(pong), disk),
        Event::SentPing(nonce, peer, now) => (table.with_sent_ping(nonce, peer, now), disk),
        Event::NextPing(peer) => (table.with_next_ping(peer), disk),
        Event::Restart => (
            TableState::fresh(table.topology.source, disk.next_component_nonce()),
            disk,
        ),
    }
}

/// The table and the store after some events, from a new table on a blank store on.
pub open spec fn after_events(source: PeerId, events: Seq<Event>) -> (TableState, Disk)
    decreases events.len(),
{
    if events.len() == 0 {
        (TableState::fresh(source, 0), Disk::blank())
    } else {
        let (table, disk) = after_events(source, events.drop_last());
        after_event(table, disk, events.last())
    }
}

/// Each event may happen when its turn comes.
pub open spec fn all_may_happen(source: PeerId, events: Seq<Event>) -> bool
    decreases events.len(),
{
    events.len() > 0 ==> {
        &&& all_may_happen(source, events.drop_last())
        &&& may_happen(after_events(source, events.drop_last()).0, events.last())
    }
}

/// Table and store are in step: the known edges and those on disk are in order, the node itself is
/// never out of reach, and the nonce of the next component comes right after the one on disk and
/// after that of every component there.
pub open spec fn in_step(table: TableState, disk: Disk) -> bool {
    &&& table.topology.valid()
    &&& table.truthful()
    &&& !table.times.contains_key(table.topology.source)
    &&& table.is_ahead_of(disk)
    &&& match disk.last_component_nonce {
        Some(nonce) => table.component_nonce == nonce + 1,
        None => table.component_nonce == 0,
    }
    &&& edges_in_order(disk)
}

/// Every edge on disk names the smaller peer first.
pub open spec fn edges_in_order(disk: Disk) -> bool {
    forall|nonce: u64, i: int|
        disk.component_edges.contains_key(nonce) && 0 <= i < disk.component_edges[nonce].len()
            ==> (#[trigger] disk.component_edges[nonce][i]).is_ordered()
}

/// A peer that comes back is another one than the node itself.
proof fn lemma_restored_others(
    table: TableState,
    nonce: u64,
    edges: Seq<Edge>,
    endpoints: Seq<(StoreReply<u64>, StoreReply<u64>)>,
    now: Time,
    n: nat,
)
    requires
        !table.times.contains_key(table.topology.source),
    ensures
        ({
            let after = table.restored(nonce, edges, endpoints, now, n).0;
            &&& after.topology.source == table.topology.source
            &&& !after.times.contains_key(after.topology.source)
        }),
    decreases n,
{
    if n > 0 {
        lemma_restored_others(table, nonce, edges, endpoints, now, (n - 1) as nat);
    }
}

proof fn lemma_touch_in_step(table: TableState, disk: Disk, peer: PeerId, now: Time)
    requires
        in_step(table, disk),
    ensures
        ({
            let (after, changed) = touched_on(table, disk, peer, now);
            in_step(after, changed)
        }),
{
    let replies = replies_of(disk, peer);
    let (after, changed) = touched_on(table, disk, peer, now);
    if let StoreReply::Found(edges) = replies.edges {
        assert forall|i: int| 0 <= i < edges.len() implies (#[trigger] edges[i]).is_ordered() by {
            let nonce = disk.peer_component[peer];
            assert(disk.component_edges[nonce][i].is_ordered());
        }
        if let StoreReply::Found(nonce) = replies.nonce {
            lemma_restored_others(table, nonce, edges, replies.endpoints, now, edges.len());
        }
    }
    law_touch_stays_truthful(table, peer, replies, now);
    law_touch_stays_ahead(table, disk, peer, now);
    assert forall|nonce: u64, i: int|
        changed.component_edges.contains_key(nonce) && 0 <= i < changed.component_edges[nonce].len()
            implies (#[trigger] changed.component_edges[nonce][i]).is_ordered() by {
        assert(disk.component_edges[nonce][i].is_ordered());
    }
}

proof fn lemma_edges_in_step(table: TableState, disk: Disk, edges: Seq<Edge>, now: Time)
    requires
        in_step(table, disk),
        forall|i: int| 0 <= i < edges.len() ==> (#[trigger] edges[i]).is_ordered(),
    ensures
        ({
            let (after, changed, news) = processed_on(table, disk, edges, now);
            in_step(after, changed)
        }),
    decreases edges.len(),
{
    if edges.len() > 0 {
        let fewer = edges.drop_last();
        assert forall|i: int| 0 <= i < fewer.len() implies (#[trigger] fewer[i]).is_ordered() by {
            assert(fewer[i] == edges[i]);
        }
        lemma_edges_in_step(table, disk, fewer, now);
        let edge = edges[edges.len() - 1];
        let (t0, d0, news) = processed_on(table, disk, fewer, now);
        let (t1, d1) = touched_on(t0, d0, edge.peer0, now);
        let (t2, d2) = touched_on(t1, d1, edge.peer1, now);
        lemma_touch_in_step(t0, d0, edge.peer0, now);
        lemma_touch_in_step(t1, d1, edge.peer1, now);
        law_edges_stay_truthful(t2, edge);
    }
}

proof fn lemma_save_in_step(table: TableState, disk: Disk, now: Time, changes: Seq<StoreChange>)
    requires
        in_step(table, disk),
        table.save_is_due(now),
        table.saves(now, changes),
        table.component_nonce < u64::MAX,
    ensures
        in_step(table.with_save(now), disk.updated(changes)),
{
    let after = table.with_save(now);
    let changed = disk.updated(changes);
    let (peers, pairs) = choose|peers: Seq<PeerId>, pairs: Seq<(PeerId, PeerId)>| #[trigger]
        table.saves_in_order(now, changes, peers, pairs);
    law_saved_is_on_disk(table, now, changes, disk, peers, pairs);
    law_restart_carries_on(table, now, changes, disk, table.topology.source);
    law_update_stays_truthful(table, now);
    assert forall|nonce: u64, i: int|
        changed.component_edges.contains_key(nonce) && 0 <= i < changed.component_edges[nonce].len()
            implies (#[trigger] changed.component_edges[nonce][i]).is_ordered() by {
        if nonce == table.component_nonce {
            assert(pairs.to_set().contains(pairs[i]));
            assert(table.edges.contains_key(pairs[i]));
        } else {
            assert(disk.component_edges[nonce][i].is_ordered());
        }
    }
}

/// One event keeps table and store in step.
proof fn lemma_event_in_step(table: TableState, disk: Disk, event: Event)
    requires
        in_step(table, disk),
        may_happen(table, event),
    ensures
        ({
            let (after, changed) = after_event(table, disk, event);
            in_step(after, changed)
        }),
{
    let (after, changed) = after_event(table, disk, event);
    match event {
        Event::Edges(edges, now) => {
            lemma_edges_in_step(table, disk, edges, now);
        },
        Event::Routes(now) => {
            law_update_stays_truthful(table, now);
            if table.topology.routes().contains_key(table.topology.source) {
                law_routes_have_hops(table.topology, table.topology.source);
            }
        },
        Event::Save(now, changes) => {
            if table.save_is_due(now) {
                lemma_save_in_step(table, disk, now, changes);
            }
        },
        Event::Account(announce) => {
            let changes = seq![StoreChange::SetAnnouncement(announce)];
            assert(changes.drop_last() =~= Seq::empty());
            assert(disk.updated(changes) == disk.updated(Seq::empty()).changed(changes.last()));
            lemma_same_edges(table, disk, after, changed);
        },
        Event::Lookup(account_id) => {
            let changes = table.lookup_changes(account_id, disk.announcement_reply(account_id));
            if changes.len() > 0 {
                assert(changes.drop_last() =~= Seq::empty());
                assert(disk.updated(changes) == disk.updated(Seq::empty()).changed(changes.last()));
            }
            lemma_same_edges(table, disk, after, changed);
        },
        Event::Restart => {
            law_fresh_table_is_truthful(table.topology.source, disk.next_component_nonce());
        },
        _ => {
            lemma_same_edges(table, disk, after, changed);
        },
    }
}

/// Only what a table knows of edges and what the disk holds of components matters.
proof fn lemma_same_edges(table: TableState, disk: Disk, after: TableState, changed: Disk)
    requires
        in_step(table, disk),
        after.topology == table.topology,
        after.edges == table.edges,
        after.times == table.times,
        after.component_nonce == table.component_nonce,
        changed.last_component_nonce == disk.last_component_nonce,
        changed.peer_component == disk.peer_component,
        changed.component_edges == disk.component_edges,
    ensures
        in_step(after, changed),
{
    assert(after.truthful());
    assert(after.is_ahead_of(changed));
}

/// After any calls the known edges are in step with the network, the node itself never counts as a
/// peer that may be out of reach, and the nonce in memory is the one after that on disk.
pub proof fn law_any_history_is_in_step(source: PeerId, events: Seq<Event>)
    requires
        all_may_happen(source, events),
    ensures
        ({
            let (table, disk) = after_events(source, events);
            in_step(table, disk)
        }),
    decreases events.len(),
{
    if events.len() == 0 {
        law_fresh_table_is_truthful(source, 0);
    } else {
        law_any_history_is_in_step(source, events.drop_last());
        let (table, disk) = after_events(source, events.drop_last());
        lemma_event_in_step(table, disk, events.last());
    }
}

/// After any calls a table that is made from the store takes up the nonce that the old one was at,
/// and no component on disk has that nonce or a later one.
pub proof fn law_restart_takes_up_the_nonce(source: PeerId, events: Seq<Event>, new_source: PeerId)
    requires
        all_may_happen(source, events),
    ensures
        ({
            let (table, disk) = after_events(source, events);
            let fresh = TableState::fresh(new_source, disk.next_component_nonce());
            fresh.component_nonce == table.component_nonce && fresh.is_ahead_of(disk)
        }),
{
    law_any_history_is_in_step(source, events);
}

/// After any calls, what is saved comes back: once a saved peer is looked for, every edge is known
/// again as it was before, the network is as it was, and that peer and every other saved peer with an
/// edge are in memory again.
pub proof fn law_saved_peers_come_back_in_any_history(
    source: PeerId,
    events: Seq<Event>,
    now: Time,
    changes: Seq<StoreChange>,
    peer: PeerId,
    later: Time,
)
    requires
        all_may_happen(source, events),
        may_happen(after_events(source, events).0, Event::Save(now, changes)),
        after_events(source, events).0.save_is_due(now),
        after_events(source, events).0.to_save(now).contains(peer),
        later - SAVE_PEERS_MAX_TIME * NANOS_PER_SECOND >= i64::MIN,
    ensures
        ({
            let (table, disk) = after_events(source, events);
            let (saved, on_disk) = after_event(table, disk, Event::Save(now, changes));
            let (after, changed) = touched_on(saved, on_disk, peer, later);
            &&& after.edges == table.edges
            &&& after.topology == table.topology
            &&& after.times.contains_key(peer)
            &&& forall|p: PeerId|
                table.to_save(now).contains(p) && #[trigger] table.has_edge(p)
                    ==> after.times.contains_key(p)
            &&& in_step(after, changed)
        }),
{
    law_any_history_is_in_step(source, events);
    let (table, disk) = after_events(source, events);
    lemma_event_in_step(table, disk, Event::Save(now, changes));
    let (saved, on_disk) = after_event(table, disk, Event::Save(now, changes));
    let (after, changed) = touched_on(saved, on_disk, peer, later);
    law_saved_peers_come_back(table, now, changes, disk, peer, later);
    lemma_touch_in_step(saved, on_disk, peer, later);
    assert forall|p: PeerId|
        table.to_save(now).contains(p) && #[trigger] table.has_edge(p) implies after.times.contains_key(
        p,
    ) by {
        assert(table.times.contains_key(p));
    }
}

/// The peers that were sent a ping since the last restart.
pub open spec fn pinged(events: Seq<Event>) -> Set<PeerId>
    decreases events.len(),
{
    if events.len() == 0 {
        Set::empty()
    } else {
        let before = pinged(events.drop_last());
        match events.last() {
            Event::SentPing(nonce, peer, now) => before.insert(peer),
            Event::Restart => Set::empty(),
            _ => before,
        }
    }
}

/// The pings to `peer` that were sent and not answered since, by nonce, each with the time when it was
/// sent last.
pub open spec fn unanswered(events: Seq<Event>, peer: PeerId) -> Map<usize, u64>
    decreases events.len(),
{
    if events.len() == 0 {
        Map::empty()
    } else {
        let before = unanswered(events.drop_last(), peer);
        match events.last() {
            Event::SentPing(nonce, target, now) => if target == peer {
                before.insert(nonce, now)
            } else {
                before
            },
            Event::Pong(pong) => if pong.source == peer {
                before.remove(pong.nonce as usize)
            } else {
                before
            },
            Event::Restart => Map::empty(),
            _ => before,
        }
    }
}

/// At no time more peers are pinged, or more pings to one peer wait, than are remembered.
pub open spec fn all_pings_have_room(events: Seq<Event>) -> bool
    decreases events.len(),
{
    events.len() > 0 ==> {
        let before = events.drop_last();
        &&& all_pings_have_room(before)
        &&& events.last() matches Event::SentPing(nonce, peer, now) ==> {
            &&& pinged(before).insert(peer).len() <= PING_PONG_CACHE_SIZE
            &&& unanswered(before, peer).len() < PENDING_PINGS_PER_PEER
        }
    }
}

/// `sent` holds these pings.
spec fn holds(sent: Seq<(usize, u64)>, pings: Map<usize, u64>) -> bool {
    &&& bounded(sent, PENDING_PINGS_PER_PEER as nat)
    &&& pings.dom().finite()
    &&& sent.len() == pings.len()
    &&& forall|n: usize| #[trigger]
        lookup(sent, n) == (if pings.contains_key(n) {
            Some(pings[n])
        } else {
            None
        })
}

/// The pings of one peer that wait are those that are not answered.
spec fn waits_for(waiting: Seq<(PeerId, (Seq<(usize, u64)>, nat))>, events: Seq<Event>, peer: PeerId) -> bool {
    match lookup(waiting, peer) {
        Some((sent, limit)) => {
            &&& pinged(events).contains(peer)
            &&& limit == PENDING_PINGS_PER_PEER
            &&& holds(sent, unanswered(events, peer))
        },
        None => {
            &&& !pinged(events).contains(peer)
            &&& unanswered(events, peer) == Map::<usize, u64>::empty()
        },
    }
}

/// The pings that wait are those that are not answered.
spec fn waits_for_all(waiting: Seq<(PeerId, (Seq<(usize, u64)>, nat))>, events: Seq<Event>) -> bool {
    &&& bounded(waiting, PING_PONG_CACHE_SIZE as nat)
    &&& pinged(events).finite()
    &&& waiting.len() == pinged(events).len()
    &&& forall|peer: PeerId| #[trigger] waits_for(waiting, events, peer)
}

proof fn lemma_restored_waiting(
    table: TableState,
    nonce: u64,
    edges: Seq<Edge>,
    endpoints: Seq<(StoreReply<u64>, StoreReply<u64>)>,
    now: Time,
    n: nat,
)
    ensures
        table.restored(nonce, edges, endpoints, now, n).0.waiting == table.waiting,
    decreases n,
{
    if n > 0 {
        lemma_restored_waiting(table, nonce, edges, endpoints, now, (n - 1) as nat);
    }
}

proof fn lemma_processed_waiting(table: TableState, disk: Disk, edges: Seq<Edge>, now: Time)
    ensures
        processed_on(table, disk, edges, now).0.waiting == table.waiting,
    decreases edges.len(),
{
    if edges.len() > 0 {
        let edge = edges.last();
        lemma_processed_waiting(table, disk, edges.drop_last(), now);
        let (t0, d0, news) = processed_on(table, disk, edges.drop_last(), now);
        lemma_touched_waiting(t0, d0, edge.peer0, now);
        let (t1, d1) = touched_on(t0, d0, edge.peer0, now);
        lemma_touched_waiting(t1, d1, edge.peer1, now);
    }
}

proof fn lemma_touched_waiting(table: TableState, disk: Disk, peer: PeerId, now: Time)
    ensures
        touched_on(table, disk, peer, now).0.waiting == table.waiting,
{
    let replies = replies_of(disk, peer);
    if let StoreReply::Found(nonce) = replies.nonce {
        if let StoreReply::Found(edges) = replies.edges {
            lemma_restored_waiting(table, nonce, edges, replies.endpoints, now, edges.len());
        }
    }
}

/// A pong takes one ping off the list.
proof fn lemma_answered(table: TableState, events: Seq<Event>, pong: Pong)
    requires
        waits_for_all(table.waiting, events),
    ensures
        waits_for_all(table.with_pong(pong).waiting, events.push(Event::Pong(pong))),
{
    let all = events.push(Event::Pong(pong));
    assert(all.drop_last() =~= events);
    let after = table.with_pong(pong).waiting;
    let nonce = pong.nonce as usize;
    assert(waits_for(table.waiting, events, pong.source));
    match lookup(table.waiting, pong.source) {
        Some((sent, limit)) => {
            lemma_deleted(sent, nonce);
            lemma_touched_update(table.waiting, pong.source, (deleted(sent, nonce), limit));
            let before = unanswered(events, pong.source);
            let less = deleted(sent, nonce);
            assert(has_key(sent, nonce) <==> lookup(sent, nonce) is Some);
            assert(unanswered(all, pong.source) == before.remove(nonce));
            assert(less.len() == before.remove(nonce).len()) by {
                if !before.contains_key(nonce) {
                    assert(before.remove(nonce) =~= before);
                }
            }
            assert(holds(less, before.remove(nonce)));
        },
        None => {
            assert(Map::<usize, u64>::empty().remove(nonce) =~= Map::empty());
        },
    }
    assert forall|p: PeerId| #[trigger] waits_for(after, all, p) by {
        assert(waits_for(table.waiting, events, p));
    }
}

/// A ping that is sent goes on the list.
proof fn lemma_sent(table: TableState, events: Seq<Event>, nonce: usize, peer: PeerId, now: u64)
    requires
        waits_for_all(table.waiting, events),
        pinged(events).insert(peer).len() <= PING_PONG_CACHE_SIZE,
        unanswered(events, peer).len() < PENDING_PINGS_PER_PEER,
    ensures
        waits_for_all(
            table.with_sent_ping(nonce, peer, now).waiting,
            events.push(Event::SentPing(nonce, peer, now)),
        ),
{
    let all = events.push(Event::SentPing(nonce, peer, now));
    assert(all.drop_last() =~= events);
    let limit = PENDING_PINGS_PER_PEER as nat;
    let none = Seq::<(usize, u64)>::empty();
    assert(waits_for(table.waiting, events, peer));
    assert(has_key(table.waiting, peer) <==> lookup(table.waiting, peer) is Some);
    if !has_key(table.waiting, peer) {
        assert(table.waiting.len() < PING_PONG_CACHE_SIZE);
        lemma_stored(table.waiting, PING_PONG_CACHE_SIZE as nat, peer, (none, limit));
    } else {
        assert(pinged(events).insert(peer) =~= pinged(events));
    }
    let waiting = table.waiting_for(peer);
    let (sent, at_most) = lookup(waiting, peer).unwrap();
    let before = unanswered(events, peer);
    assert(has_key(waiting, peer));
    assert(holds(sent, before)) by {
        if !has_key(table.waiting, peer) {
            assert(sent == none);
            assert forall|n: usize| #[trigger] lookup(none, n) is None by {}
        }
    }
    lemma_stored(sent, limit, nonce, now);
    let more = stored(sent, limit, nonce, now);
    lemma_touched_update(waiting, peer, (more, limit));
    assert(has_key(sent, nonce) <==> lookup(sent, nonce) is Some);
    assert(evicted(sent, limit) == sent);
    assert(more.len() == before.insert(nonce, now).len()) by {
        if before.contains_key(nonce) {
            assert(before.insert(nonce, now).dom() =~= before.dom());
        }
    }
    assert forall|n: usize| #[trigger] lookup(more, n) == (if before.insert(
        nonce,
        now,
    ).contains_key(n) {
        Some(before.insert(nonce, now)[n])
    } else {
        None
    }) by {
        if n != nonce {
            assert(lookup(more, n) == lookup(evicted(sent, limit), n));
        }
    }
    assert(holds(more, before.insert(nonce, now)));
    let after = table.with_sent_ping(nonce, peer, now).waiting;
    assert(after == touched(waiting, peer).update(0, (peer, (more, limit))));
    assert forall|p: PeerId| #[trigger] waits_for(after, all, p) by {
        assert(waits_for(table.waiting, events, p));
        if p != peer {
            assert(lookup(after, p) == lookup(waiting, p));
            if !has_key(table.waiting, peer) {
                assert(evicted(table.waiting, PING_PONG_CACHE_SIZE as nat) == table.waiting);
                assert(lookup(waiting, p) == lookup(table.waiting, p));
            }
        }
    }
}

proof fn lemma_history_waits(source: PeerId, events: Seq<Event>)
    requires
        all_pings_have_room(events),
    ensures
        waits_for_all(after_events(source, events).0.waiting, events),
    decreases events.len(),
{
    if events.len() == 0 {
        let none = Seq::<(PeerId, (Seq<(usize, u64)>, nat))>::empty();
        assert forall|p: PeerId| #[trigger] waits_for(none, events, p) by {}
    } else {
        let fewer = events.drop_last();
        let event = events.last();
        lemma_history_waits(source, fewer);
        let (table, disk) = after_events(source, fewer);
        let (after, changed) = after_events(source, events);
        assert(fewer.push(event) =~= events);
        match event {
            Event::SentPing(nonce, peer, now) => {
                lemma_sent(table, fewer, nonce, peer, now);
            },
            Event::Pong(pong) => {
                lemma_answered(table, fewer, pong);
            },
            Event::Restart => {
                assert forall|p: PeerId| #[trigger] waits_for(after.waiting, events, p) by {}
            },
            _ => {
                if let Event::Edges(edges, now) = event {
                    lemma_processed_waiting(table, disk, edges, now);
                }
                assert(after.waiting == table.waiting);
                assert forall|p: PeerId| #[trigger] waits_for(after.waiting, events, p) by {
                    assert(waits_for(table.waiting, fewer, p));
                }
            },
        }
    }
}

/// After any calls the pings that wait are exactly those that were sent and not answered since, each
/// with the time when it was sent, as long as there was room for them. So a pong tells a time exactly
/// if its ping waits.
pub proof fn law_waiting_pings_are_the_unanswered(
    source: PeerId,
    events: Seq<Event>,
    peer: PeerId,
    nonce: usize,
)
    requires
        all_pings_have_room(events),
    ensures
        after_events(source, events).0.sent_at(peer, nonce) == (if unanswered(
            events,
            peer,
        ).contains_key(nonce) {
            Some(unanswered(events, peer)[nonce])
        } else {
            None
        }),
{
    lemma_history_waits(source, events);
    let waiting = after_events(source, events).0.waiting;
    assert(waits_for(waiting, events, peer));
    if let Some((sent, limit)) = lookup(waiting, peer) {
        assert(holds(sent, unanswered(events, peer)));
    }
}

} // verus!
