//! Moving peers to disk and back.
use crate::clock::{whole_seconds, NANOS_PER_SECOND};
use crate::sequences::lemma_push_contains;
use crate::state::{
    replies_of, touched_on, TableState, SAVE_PEERS_AFTER_TIME, SAVE_PEERS_MAX_TIME,
};
use crate::store::{Disk, StoreChange, StoreReply};
use crate::types::{Edge, PeerId, Time};
use vstd::prelude::*;

verus! {

/// Nothing goes to disk unless some peer was out of reach for long enough. If one was, exactly the
/// peers go that were out of reach for the shorter time, and exactly the edges that have such a peer
/// at one end. The links of the network and the routes stay.
pub proof fn law_save_takes_the_silent(table: TableState, now: Time, peer: PeerId, pair: (PeerId, PeerId))
    ensures
        ({
            let after = table.with_save(now);
            let silent = |p: PeerId|
                table.times.contains_key(p) && table.silence(p, now) >= SAVE_PEERS_AFTER_TIME;
            &&& !table.save_is_due(now) ==> after == table
            &&& table.save_is_due(now) ==> {
                &&& after.times.contains_key(peer) <==> table.times.contains_key(peer) && !silent(peer)
                &&& after.edges.contains_key(pair) <==> table.edges.contains_key(pair) && !silent(pair.0)
                    && !silent(pair.1)
            }
            &&& after.times.contains_key(peer) ==> after.times[peer] == table.times[peer]
            &&& after.edges.contains_key(pair) ==> after.edges[pair] == table.edges[pair]
            &&& after.topology == table.topology
            &&& after.forwarding == table.forwarding
        }),
{
}

/// Seconds that are over, and the nanoseconds that they take.
proof fn lemma_seconds(nanos: int)
    ensures
        whole_seconds(nanos) >= SAVE_PEERS_MAX_TIME <==> nanos >= 7_200_000_000_000,
        whole_seconds(nanos) >= SAVE_PEERS_AFTER_TIME <==> nanos >= 3_600_000_000_000,
{
}

/// Some peer was last within reach at least two hours ago.
pub open spec fn long_silent(table: TableState, now: Time) -> bool {
    exists|p: PeerId| #[trigger]
        table.times.contains_key(p) && now - table.times[p] >= 7_200_000_000_000
}

/// The peer was last within reach at least one hour ago.
pub open spec fn silent(table: TableState, now: Time, p: PeerId) -> bool {
    table.times.contains_key(p) && now - table.times[p] >= 3_600_000_000_000
}

/// Peers are saved exactly if some peer was out of reach for two hours or more. Then those leave memory
/// that were out of reach for an hour or more, and the edges with such a peer at an end, and nothing
/// else does. The next component gets the next nonce.
pub proof fn law_save_in_hours(table: TableState, now: Time)
    requires
        table.component_nonce < u64::MAX,
    ensures
        table.save_is_due(now) <==> long_silent(table, now),
        ({
            let after = table.with_save(now);
            if long_silent(table, now) {
                &&& forall|p: PeerId| #[trigger]
                    after.times.contains_key(p) <==> table.times.contains_key(p) && !silent(
                        table,
                        now,
                        p,
                    )
                &&& forall|p: PeerId| #[trigger]
                    after.times.contains_key(p) ==> after.times[p] == table.times[p]
                &&& forall|pair: (PeerId, PeerId)| #[trigger]
                    after.edges.contains_key(pair) <==> table.edges.contains_key(pair) && !silent(
                        table,
                        now,
                        pair.0,
                    ) && !silent(table, now, pair.1)
                &&& forall|pair: (PeerId, PeerId)| #[trigger]
                    after.edges.contains_key(pair) ==> after.edges[pair] == table.edges[pair]
                &&& after.component_nonce == table.component_nonce + 1
            } else {
                after == table
            }
        }),
{
    assert forall|p: PeerId| #[trigger] table.times.contains_key(p) implies (table.silence(p, now)
        >= SAVE_PEERS_MAX_TIME <==> now - table.times[p] >= 7_200_000_000_000) && (table.silence(
        p,
        now,
    ) >= SAVE_PEERS_AFTER_TIME <==> now - table.times[p] >= 3_600_000_000_000) by {
        lemma_seconds(now - table.times[p]);
    }
    assert forall|p: PeerId| #[trigger] table.to_save(now).contains(p) <==> silent(
        table,
        now,
        p,
    ) by {
        if table.times.contains_key(p) {
            lemma_seconds(now - table.times[p]);
        }
    }
    if long_silent(table, now) {
        let p = choose|p: PeerId| #[trigger]
            table.times.contains_key(p) && now - table.times[p] >= 7_200_000_000_000;
        assert(table.times.contains_key(p) && table.silence(p, now) >= SAVE_PEERS_MAX_TIME);
    }
}

/// Saving that is due stays due as time goes on, until it is done. Right after it is done it is not
/// due.
pub proof fn law_save_stays_due(table: TableState, now: Time, later: Time)
    requires
        table.component_nonce < u64::MAX,
        now <= later,
    ensures
        table.save_is_due(now) ==> table.save_is_due(later),
        !table.with_save(now).save_is_due(now),
{
    law_save_in_hours(table, now);
    let after = table.with_save(now);
    if table.save_is_due(now) {
        let p = choose|p: PeerId| #[trigger]
            table.times.contains_key(p) && now - table.times[p] >= 7_200_000_000_000;
        assert(table.times.contains_key(p) && later - table.times[p] >= 7_200_000_000_000);
        lemma_seconds(later - table.times[p]);
        assert(table.silence(p, later) >= SAVE_PEERS_MAX_TIME);
    }
    if after.save_is_due(now) {
        let p = choose|p: PeerId| #[trigger]
            after.times.contains_key(p) && after.silence(p, now) >= SAVE_PEERS_MAX_TIME;
        lemma_seconds(now - after.times[p]);
        assert(table.times.contains_key(p));
    }
}

/// What is written when peers are saved puts exactly these peers and edges on disk: each of the peers
/// under the nonce of the component, and under that nonce the edges that leave memory, each once.
pub proof fn law_saved_in_hours_is_on_disk(
    table: TableState,
    now: Time,
    changes: Seq<StoreChange>,
    disk: Disk,
)
    requires
        forall|pair: (PeerId, PeerId)| #[trigger]
            table.edges.contains_key(pair) ==> (table.edges[pair].peer0, table.edges[pair].peer1)
                == pair,
        table.component_nonce < u64::MAX,
        table.saves(now, changes),
    ensures
        ({
            let after = disk.updated(changes);
            let nonce = table.component_nonce;
            &&& after.last_component_nonce == Some(nonce)
            &&& after.announcements == disk.announcements
            &&& forall|p: PeerId| #[trigger]
                after.peer_component.contains_key(p) <==> disk.peer_component.contains_key(p)
                    || silent(table, now, p)
            &&& forall|p: PeerId| #[trigger]
                after.peer_component.contains_key(p) ==> after.peer_component[p] == (if silent(
                    table,
                    now,
                    p,
                ) {
                    nonce
                } else {
                    disk.peer_component[p]
                })
            &&& after.component_edges.contains_key(nonce)
            &&& after.component_edges[nonce].no_duplicates()
            &&& forall|e: Edge| #[trigger]
                after.component_edges[nonce].contains(e) <==> table.edges.contains_key(e.pair())
                    && table.edges[e.pair()] == e && (silent(table, now, e.peer0) || silent(
                    table,
                    now,
                    e.peer1,
                ))
            &&& forall|n: u64|
                n != nonce ==> (#[trigger] after.component_edges.contains_key(n)
                    <==> disk.component_edges.contains_key(n))
            &&& forall|n: u64|
                n != nonce && #[trigger] after.component_edges.contains_key(n)
                    ==> after.component_edges[n] == disk.component_edges[n]
        }),
{
    let (peers, pairs) = choose|peers: Seq<PeerId>, pairs: Seq<(PeerId, PeerId)>| #[trigger]
        table.saves_in_order(now, changes, peers, pairs);
    law_saved_is_on_disk(table, now, changes, disk, peers, pairs);
    let gone = table.to_save(now);
    assert forall|p: PeerId| #[trigger] gone.contains(p) <==> silent(table, now, p) by {
        if table.times.contains_key(p) {
            lemma_seconds(now - table.times[p]);
        }
    }
    let nonce = table.component_nonce;
    let edges = disk.updated(changes).component_edges[nonce];
    assert forall|pair: (PeerId, PeerId)| #[trigger] pairs.contains(pair) <==> table.edges_at(
        gone,
    ).contains_key(pair) by {
        assert(pairs.to_set().contains(pair) <==> table.edges_at(gone).dom().contains(pair));
    }
    assert forall|i: int| 0 <= i < pairs.len() implies (#[trigger] edges[i]).pair() == pairs[i] by {
        assert(pairs.contains(pairs[i]));
        assert(table.edges.contains_key(pairs[i]));
    }
    assert forall|e: Edge| #[trigger] edges.contains(e) <==> table.edges.contains_key(e.pair())
        && table.edges[e.pair()] == e && (silent(table, now, e.peer0) || silent(
        table,
        now,
        e.peer1,
    )) by {
        if edges.contains(e) {
            let i = choose|i: int| 0 <= i < edges.len() && edges[i] == e;
            assert(edges[i].pair() == pairs[i]);
            assert(pairs.contains(pairs[i]));
        }
        if table.edges.contains_key(e.pair()) && table.edges[e.pair()] == e && (silent(
            table,
            now,
            e.peer0,
        ) || silent(table, now, e.peer1)) {
            assert(pairs.contains(e.pair()));
            let i = choose|i: int| 0 <= i < pairs.len() && pairs[i] == e.pair();
            assert(edges[i] == e);
        }
    }
    assert forall|i: int, j: int|
        0 <= i < edges.len() && 0 <= j < edges.len() && i != j implies edges[i] != edges[j] by {
        assert(edges[i].pair() == pairs[i]);
        assert(edges[j].pair() == pairs[j]);
    }
}

/// The node itself never goes to disk. So an edge of its own stays in memory as long as the peer at
/// its other end does.
pub proof fn law_own_edges_stay(table: TableState, now: Time, pair: (PeerId, PeerId))
    requires
        table.valid(),
        table.edges.contains_key(pair),
        pair.0 == table.topology.source ==> !table.to_save(now).contains(pair.1),
        pair.1 == table.topology.source ==> !table.to_save(now).contains(pair.0),
        pair.0 == table.topology.source || pair.1 == table.topology.source,
    ensures
        !table.to_save(now).contains(table.topology.source),
        table.with_save(now).edges.contains_key(pair),
        table.with_save(now).edges[pair] == table.edges[pair],
{
}

/// Peers that an update found within reach do not go to disk, unless it takes too long to get
/// there.
pub proof fn law_reachable_peers_stay(table: TableState, now: Time, save_time: Time, peer: PeerId)
    requires
        whole_seconds(save_time - now) < SAVE_PEERS_AFTER_TIME,
        table.topology.routes().contains_key(peer),
    ensures
        table.with_routes(now).with_save(save_time).times.contains_key(peer),
        table.with_routes(now).with_save(save_time).times[peer] == now,
{
    let updated = table.with_routes(now);
    assert(updated.times.contains_key(peer));
    assert(updated.times[peer] == now);
    assert(!updated.to_save(save_time).contains(peer));
}

/// Updates that are committed one after the other are one update.
proof fn lemma_updated_append(disk: Disk, a: Seq<StoreChange>, b: Seq<StoreChange>)
    ensures
        disk.updated(a + b) == disk.updated(a).updated(b),
    decreases b.len(),
{
    if b.len() == 0 {
        assert(a + b =~= a);
    } else {
        assert((a + b).drop_last() =~= a + b.drop_last());
        lemma_updated_append(disk, a, b.drop_last());
    }
}

proof fn lemma_peers_stored(disk: Disk, nonce: u64, peers: Seq<PeerId>)
    ensures
        ({
            let changes = Seq::new(
                peers.len(),
                |i: int| StoreChange::SetPeerComponent(peers[i], nonce),
            );
            let after = disk.updated(changes);
            &&& after.last_component_nonce == disk.last_component_nonce
            &&& after.component_edges == disk.component_edges
            &&& after.announcements == disk.announcements
            &&& forall|p: PeerId| #[trigger]
                after.peer_component.contains_key(p) <==> disk.peer_component.contains_key(p)
                    || peers.contains(p)
            &&& forall|p: PeerId| #[trigger]
                after.peer_component.contains_key(p) ==> after.peer_component[p] == (
                if peers.contains(p) {
                    nonce
                } else {
                    disk.peer_component[p]
                })
        }),
    decreases peers.len(),
{
    let changes = Seq::new(peers.len(), |i: int| StoreChange::SetPeerComponent(peers[i], nonce));
    if peers.len() > 0 {
        let rest = peers.drop_last();
        let last = peers.last();
        lemma_peers_stored(disk, nonce, rest);
        assert(changes.drop_last() =~= Seq::new(
            rest.len(),
            |i: int| StoreChange::SetPeerComponent(rest[i], nonce),
        ));
        assert(peers =~= rest.push(last));
        assert forall|p: PeerId| #[trigger] peers.contains(p) <==> rest.contains(p) || p == last by {
            lemma_push_contains(rest, last, p);
        }
    }
}

/// The disk after peers were saved: it holds the nonce of the component, the component of each
/// saved peer, and the edges that left memory. The rest of it is as before.
pub proof fn law_saved_is_on_disk(
    table: TableState,
    now: Time,
    changes: Seq<StoreChange>,
    disk: Disk,
    peers: Seq<PeerId>,
    pairs: Seq<(PeerId, PeerId)>,
)
    requires
        table.saves_in_order(now, changes, peers, pairs),
    ensures
        ({
            let after = disk.updated(changes);
            let gone = table.to_save(now);
            &&& after.last_component_nonce == Some(table.component_nonce)
            &&& forall|p: PeerId| #[trigger]
                after.peer_component.contains_key(p) <==> disk.peer_component.contains_key(p)
                    || gone.contains(p)
            &&& forall|p: PeerId| #[trigger]
                after.peer_component.contains_key(p) ==> after.peer_component[p] == (
                if gone.contains(p) {
                    table.component_nonce
                } else {
                    disk.peer_component[p]
                })
            &&& after.component_edges == disk.component_edges.insert(
                table.component_nonce,
                Seq::new(pairs.len(), |i: int| table.edges[pairs[i]]),
            )
            &&& after.announcements == disk.announcements
        }),
{
    let nonce = table.component_nonce;
    let edges = Seq::new(pairs.len(), |i: int| table.edges[pairs[i]]);
    let head = seq![StoreChange::SetLastComponentNonce(nonce)];
    let middle = Seq::new(peers.len(), |i: int| StoreChange::SetPeerComponent(peers[i], nonce));
    let tail = seq![StoreChange::SetComponentEdges(nonce, edges)];
    assert(changes == head + middle + tail);
    lemma_updated_append(disk, head + middle, tail);
    lemma_updated_append(disk, head, middle);
    let d1 = disk.updated(head);
    assert(head.drop_last() =~= Seq::empty());
    assert(d1 == disk.updated(Seq::empty()).changed(StoreChange::SetLastComponentNonce(nonce)));
    lemma_peers_stored(d1, nonce, peers);
    let d2 = d1.updated(middle);
    assert(tail.drop_last() =~= Seq::empty());
    assert(d2.updated(tail) == d2.updated(Seq::empty()).changed(tail.last()));
    assert forall|p: PeerId| #[trigger] peers.contains(p) <==> table.to_save(now).contains(p) by {
        assert(peers.to_set().contains(p) <==> table.to_save(now).contains(p));
    }
    assert(disk.updated(changes).component_edges =~= disk.component_edges.insert(nonce, edges));
}

/// The nonce on disk is always behind the one in memory, and a table that starts from the disk
/// carries on where the one before was.
pub proof fn law_restart_carries_on(
    table: TableState,
    now: Time,
    changes: Seq<StoreChange>,
    disk: Disk,
    source: PeerId,
)
    requires
        table.save_is_due(now),
        table.saves(now, changes),
        table.component_nonce < u64::MAX,
        table.is_ahead_of(disk),
    ensures
        table.with_save(now).is_ahead_of(disk.updated(changes)),
        disk.updated(changes).last_component_nonce matches Some(nonce) && TableState::fresh(
            source,
            (nonce + 1) as u64,
        ).component_nonce == table.with_save(now).component_nonce,
{
    let (peers, pairs) = choose|peers: Seq<PeerId>, pairs: Seq<(PeerId, PeerId)>| #[trigger]
        table.saves_in_order(now, changes, peers, pairs);
    law_saved_is_on_disk(table, now, changes, disk, peers, pairs);
}

/// `peer` is at an end of one of the first `n` edges.
spec fn at_end(pairs: Seq<(PeerId, PeerId)>, n: nat, peer: PeerId) -> bool {
    exists|i: int| 0 <= i < n && ((#[trigger] pairs[i]).0 == peer || pairs[i].1 == peer)
}

proof fn lemma_at_end_step(pairs: Seq<(PeerId, PeerId)>, n: nat, peer: PeerId)
    requires
        n < pairs.len(),
    ensures
        at_end(pairs, n + 1, peer) <==> at_end(pairs, n, peer) || pairs[n as int].0 == peer
            || pairs[n as int].1 == peer,
{
    if at_end(pairs, n + 1, peer) {
        let i = choose|i: int|
            0 <= i < n + 1 && ((#[trigger] pairs[i]).0 == peer || pairs[i].1 == peer);
        if i < n {
            assert(at_end(pairs, n, peer));
        }
    }
    if at_end(pairs, n, peer) {
        let i = choose|i: int| 0 <= i < n && ((#[trigger] pairs[i]).0 == peer || pairs[i].1 == peer);
        assert(0 <= i < n + 1 && (pairs[i].0 == peer || pairs[i].1 == peer));
    }
    assert(pairs[n as int] == pairs[n as int]);
}

/// The state of memory and disk after some edges of a component came back.
spec fn back_so_far(
    table: TableState,
    now: Time,
    pairs: Seq<(PeerId, PeerId)>,
    n: nat,
    later: Time,
    saved: Disk,
    state: TableState,
    disk: Disk,
) -> bool {
    let start = table.with_save(now);
    let gone = table.to_save(now);
    let source = table.topology.source;
    &&& state.topology == table.topology
    &&& forall|pair: (PeerId, PeerId)| #[trigger]
        state.edges.contains_key(pair) <==> start.edges.contains_key(pair) || pairs.take(
            n as int,
        ).contains(pair)
    &&& forall|pair: (PeerId, PeerId)| #[trigger]
        state.edges.contains_key(pair) ==> state.edges[pair] == table.edges[pair]
    &&& forall|p: PeerId| #[trigger]
        state.times.contains_key(p) <==> start.times.contains_key(p) || (gone.contains(p) && p
            != source && at_end(pairs, n, p))
    &&& forall|p: PeerId| #[trigger]
        state.times.contains_key(p) ==> state.times[p] == (if start.times.contains_key(p) {
            start.times[p]
        } else {
            (later - SAVE_PEERS_MAX_TIME * NANOS_PER_SECOND) as Time
        })
    &&& disk.component_edges == saved.component_edges.remove(table.component_nonce)
    &&& forall|p: PeerId| #[trigger]
        disk.peer_component.contains_key(p) <==> saved.peer_component.contains_key(p) && !(
        gone.contains(p) && p != source && at_end(pairs, n, p))
    &&& forall|p: PeerId| #[trigger]
        disk.peer_component.contains_key(p) ==> disk.peer_component[p] == saved.peer_component[p]
    &&& disk.last_component_nonce == saved.last_component_nonce
    &&& disk.announcements == saved.announcements
    &&& state == (TableState { edges: state.edges, times: state.times, ..start })
}

/// A change that takes something off the disk.
spec fn is_deletion(change: StoreChange) -> bool {
    change is DeletePeerComponent || change is DeleteComponentEdges
}

proof fn lemma_deletions(disk: Disk, changes: Seq<StoreChange>)
    requires
        forall|i: int| 0 <= i < changes.len() ==> is_deletion(#[trigger] changes[i]),
    ensures
        forall|p: PeerId| #[trigger]
            disk.updated(changes).peer_component.contains_key(p)
                ==> disk.peer_component.contains_key(p) && disk.updated(changes).peer_component[p]
                == disk.peer_component[p],
        forall|n: u64| #[trigger]
            disk.updated(changes).component_edges.contains_key(n)
                ==> disk.component_edges.contains_key(n) && disk.updated(changes).component_edges[n]
                == disk.component_edges[n],
        disk.updated(changes).last_component_nonce == disk.last_component_nonce,
        disk.updated(changes).announcements == disk.announcements,
    decreases changes.len(),
{
    if changes.len() > 0 {
        let fewer = changes.drop_last();
        assert forall|i: int| 0 <= i < fewer.len() implies is_deletion(#[trigger] fewer[i]) by {
            assert(fewer[i] == changes[i]);
        }
        lemma_deletions(disk, fewer);
        assert(is_deletion(changes[changes.len() - 1]));
        let before = disk.updated(fewer);
        assert(disk.updated(changes) == before.changed(changes.last()));
        assert forall|p: PeerId| #[trigger]
            disk.updated(changes).peer_component.contains_key(p) implies
            disk.peer_component.contains_key(p) && disk.updated(changes).peer_component[p]
            == disk.peer_component[p] by {
            assert(before.peer_component.contains_key(p));
        }
        assert forall|n: u64| #[trigger]
            disk.updated(changes).component_edges.contains_key(n) implies
            disk.component_edges.contains_key(n) && disk.updated(changes).component_edges[n]
            == disk.component_edges[n] by {
            assert(before.component_edges.contains_key(n));
        }
    }
}

proof fn lemma_restored_deletes(
    table: TableState,
    nonce: u64,
    edges: Seq<Edge>,
    endpoints: Seq<(StoreReply<u64>, StoreReply<u64>)>,
    now: Time,
    n: nat,
)
    ensures
        ({
            let (after, taken) = table.restored(nonce, edges, endpoints, now, n);
            &&& after.component_nonce == table.component_nonce
            &&& forall|i: int| 0 <= i < taken.len() ==> is_deletion(#[trigger] taken[i])
        }),
    decreases n,
{
    if n > 0 {
        lemma_restored_deletes(table, nonce, edges, endpoints, now, (n - 1) as nat);
    }
}

/// Looking for a peer only takes peers and components off the disk, so that the nonce in memory stays
/// ahead.
pub proof fn law_touch_stays_ahead(table: TableState, disk: Disk, peer: PeerId, now: Time)
    requires
        table.is_ahead_of(disk),
    ensures
        ({
            let (after, changed) = touched_on(table, disk, peer, now);
            &&& after.is_ahead_of(changed)
            &&& after.component_nonce == table.component_nonce
            &&& changed.last_component_nonce == disk.last_component_nonce
            &&& changed.announcements == disk.announcements
            &&& forall|n: u64| #[trigger]
                changed.component_edges.contains_key(n) ==> disk.component_edges.contains_key(n)
                    && changed.component_edges[n] == disk.component_edges[n]
        }),
{
    let replies = replies_of(disk, peer);
    let (after, taken) = table.with_touch(peer, replies, now);
    if let StoreReply::Found(nonce) = replies.nonce {
        if let StoreReply::Found(edges) = replies.edges {
            lemma_restored_deletes(table, nonce, edges, replies.endpoints, now, edges.len());
        }
    }
    assert forall|i: int| 0 <= i < taken.len() implies is_deletion(#[trigger] taken[i]) by {}
    lemma_deletions(disk, taken);
}

/// One end of an edge comes back.
proof fn lemma_peer_back(
    state: TableState,
    disk: Disk,
    saved: Disk,
    peer: PeerId,
    nonce: u64,
    later: Time,
)
    ensures
        ({
            let reply = saved.peer_component_reply(peer);
            let back = state.comes_back(peer, reply, nonce);
            let after = state.with_peer_back(peer, reply, nonce, later);
            let changed = disk.updated(state.back_changes(peer, reply, nonce));
            &&& back <==> state.is_untouched(peer) && saved.peer_component.contains_key(peer)
                && saved.peer_component[peer] == nonce
            &&& after == (if back {
                state.with_time(peer, (later - SAVE_PEERS_MAX_TIME * NANOS_PER_SECOND) as Time)
            } else {
                state
            })
            &&& changed == (if back {
                Disk { peer_component: disk.peer_component.remove(peer), ..disk }
            } else {
                disk
            })
        }),
{
    let reply = saved.peer_component_reply(peer);
    let changes = state.back_changes(peer, reply, nonce);
    if state.comes_back(peer, reply, nonce) {
        assert(changes.drop_last() =~= Seq::empty());
        assert(disk.updated(changes) == disk.updated(Seq::empty()).changed(changes.last()));
    }
}

proof fn lemma_restored(
    table: TableState,
    now: Time,
    peers: Seq<PeerId>,
    pairs: Seq<(PeerId, PeerId)>,
    disk: Disk,
    changes: Seq<StoreChange>,
    later: Time,
    n: nat,
)
    requires
        table.truthful(),
        table.save_is_due(now),
        table.saves_in_order(now, changes, peers, pairs),
        table.is_ahead_of(disk),
        n <= pairs.len(),
    ensures
        ({
            let saved = disk.updated(changes);
            let edges = Seq::new(pairs.len(), |i: int| table.edges[pairs[i]]);
            let endpoints = Seq::new(
                edges.len(),
                |i: int| (
                    saved.peer_component_reply(edges[i].peer0),
                    saved.peer_component_reply(edges[i].peer1),
                ),
            );
            let (state, taken) = table.with_save(now).restored(
                table.component_nonce,
                edges,
                endpoints,
                later,
                n,
            );
            back_so_far(table, now, pairs, n, later, saved, state, saved.updated(taken))
        }),
    decreases n,
{
    let start = table.with_save(now);
    let gone = table.to_save(now);
    let nonce = table.component_nonce;
    let saved = disk.updated(changes);
    let edges = Seq::new(pairs.len(), |i: int| table.edges[pairs[i]]);
    let endpoints = Seq::new(
        edges.len(),
        |i: int| (
            saved.peer_component_reply(edges[i].peer0),
            saved.peer_component_reply(edges[i].peer1),
        ),
    );
    law_saved_is_on_disk(table, now, changes, disk, peers, pairs);
    let (state, taken) = start.restored(nonce, edges, endpoints, later, n);
    if n == 0 {
        assert(taken.drop_last() =~= Seq::empty());
        assert(saved.updated(taken) == saved.updated(Seq::empty()).changed(taken.last()));
        assert(pairs.take(0) =~= Seq::empty());
        assert forall|p: PeerId| !at_end(pairs, 0, p) by {}
        assert forall|pair: (PeerId, PeerId)| !(#[trigger] pairs.take(0).contains(pair)) by {}
    } else {
        let m = (n - 1) as nat;
        lemma_restored(table, now, peers, pairs, disk, changes, later, m);
        let (s0, before) = start.restored(nonce, edges, endpoints, later, m);
        let d0 = saved.updated(before);
        assert(back_so_far(table, now, pairs, m, later, saved, s0, d0));
        let pair = pairs[m as int];
        let edge = edges[m as int];
        assert(pairs.to_set().contains(pairs[m as int]));
        assert(table.edges.contains_key(pair));
        assert(edge.pair() == pair);
        assert(edge.is_ordered());
        let (c0, c1) = endpoints[m as int];
        let s1 = s0.with_peer_back(edge.peer0, c0, nonce, later);
        let s2 = s1.with_peer_back(edge.peer1, c1, nonce, later);
        let b0 = s0.back_changes(edge.peer0, c0, nonce);
        let b1 = s1.back_changes(edge.peer1, c1, nonce);
        lemma_updated_append(saved, before + b0, b1);
        lemma_updated_append(saved, before, b0);
        let d1 = d0.updated(b0);
        let d2 = d1.updated(b1);
        assert(saved.updated(taken) == d2);
        lemma_peer_back(s0, d0, saved, edge.peer0, nonce, later);
        lemma_peer_back(s1, d1, saved, edge.peer1, nonce, later);
        assert forall|p: PeerId| #[trigger] at_end(pairs, n, p) <==> at_end(pairs, m, p) || p
            == edge.peer0 || p == edge.peer1 by {
            lemma_at_end_step(pairs, m, p);
        }
        assert forall|p: PeerId| #[trigger] gone.contains(p) implies !start.times.contains_key(p) by {}
        // The edge is news, and the network has its link already.
        assert(pairs.take(n as int) =~= pairs.take(m as int).push(pair));
        assert forall|q: (PeerId, PeerId)| #[trigger] pairs.take(n as int).contains(q)
            <==> pairs.take(m as int).contains(q) || q == pair by {
            lemma_push_contains(pairs.take(m as int), pair, q);
        }
        assert(!pairs.take(m as int).contains(pair)) by {
            if pairs.take(m as int).contains(pair) {
                let i = choose|i: int| 0 <= i < m && pairs.take(m as int)[i] == pair;
                assert(pairs[i] == pairs[m as int]);
            }
        }
        assert(table.edges_at(gone).dom().contains(pair));
        assert(!start.edges.contains_key(pair));
        assert(!s0.edges.contains_key(pair));
        assert(s2.is_news(edge));
        assert(s2.topology == table.topology);
        assert(state.topology == table.topology);
        assert(state.edges == s0.edges.insert(pair, edge));
    }
}

/// What went to disk comes back: once one of the saved peers is looked for, every saved edge is
/// known again as it was, and the network is as it was. The peer that is looked for and each saved peer
/// with an edge count as last seen as long ago as a peer may be out of reach at most. The component is
/// off the disk then, and so are the peers that came back.
pub proof fn law_saved_peers_come_back(
    table: TableState,
    now: Time,
    changes: Seq<StoreChange>,
    disk: Disk,
    peer: PeerId,
    later: Time,
)
    requires
        table.truthful(),
        table.save_is_due(now),
        table.saves(now, changes),
        table.is_ahead_of(disk),
        table.to_save(now).contains(peer),
        peer != table.topology.source,
        later - SAVE_PEERS_MAX_TIME * NANOS_PER_SECOND >= i64::MIN,
    ensures
        ({
            let saved = disk.updated(changes);
            let start = table.with_save(now);
            let (after, taken) = start.with_touch(peer, replies_of(saved, peer), later);
            let back = |p: PeerId|
                p == peer || (table.to_save(now).contains(p) && p != table.topology.source
                    && table.has_edge(p));
            &&& after.edges == table.edges
            &&& after.topology == table.topology
            &&& forall|p: PeerId| #[trigger]
                after.times.contains_key(p) <==> start.times.contains_key(p) || back(p)
            &&& forall|p: PeerId| #[trigger]
                start.times.contains_key(p) ==> after.times[p] == start.times[p]
            &&& forall|p: PeerId|
                #![trigger after.times[p]]
                back(p) ==> after.times[p] == later - SAVE_PEERS_MAX_TIME * NANOS_PER_SECOND
            &&& saved.updated(taken).component_edges == disk.component_edges
            &&& forall|p: PeerId| #[trigger]
                saved.updated(taken).peer_component.contains_key(p)
                    <==> saved.peer_component.contains_key(p) && !back(p)
        }),
{
    let (peers, pairs) = choose|peers: Seq<PeerId>, pairs: Seq<(PeerId, PeerId)>| #[trigger]
        table.saves_in_order(now, changes, peers, pairs);
    let saved = disk.updated(changes);
    let start = table.with_save(now);
    let gone = table.to_save(now);
    let nonce = table.component_nonce;
    law_saved_is_on_disk(table, now, changes, disk, peers, pairs);
    let edges = Seq::new(pairs.len(), |i: int| table.edges[pairs[i]]);
    let endpoints = Seq::new(
        edges.len(),
        |i: int| (
            saved.peer_component_reply(edges[i].peer0),
            saved.peer_component_reply(edges[i].peer1),
        ),
    );
    let replies = replies_of(saved, peer);
    assert(saved.peer_component.contains_key(peer));
    assert(replies.nonce == StoreReply::Found(nonce));
    assert(replies.edges == StoreReply::Found(edges));
    assert(replies.endpoints =~= endpoints);
    let (after, taken) = start.with_touch(peer, replies, later);
    let (by_edges, by_edges_taken) = start.restored(nonce, edges, endpoints, later, pairs.len());
    assert((after, taken) == by_edges.with_sought(peer, by_edges_taken, later));
    lemma_restored(table, now, peers, pairs, disk, changes, later, pairs.len());
    if by_edges.is_untouched(peer) {
        assert(taken.drop_last() =~= by_edges_taken);
    }
    assert(pairs.take(pairs.len() as int) =~= pairs);
    assert forall|pair: (PeerId, PeerId)| #[trigger] pairs.contains(pair) <==> table.edges_at(
        gone,
    ).contains_key(pair) by {
        assert(pairs.to_set().contains(pair) <==> table.edges_at(gone).dom().contains(pair));
    }
    assert(after.edges =~= table.edges);
    assert forall|p: PeerId| gone.contains(p) implies (#[trigger] at_end(pairs, pairs.len(), p)
        <==> table.has_edge(p)) by {
        if at_end(pairs, pairs.len(), p) {
            let i = choose|i: int|
                0 <= i < pairs.len() && ((#[trigger] pairs[i]).0 == p || pairs[i].1 == p);
            assert(pairs.contains(pairs[i]));
            assert(table.edges.contains_key(pairs[i]));
        }
        if table.has_edge(p) {
            let pair = choose|pair: (PeerId, PeerId)| #[trigger]
                table.edges.contains_key(pair) && (pair.0 == p || pair.1 == p);
            assert(pairs.contains(pair));
            let i = choose|i: int| 0 <= i < pairs.len() && pairs[i] == pair;
            assert(pairs[i].0 == p || pairs[i].1 == p);
        }
    }
    assert(!disk.component_edges.contains_key(nonce));
    assert(saved.updated(taken).component_edges =~= disk.component_edges);
    assert forall|p: PeerId| gone.contains(p) && p != table.topology.source && table.has_edge(
        p,
    ) implies #[trigger] after.times[p] == later - SAVE_PEERS_MAX_TIME * NANOS_PER_SECOND by {
        assert(at_end(pairs, pairs.len(), p));
        assert(after.times.contains_key(p));
        assert(!start.times.contains_key(p));
    }
    assert forall|p: PeerId| #[trigger] start.times.contains_key(p) implies after.times[p]
        == start.times[p] by {
        assert(after.times.contains_key(p));
    }
}

} // verus!
