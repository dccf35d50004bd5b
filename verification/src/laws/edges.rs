//! What becomes of reports about edges.
use crate::laws::network::{law_added_link_is_there, law_removed_link_is_gone};
use crate::state::{
    processed_on, replies_of, stepped_on, touched_on, BatchState, BatchStep, ComponentReplies, TableState,
};
use crate::store::{Disk, StoreReply};
use crate::types::{CryptoHash, Edge, PeerId, Time};
use vstd::prelude::*;

verus! {

/// The newest report on an edge wins, and reports on other edges stay.
pub proof fn law_newest_edge_wins(table: TableState, edge: Edge, pair: (PeerId, PeerId))
    ensures
        table.with_edge(edge).find_nonce(pair) == (if pair == edge.pair() && edge.nonce
            > table.find_nonce(pair) {
            edge.nonce
        } else {
            table.find_nonce(pair)
        }),
        pair != edge.pair() ==> table.with_edge(edge).edges.contains_key(pair)
            == table.edges.contains_key(pair),
        pair != edge.pair() && table.edges.contains_key(pair) ==> table.with_edge(edge).edges[pair]
            == table.edges[pair],
        edge.nonce > table.find_nonce(edge.pair()) ==> table.with_edge(edge).edges[edge.pair()] == edge,
{
}

/// A report that is no newer than what is known changes nothing. So a report that comes again
/// changes nothing.
pub proof fn law_old_edge_changes_nothing(table: TableState, edge: Edge)
    ensures
        edge.nonce <= table.find_nonce(edge.pair()) ==> table.with_edge(edge) == table,
        table.with_edge(edge).with_edge(edge) == table.with_edge(edge),
{
}

/// Known edges stay in step with the links of the network.
pub proof fn law_edges_stay_truthful(table: TableState, edge: Edge)
    requires
        table.topology.valid(),
        table.truthful(),
        edge.is_ordered(),
    ensures
        table.with_edge(edge).topology.valid(),
        table.with_edge(edge).truthful(),
        table.is_news(edge) ==> (table.with_edge(edge).topology.contains_edge(edge.peer0, edge.peer1)
            <==> edge.is_added()),
{
    let after = table.with_edge(edge);
    law_added_link_is_there(table.topology, edge.peer0, edge.peer1);
    law_removed_link_is_gone(table.topology, edge.peer0, edge.peer1);
    assert forall|pair: (PeerId, PeerId)| #[trigger] after.edges.contains_key(pair) implies {
        &&& after.edges[pair].is_ordered()
        &&& after.edges[pair].pair() == pair
        &&& after.edges[pair].nonce > 0
        &&& after.edges[pair].is_added() <==> after.topology.contains_edge(pair.0, pair.1)
    } by {
        if pair != edge.pair() {
            assert(table.edges.contains_key(pair));
            assert(after.topology.contains_edge(pair.0, pair.1) <==> table.topology.contains_edge(
                pair.0,
                pair.1,
            ));
        }
    }
}

/// Nothing is known at first, so all of it is true.
pub proof fn law_fresh_table_is_truthful(source: PeerId, component_nonce: u64)
    ensures
        TableState::fresh(source, component_nonce).truthful(),
        TableState::fresh(source, component_nonce).valid(),
{
    let table = TableState::fresh(source, component_nonce);
    assert forall|p: PeerId, q: PeerId| !#[trigger] table.topology.contains_edge(p, q) by {}
}

/// The order in which two reports come in does not matter, unless they disagree under one nonce.
pub proof fn law_order_of_edges_does_not_matter(table: TableState, e: Edge, f: Edge)
    requires
        table.topology.valid(),
        e.is_ordered(),
        f.is_ordered(),
        e.pair() == f.pair() ==> e.nonce != f.nonce || e == f,
    ensures
        table.with_edge(e).with_edge(f).edges == table.with_edge(f).with_edge(e).edges,
        forall|p: PeerId, q: PeerId| #[trigger]
            table.with_edge(e).with_edge(f).topology.contains_edge(p, q) <==> table.with_edge(
                f,
            ).with_edge(e).topology.contains_edge(p, q),
{
    let ef = table.with_edge(e).with_edge(f);
    let fe = table.with_edge(f).with_edge(e);
    assert(ef.edges =~= fe.edges);
    lemma_links_after(table, e);
    lemma_links_after(table, f);
    lemma_links_after(table.with_edge(e), f);
    lemma_links_after(table.with_edge(f), e);
    assert forall|p: PeerId, q: PeerId| #[trigger] ef.topology.contains_edge(p, q)
        <==> fe.topology.contains_edge(p, q) by {
        assert(table.with_edge(e).topology.contains_edge(p, q) <==> linked_after(table, e, p, q));
        assert(table.with_edge(f).topology.contains_edge(p, q) <==> linked_after(table, f, p, q));
        assert(fe.topology.contains_edge(p, q) <==> linked_after(table.with_edge(f), e, p, q));
    }
}

/// `p` and `q` are linked after a report came in.
spec fn linked_after(table: TableState, edge: Edge, p: PeerId, q: PeerId) -> bool {
    if table.is_news(edge) && ((p, q) == edge.pair() || (q, p) == edge.pair()) {
        edge.is_added()
    } else {
        table.topology.contains_edge(p, q)
    }
}

proof fn lemma_links_after(table: TableState, edge: Edge)
    requires
        table.topology.valid(),
        edge.is_ordered(),
    ensures
        table.with_edge(edge).topology.valid(),
        forall|p: PeerId, q: PeerId| #[trigger]
            table.with_edge(edge).topology.contains_edge(p, q) <==> linked_after(table, edge, p, q),
{
    law_added_link_is_there(table.topology, edge.peer0, edge.peer1);
    law_removed_link_is_gone(table.topology, edge.peer0, edge.peer1);
}

/// A batch of edges never takes knowledge back. The edges that are taken in are known from then on,
/// at least as new as they came. A batch that is done says whether it brought anything new: exactly
/// if what is known of the edges has changed. If it brought nothing new, the table is as before.
pub proof fn law_batch_brings_news(table: TableState, batch: BatchState)
    ensures
        ({
            let (after, step) = table.with_batch(batch);
            &&& forall|pair: (PeerId, PeerId)| #[trigger]
                after.find_nonce(pair) >= table.find_nonce(pair)
            &&& match step {
                BatchStep::Done(new_edge) => {
                    &&& forall|i: int|
                        0 <= i < batch.edges.len() ==> after.find_nonce(
                            (#[trigger] batch.edges[i]).pair(),
                        ) >= batch.edges[i].nonce
                    &&& new_edge <==> batch.new_edge || after.edges != table.edges
                    &&& !new_edge ==> after == table
                },
                BatchStep::Touch(peer, rest) => {
                    let taken = batch.edges.len() - rest.edges.len();
                    &&& 0 <= taken < batch.edges.len()
                    &&& rest.edges == batch.edges.skip(taken)
                    &&& forall|i: int|
                        0 <= i < taken ==> after.find_nonce((#[trigger] batch.edges[i]).pair())
                            >= batch.edges[i].nonce
                    &&& rest.new_edge <==> batch.new_edge || after.edges != table.edges
                    &&& !rest.new_edge ==> after == table
                    &&& after.is_untouched(peer)
                },
            }
        }),
    decreases batch.edges.len(), 2 - batch.touched,
{
    if batch.edges.len() > 0 {
        let edge = batch.edges[0];
        if batch.touched < 2 {
            let peer = if batch.touched == 0 {
                edge.peer0
            } else {
                edge.peer1
            };
            let rest = BatchState { touched: batch.touched + 1, ..batch };
            if !table.is_untouched(peer) {
                law_batch_brings_news(table, rest);
            } else {
                assert(batch.edges.skip(0) =~= batch.edges);
            }
        } else {
            let next = table.with_edge(edge);
            let rest = BatchState {
                edges: batch.edges.skip(1),
                touched: 0,
                new_edge: batch.new_edge || table.is_news(edge),
            };
            law_batch_brings_news(next, rest);
            let (after, step) = table.with_batch(batch);
            assert(next.with_batch(rest) == (after, step));
            assert forall|pair: (PeerId, PeerId)| #[trigger]
                after.find_nonce(pair) >= table.find_nonce(pair) by {
                law_newest_edge_wins(table, edge, pair);
                assert(after.find_nonce(pair) >= next.find_nonce(pair));
            }
            law_newest_edge_wins(table, edge, edge.pair());
            assert(after.find_nonce(edge.pair()) >= next.find_nonce(edge.pair()));
            if table.is_news(edge) {
                assert(after.find_nonce(edge.pair()) > table.find_nonce(edge.pair()));
                assert(after.edges != table.edges);
            } else {
                assert(next == table);
            }
            assert forall|i: int|
                0 <= i < batch.edges.len() && (step is Done || i < batch.edges.len()
                    - step->Touch_1.edges.len()) implies after.find_nonce(
                (#[trigger] batch.edges[i]).pair(),
            ) >= batch.edges[i].nonce by {
                if i > 0 {
                    assert(rest.edges[i - 1] == batch.edges[i]);
                }
            }
            if let BatchStep::Touch(peer, left) = step {
                let taken = rest.edges.len() - left.edges.len();
                assert(rest.edges.skip(taken) =~= batch.edges.skip(taken + 1));
            }
        }
    }
}

/// A batch of edges keeps the known edges in step with the network.
pub proof fn law_batch_stays_truthful(table: TableState, batch: BatchState)
    requires
        table.topology.valid(),
        table.truthful(),
        forall|i: int| 0 <= i < batch.edges.len() ==> (#[trigger] batch.edges[i]).is_ordered(),
    ensures
        table.with_batch(batch).0.topology.valid(),
        table.with_batch(batch).0.truthful(),
    decreases batch.edges.len(), 2 - batch.touched,
{
    if batch.edges.len() > 0 {
        let edge = batch.edges[0];
        if batch.touched < 2 {
            let peer = if batch.touched == 0 {
                edge.peer0
            } else {
                edge.peer1
            };
            if !table.is_untouched(peer) {
                law_batch_stays_truthful(
                    table,
                    BatchState { touched: batch.touched + 1, ..batch },
                );
            }
        } else {
            law_edges_stay_truthful(table, edge);
            let rest = BatchState {
                edges: batch.edges.skip(1),
                touched: 0,
                new_edge: batch.new_edge || table.is_news(edge),
            };
            assert forall|i: int| 0 <= i < rest.edges.len() implies (
            #[trigger] rest.edges[i]).is_ordered() by {
                assert(rest.edges[i] == batch.edges[i + 1]);
            }
            law_batch_stays_truthful(table.with_edge(edge), rest);
        }
    }
}

/// Bringing a component back from disk never takes knowledge back, and keeps the known edges in
/// step with the network.
pub proof fn law_touch_stays_truthful(
    table: TableState,
    peer: PeerId,
    replies: ComponentReplies,
    now: Time,
)
    requires
        table.topology.valid(),
        table.truthful(),
        replies.edges matches StoreReply::Found(edges) ==> forall|i: int|
            0 <= i < edges.len() ==> (#[trigger] edges[i]).is_ordered(),
    ensures
        table.with_touch(peer, replies, now).0.topology.valid(),
        table.with_touch(peer, replies, now).0.truthful(),
        forall|pair: (PeerId, PeerId)| #[trigger]
            table.with_touch(peer, replies, now).0.find_nonce(pair) >= table.find_nonce(pair),
{
    law_touched_peer_is_in_memory(table, peer, replies, now);
    let after = table.with_touch(peer, replies, now).0;
    if table.is_untouched(peer) {
        if let StoreReply::Found(nonce) = replies.nonce {
            if let StoreReply::Found(edges) = replies.edges {
                lemma_restored_truthful(table, nonce, edges, replies.endpoints, now, edges.len());
                let back = table.restored(nonce, edges, replies.endpoints, now, edges.len()).0;
                assert(after.edges == back.edges && after.topology == back.topology);
                assert(back.truthful());
            } else {
                assert(after.edges == table.edges && after.topology == table.topology);
            }
        }
    }
    assert(after.truthful());
}

/// A peer that was looked for on disk is in memory from then on, whatever the store says. Nothing
/// that is in memory is lost by it.
pub proof fn law_touched_peer_is_in_memory(
    table: TableState,
    peer: PeerId,
    replies: ComponentReplies,
    now: Time,
)
    ensures
        ({
            let after = table.with_touch(peer, replies, now).0;
            &&& !after.is_untouched(peer)
            &&& after.topology.source == table.topology.source
            &&& after.component_nonce == table.component_nonce
            &&& forall|p: PeerId| #[trigger]
                table.times.contains_key(p) ==> after.times.contains_key(p)
            &&& forall|pair: (PeerId, PeerId)| #[trigger]
                after.find_nonce(pair) >= table.find_nonce(pair)
        }),
{
    if table.is_untouched(peer) {
        if let StoreReply::Found(nonce) = replies.nonce {
            if let StoreReply::Found(edges) = replies.edges {
                lemma_restored_grows(table, nonce, edges, replies.endpoints, now, edges.len());
                let back = table.restored(nonce, edges, replies.endpoints, now, edges.len()).0;
                assert forall|pair: (PeerId, PeerId)| #[trigger]
                    table.with_touch(peer, replies, now).0.find_nonce(pair) >= table.find_nonce(
                        pair,
                    ) by {
                    assert(back.find_nonce(pair) >= table.find_nonce(pair));
                }
            }
        }
    }
}

proof fn lemma_restored_grows(
    table: TableState,
    nonce: u64,
    edges: Seq<Edge>,
    endpoints: Seq<(StoreReply<u64>, StoreReply<u64>)>,
    now: Time,
    n: nat,
)
    ensures
        ({
            let after = table.restored(nonce, edges, endpoints, now, n).0;
            &&& after.topology.source == table.topology.source
            &&& after.component_nonce == table.component_nonce
            &&& forall|p: PeerId| #[trigger]
                table.times.contains_key(p) ==> after.times.contains_key(p)
            &&& forall|pair: (PeerId, PeerId)| #[trigger]
                after.find_nonce(pair) >= table.find_nonce(pair)
        }),
    decreases n,
{
    if n > 0 {
        lemma_restored_grows(table, nonce, edges, endpoints, now, (n - 1) as nat);
        let s0 = table.restored(nonce, edges, endpoints, now, (n - 1) as nat).0;
        let edge = edges[n - 1];
        let (c0, c1) = endpoints[n - 1];
        let s1 = s0.with_peer_back(edge.peer0, c0, nonce, now);
        let s2 = s1.with_peer_back(edge.peer1, c1, nonce, now);
        assert(s2.edges == s0.edges);
        assert forall|pair: (PeerId, PeerId)| #[trigger]
            s2.with_edge(edge).find_nonce(pair) >= table.find_nonce(pair) by {
            assert(s0.find_nonce(pair) >= table.find_nonce(pair));
            law_newest_edge_wins(s2, edge, pair);
        }
        assert forall|p: PeerId| #[trigger] table.times.contains_key(p) implies s2.times.contains_key(
            p,
        ) by {
            assert(s0.times.contains_key(p));
        }
    }
}

proof fn lemma_restored_truthful(
    table: TableState,
    nonce: u64,
    edges: Seq<Edge>,
    endpoints: Seq<(StoreReply<u64>, StoreReply<u64>)>,
    now: Time,
    n: nat,
)
    requires
        table.topology.valid(),
        table.truthful(),
        n <= edges.len(),
        forall|i: int| 0 <= i < edges.len() ==> (#[trigger] edges[i]).is_ordered(),
    ensures
        table.restored(nonce, edges, endpoints, now, n).0.topology.valid(),
        table.restored(nonce, edges, endpoints, now, n).0.truthful(),
    decreases n,
{
    if n > 0 {
        lemma_restored_truthful(table, nonce, edges, endpoints, now, (n - 1) as nat);
        let s0 = table.restored(nonce, edges, endpoints, now, (n - 1) as nat).0;
        let edge = edges[n - 1];
        let (c0, c1) = endpoints[n - 1];
        let s1 = s0.with_peer_back(edge.peer0, c0, nonce, now);
        let s2 = s1.with_peer_back(edge.peer1, c1, nonce, now);
        assert(s2.edges == s0.edges && s2.topology == s0.topology);
        assert(s2.truthful());
        law_edges_stay_truthful(s2, edge);
    }
}

/// What is left to do of a batch, edge by edge.
spec fn rest_of(table: TableState, disk: Disk, batch: BatchState, now: Time) -> (
    TableState,
    Disk,
    bool,
)
    decreases batch.edges.len(),
{
    if batch.edges.len() == 0 {
        (table, disk, batch.new_edge)
    } else {
        let edge = batch.edges[0];
        let (t1, d1) = if batch.touched == 0 {
            touched_on(table, disk, edge.peer0, now)
        } else {
            (table, disk)
        };
        let (t2, d2) = if batch.touched <= 1 {
            touched_on(t1, d1, edge.peer1, now)
        } else {
            (t1, d1)
        };
        rest_of(
            t2.with_edge(edge),
            d2,
            BatchState {
                edges: batch.edges.skip(1),
                touched: 0,
                new_edge: batch.new_edge || t2.is_news(edge),
            },
            now,
        )
    }
}

proof fn lemma_stepped(table: TableState, disk: Disk, batch: BatchState, now: Time)
    ensures
        stepped_on(table, disk, batch, now) == rest_of(table, disk, batch, now),
    decreases batch.edges.len(), 2 - batch.touched,
{
    if batch.edges.len() > 0 {
        let edge = batch.edges[0];
        if batch.touched < 2 {
            let peer = if batch.touched == 0 {
                edge.peer0
            } else {
                edge.peer1
            };
            let rest = BatchState { touched: batch.touched + 1, ..batch };
            let (back, changed) = touched_on(table, disk, peer, now);
            if table.is_untouched(peer) {
                lemma_stepped(back, changed, rest, now);
            } else {
                assert(disk.updated(seq![]) == disk);
                assert((back, changed) == (table, disk));
                lemma_stepped(table, disk, rest, now);
                lemma_stepped_on_same(table, disk, batch, rest, now);
            }
        } else {
            let rest = BatchState {
                edges: batch.edges.skip(1),
                touched: 0,
                new_edge: batch.new_edge || table.is_news(edge),
            };
            lemma_stepped(table.with_edge(edge), disk, rest, now);
            lemma_stepped_on_next(table, disk, batch, rest, now);
        }
    }
}

proof fn lemma_stepped_on_same(
    table: TableState,
    disk: Disk,
    batch: BatchState,
    rest: BatchState,
    now: Time,
)
    requires
        table.with_batch(batch) == table.with_batch(rest),
    ensures
        stepped_on(table, disk, batch, now) == stepped_on(table, disk, rest, now),
{
}

proof fn lemma_stepped_on_next(
    table: TableState,
    disk: Disk,
    batch: BatchState,
    rest: BatchState,
    now: Time,
)
    requires
        batch.edges.len() > 0,
        batch.touched >= 2,
        rest == (BatchState {
            edges: batch.edges.skip(1),
            touched: 0,
            new_edge: batch.new_edge || table.is_news(batch.edges[0]),
        }),
    ensures
        stepped_on(table, disk, batch, now) == stepped_on(
            table.with_edge(batch.edges[0]),
            disk,
            rest,
            now,
        ),
{
}

/// What is done for the first edges and then for the others is done for all.
proof fn lemma_rest_after(
    table: TableState,
    disk: Disk,
    edges: Seq<Edge>,
    now: Time,
    n: nat,
)
    requires
        n <= edges.len(),
    ensures
        ({
            let (after, changed, new_edge) = processed_on(table, disk, edges.take(n as int), now);
            rest_of(
                after,
                changed,
                BatchState { edges: edges.skip(n as int), touched: 0, new_edge },
                now,
            ) == processed_on(table, disk, edges, now)
        }),
    decreases edges.len() - n,
{
    let (after, changed, new_edge) = processed_on(table, disk, edges.take(n as int), now);
    let batch = BatchState { edges: edges.skip(n as int), touched: 0, new_edge };
    if n == edges.len() {
        assert(edges.take(n as int) =~= edges);
    } else {
        lemma_rest_after(table, disk, edges, now, n + 1);
        assert(edges.take(n as int + 1).drop_last() =~= edges.take(n as int));
        assert(edges.take(n as int + 1).last() == edges[n as int]);
        assert(batch.edges[0] == edges[n as int]);
        assert(batch.edges.skip(1) =~= edges.skip(n as int + 1));
    }
}

/// That a batch hands the work on the disk to its caller does not show: on a working store the
/// table, the disk and the result are those of taking the edges in one after the other, with both
/// peers of each edge looked for first.
pub proof fn law_batch_is_edge_by_edge(table: TableState, disk: Disk, edges: Seq<Edge>, now: Time)
    ensures
        stepped_on(table, disk, BatchState { edges, touched: 0, new_edge: false }, now)
            == processed_on(table, disk, edges, now),
{
    lemma_stepped(table, disk, BatchState { edges, touched: 0, new_edge: false }, now);
    lemma_rest_after(table, disk, edges, now, 0);
    assert(edges.take(0) =~= Seq::empty());
    assert(edges.skip(0) =~= edges);
}

/// Recalculating the routes and saving peers keep the known edges in step with the network.
pub proof fn law_update_stays_truthful(table: TableState, now: Time)
    requires
        table.truthful(),
    ensures
        table.with_routes(now).truthful(),
        table.with_save(now).truthful(),
{
    assert forall|pair: (PeerId, PeerId)| #[trigger] table.with_save(now).edges.contains_key(
        pair,
    ) implies table.edges.contains_key(pair) by {}
}

/// Nothing is new about an edge, and its peers are in memory.
spec fn is_known(table: TableState, edge: Edge) -> bool {
    &&& !table.is_untouched(edge.peer0)
    &&& !table.is_untouched(edge.peer1)
    &&& !table.is_news(edge)
}

proof fn lemma_processed_is_known(table: TableState, disk: Disk, edges: Seq<Edge>, now: Time)
    ensures
        forall|i: int|
            0 <= i < edges.len() ==> is_known(
                processed_on(table, disk, edges, now).0,
                #[trigger] edges[i],
            ),
    decreases edges.len(),
{
    if edges.len() > 0 {
        let fewer = edges.drop_last();
        let edge = edges.last();
        lemma_processed_is_known(table, disk, fewer, now);
        let (t0, d0, news) = processed_on(table, disk, fewer, now);
        let (t1, d1) = touched_on(t0, d0, edge.peer0, now);
        let (t2, d2) = touched_on(t1, d1, edge.peer1, now);
        law_touched_peer_is_in_memory(t0, edge.peer0, replies_of(d0, edge.peer0), now);
        law_touched_peer_is_in_memory(t1, edge.peer1, replies_of(d1, edge.peer1), now);
        let after = t2.with_edge(edge);
        assert forall|i: int| 0 <= i < edges.len() implies is_known(after, #[trigger] edges[i]) by {
            law_newest_edge_wins(t2, edge, edges[i].pair());
            if i < fewer.len() {
                assert(fewer[i] == edges[i]);
                assert(is_known(t0, fewer[i]));
                assert(t1.find_nonce(edges[i].pair()) >= t0.find_nonce(edges[i].pair()));
                assert(t2.find_nonce(edges[i].pair()) >= t1.find_nonce(edges[i].pair()));
            } else {
                assert(edges[i] == edge);
            }
        }
    }
}

proof fn lemma_known_again(table: TableState, disk: Disk, edges: Seq<Edge>, now: Time)
    requires
        forall|i: int| 0 <= i < edges.len() ==> is_known(table, #[trigger] edges[i]),
    ensures
        processed_on(table, disk, edges, now) == (table, disk, false),
    decreases edges.len(),
{
    if edges.len() > 0 {
        let fewer = edges.drop_last();
        assert forall|i: int| 0 <= i < fewer.len() implies is_known(table, #[trigger] fewer[i]) by {
            assert(fewer[i] == edges[i]);
        }
        lemma_known_again(table, disk, fewer, now);
        assert(is_known(table, edges[edges.len() - 1]));
        assert(disk.updated(seq![]) == disk);
    }
}

/// Taking the same edges in again, at any later time, changes neither the table nor the disk and
/// brings no news.
pub proof fn law_same_edges_again_bring_no_news(
    table: TableState,
    disk: Disk,
    edges: Seq<Edge>,
    now: Time,
    later: Time,
)
    ensures
        ({
            let (after, changed, news) = processed_on(table, disk, edges, now);
            &&& processed_on(after, changed, edges, later) == (after, changed, false)
            &&& stepped_on(
                after,
                changed,
                BatchState { edges, touched: 0, new_edge: false },
                later,
            ) == (after, changed, false)
        }),
{
    let (after, changed, news) = processed_on(table, disk, edges, now);
    lemma_processed_is_known(table, disk, edges, now);
    lemma_known_again(after, changed, edges, later);
    law_batch_is_edge_by_edge(after, changed, edges, later);
}

/// A new table knows the node itself and nothing else. It keeps at most a hundred thousand ways back, for
/// two minutes when it is full, and gives up a hundred at a time.
pub proof fn law_new_table_knows_nothing(source: PeerId, component_nonce: u64)
    ensures
        ({
            let table = TableState::fresh(source, component_nonce);
            &&& table.valid()
            &&& table.topology.source == source
            &&& forall|p: PeerId| #[trigger] table.topology.links.contains_key(p) <==> p == source
            &&& forall|p: PeerId, q: PeerId| !#[trigger] table.topology.contains_edge(p, q)
            &&& forall|p: PeerId| !#[trigger] table.forwarding.contains_key(p)
            &&& forall|pair: (PeerId, PeerId)| !#[trigger] table.edges.contains_key(pair)
            &&& forall|p: PeerId| !#[trigger] table.times.contains_key(p)
            &&& table.component_nonce == component_nonce
            &&& table.route_back.capacity == 100_000
            &&& table.route_back.evict_timeout == 120_000
            &&& table.route_back.remove_batch == 100
            &&& forall|h: CryptoHash| !#[trigger] table.route_back.records.contains_key(h)
            &&& table.accounts.len() == 0
            &&& table.nonces.len() == 0
            &&& table.pings.len() == 0
            &&& table.pongs.len() == 0
            &&& table.waiting.len() == 0
            &&& table.last_pings.len() == 0
        }),
{
    let table = TableState::fresh(source, component_nonce);
    assert forall|p: PeerId, q: PeerId| !#[trigger] table.topology.contains_edge(p, q) by {}
}

} // verus!
