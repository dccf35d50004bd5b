//! What is known after reports about edges came in, one by one, in a batch, or from disk.
use crate::laws::edges::law_touched_peer_is_in_memory;
use crate::laws::network::{law_added_link_is_there, law_removed_link_is_gone};
use crate::state::{
    processed_on, replies_of, touched_on, BatchState, BatchStep, ComponentReplies, TableState,
};
use crate::store::{Disk, StoreChange, StoreReply};
use crate::types::{Edge, PeerId, Time};
use vstd::prelude::*;

verus! {

/// What is known of the pair is not what was known before.
pub open spec fn changed_at(before: TableState, after: TableState, pair: (PeerId, PeerId)) -> bool {
    after.edges.contains_key(pair) && !(before.edges.contains_key(pair) && before.edges[pair]
        == after.edges[pair])
}

/// Every report is known, or a newer one on the same pair is.
pub open spec fn knows_all(after: TableState, reports: Seq<Edge>) -> bool {
    forall|i: int|
        0 <= i < reports.len() && (#[trigger] reports[i]).nonce > 0 ==> {
            let pair = (reports[i].peer0, reports[i].peer1);
            after.edges.contains_key(pair) && after.edges[pair].nonce >= reports[i].nonce
        }
}

/// What is known now was known before, or is one of the reports, and then it is newer.
pub open spec fn knows_no_other(before: TableState, after: TableState, reports: Seq<Edge>) -> bool {
    forall|pair: (PeerId, PeerId)| #[trigger]
        changed_at(before, after, pair) ==> {
            &&& reports.contains(after.edges[pair])
            &&& (after.edges[pair].peer0, after.edges[pair].peer1) == pair
            &&& after.edges[pair].nonce > 0
            &&& before.edges.contains_key(pair) ==> before.edges[pair].nonce < after.edges[pair].nonce
        }
}

/// Nothing that was known is forgotten.
pub open spec fn forgets_nothing(before: TableState, after: TableState) -> bool {
    forall|pair: (PeerId, PeerId)| #[trigger]
        before.edges.contains_key(pair) ==> after.edges.contains_key(pair)
}

/// Where a newer report is known, the two peers are linked exactly if its nonce is odd. If there are two,
/// one for each order of the peers, one of them decides. Without one, the peers are linked if they were.
pub open spec fn link_follows(before: TableState, after: TableState, p: PeerId, q: PeerId) -> bool {
    let linked = after.topology.contains_edge(p, q);
    let one = after.edges[(p, q)].nonce % 2 == 1;
    let other = after.edges[(q, p)].nonce % 2 == 1;
    if changed_at(before, after, (p, q)) && changed_at(before, after, (q, p)) {
        linked == one || linked == other
    } else if changed_at(before, after, (p, q)) {
        linked == one
    } else if changed_at(before, after, (q, p)) {
        linked == other
    } else {
        linked == before.topology.contains_edge(p, q)
    }
}

/// All links follow the reports.
pub open spec fn links_follow(before: TableState, after: TableState) -> bool {
    forall|p: PeerId, q: PeerId|
        #![trigger after.topology.contains_edge(p, q)]
        link_follows(before, after, p, q)
}

/// The table took the reports in: of each pair it knows the newest one, and nothing that was not known
/// or reported, and the network follows.
pub open spec fn took_in(before: TableState, after: TableState, reports: Seq<Edge>) -> bool {
    &&& knows_all(after, reports)
    &&& knows_no_other(before, after, reports)
    &&& forgets_nothing(before, after)
    &&& links_follow(before, after)
    &&& after.topology.source == before.topology.source
}

/// Each report is about two peers, or says nothing.
spec fn all_sound(reports: Seq<Edge>) -> bool {
    forall|i: int|
        0 <= i < reports.len() ==> (#[trigger] reports[i]).peer0 != reports[i].peer1
            || reports[i].nonce == 0
}

proof fn lemma_took_in_nothing(table: TableState, after: TableState)
    requires
        after.edges == table.edges,
        after.topology == table.topology,
    ensures
        took_in(table, after, Seq::empty()),
{
    assert forall|pair: (PeerId, PeerId)| !#[trigger] changed_at(table, after, pair) by {}
}

/// One report.
pub proof fn law_table_takes_a_report_in(table: TableState, report: Edge)
    requires
        table.topology.valid(),
        report.peer0 != report.peer1 || report.nonce == 0,
    ensures
        table.with_edge(report).topology.valid(),
        took_in(table, table.with_edge(report), seq![report]),
{
    let after = table.with_edge(report);
    let pair = (report.peer0, report.peer1);
    if report.nonce > 0 {
        law_added_link_is_there(table.topology, report.peer0, report.peer1);
        law_removed_link_is_gone(table.topology, report.peer0, report.peer1);
    }
    assert forall|p: (PeerId, PeerId)| #[trigger] changed_at(table, after, p) <==> p == pair
        && table.is_news(report) by {}
    let reports = seq![report];
    assert(reports[0] == report);
    assert forall|p: PeerId, q: PeerId|
        #![trigger after.topology.contains_edge(p, q)]
        link_follows(table, after, p, q) by {
        assert(changed_at(table, after, (p, q)) <==> (p, q) == pair && table.is_news(report));
        assert(changed_at(table, after, (q, p)) <==> (q, p) == pair && table.is_news(report));
    }
}

/// Reports and then more reports.
proof fn lemma_took_in_more(
    first: TableState,
    then: TableState,
    last: TableState,
    xs: Seq<Edge>,
    ys: Seq<Edge>,
)
    requires
        took_in(first, then, xs),
        took_in(then, last, ys),
    ensures
        took_in(first, last, xs + ys),
{
    let all = xs + ys;
    assert forall|e: Edge| #[trigger] all.contains(e) <==> xs.contains(e) || ys.contains(e) by {
        if xs.contains(e) {
            let i = choose|i: int| 0 <= i < xs.len() && xs[i] == e;
            assert(all[i] == e);
        }
        if ys.contains(e) {
            let i = choose|i: int| 0 <= i < ys.len() && ys[i] == e;
            assert(all[xs.len() + i] == e);
        }
        if all.contains(e) {
            let i = choose|i: int| 0 <= i < all.len() && all[i] == e;
            if i < xs.len() {
                assert(xs[i] == e);
            } else {
                assert(ys[i - xs.len()] == e);
            }
        }
    }
    // Knowledge only grows.
    assert forall|pair: (PeerId, PeerId)| #[trigger] then.edges.contains_key(pair) implies
        last.edges.contains_key(pair) && then.edges[pair].nonce <= last.edges[pair].nonce by {
        assert(last.edges.contains_key(pair));
        if changed_at(then, last, pair) {
            assert(then.edges[pair].nonce < last.edges[pair].nonce);
        }
    }
    assert forall|pair: (PeerId, PeerId)| #[trigger] first.edges.contains_key(pair) implies
        then.edges.contains_key(pair) && first.edges[pair].nonce <= then.edges[pair].nonce by {
        assert(then.edges.contains_key(pair));
        if changed_at(first, then, pair) {
            assert(first.edges[pair].nonce < then.edges[pair].nonce);
        }
    }
    assert forall|pair: (PeerId, PeerId)| #[trigger] changed_at(first, last, pair) <==> changed_at(
        first,
        then,
        pair,
    ) || changed_at(then, last, pair) by {
        if changed_at(first, then, pair) {
            assert(then.edges.contains_key(pair));
            if first.edges.contains_key(pair) {
                assert(first.edges[pair].nonce < then.edges[pair].nonce);
            }
        }
        if changed_at(then, last, pair) {
            if first.edges.contains_key(pair) {
                assert(then.edges.contains_key(pair));
            }
        }
    }
    assert forall|i: int| 0 <= i < all.len() && (#[trigger] all[i]).nonce > 0 implies {
        let pair = (all[i].peer0, all[i].peer1);
        last.edges.contains_key(pair) && last.edges[pair].nonce >= all[i].nonce
    } by {
        let pair = (all[i].peer0, all[i].peer1);
        if i < xs.len() {
            assert(xs[i] == all[i]);
            assert(then.edges.contains_key(pair));
        } else {
            assert(ys[i - xs.len()] == all[i]);
        }
    }
    assert(knows_all(last, all));
    assert forall|pair: (PeerId, PeerId)| #[trigger] changed_at(first, last, pair) implies {
        &&& all.contains(last.edges[pair])
        &&& (last.edges[pair].peer0, last.edges[pair].peer1) == pair
        &&& last.edges[pair].nonce > 0
        &&& first.edges.contains_key(pair) ==> first.edges[pair].nonce < last.edges[pair].nonce
    } by {
        if changed_at(then, last, pair) {
            if first.edges.contains_key(pair) {
                assert(then.edges.contains_key(pair));
            }
        } else {
            assert(changed_at(first, then, pair));
        }
    }
    assert(knows_no_other(first, last, all));
    assert forall|pair: (PeerId, PeerId)| #[trigger] first.edges.contains_key(pair) implies
        last.edges.contains_key(pair) by {
        assert(then.edges.contains_key(pair));
    }
    assert forall|p: PeerId, q: PeerId|
        #![trigger last.topology.contains_edge(p, q)]
        link_follows(first, last, p, q) by {
        assert(changed_at(first, last, (p, q)) <==> changed_at(first, then, (p, q)) || changed_at(
            then,
            last,
            (p, q),
        ));
        assert(changed_at(first, last, (q, p)) <==> changed_at(first, then, (q, p)) || changed_at(
            then,
            last,
            (q, p),
        ));
        let before = then.topology.contains_edge(p, q);
        assert(link_follows(first, then, p, q));
        assert(link_follows(then, last, p, q));
        if changed_at(first, then, (p, q)) && !changed_at(then, last, (p, q)) {
            assert(then.edges.contains_key((p, q)));
            assert(last.edges[(p, q)] == then.edges[(p, q)]);
        }
        if changed_at(first, then, (q, p)) && !changed_at(then, last, (q, p)) {
            assert(then.edges.contains_key((q, p)));
            assert(last.edges[(q, p)] == then.edges[(q, p)]);
        }
    }
}

/// A peer comes back with the component: its place on disk is known to be that component.
pub open spec fn named_at(
    edges: Seq<Edge>,
    endpoints: Seq<(StoreReply<u64>, StoreReply<u64>)>,
    nonce: u64,
    i: int,
    p: PeerId,
) -> bool {
    ||| edges[i].peer0 == p && endpoints[i].0 == StoreReply::Found(nonce)
    ||| edges[i].peer1 == p && endpoints[i].1 == StoreReply::Found(nonce)
}

spec fn named_before(
    edges: Seq<Edge>,
    endpoints: Seq<(StoreReply<u64>, StoreReply<u64>)>,
    nonce: u64,
    n: nat,
    p: PeerId,
) -> bool {
    exists|i: int| 0 <= i < n && #[trigger] named_at(edges, endpoints, nonce, i, p)
}

proof fn lemma_restored_takes_in(
    table: TableState,
    nonce: u64,
    edges: Seq<Edge>,
    endpoints: Seq<(StoreReply<u64>, StoreReply<u64>)>,
    now: Time,
    n: nat,
)
    requires
        table.topology.valid(),
        all_sound(edges),
        n <= edges.len(),
        !table.times.contains_key(table.topology.source),
    ensures
        ({
            let (after, taken) = table.restored(nonce, edges, endpoints, now, n);
            let back = |p: PeerId|
                !table.times.contains_key(p) && p != table.topology.source && named_before(
                    edges,
                    endpoints,
                    nonce,
                    n,
                    p,
                );
            &&& after.topology.valid()
            &&& took_in(table, after, edges.take(n as int))
            &&& forall|p: PeerId| #[trigger]
                after.times.contains_key(p) <==> table.times.contains_key(p) || back(p)
            &&& forall|p: PeerId| #[trigger]
                after.times.contains_key(p) ==> after.times[p] == (if table.times.contains_key(p) {
                    table.times[p]
                } else {
                    (now - 7_200_000_000_000) as Time
                })
            &&& forall|p: PeerId| #[trigger]
                taken.contains(StoreChange::DeletePeerComponent(p)) <==> back(p)
            &&& taken.contains(StoreChange::DeleteComponentEdges(nonce))
            &&& forall|c: StoreChange| #[trigger]
                taken.contains(c) ==> c == StoreChange::DeleteComponentEdges(nonce)
                    || c is DeletePeerComponent
        }),
    decreases n,
{
    let (after, taken) = table.restored(nonce, edges, endpoints, now, n);
    if n == 0 {
        assert(edges.take(0) =~= Seq::empty());
        lemma_took_in_nothing(table, after);
        assert(taken[0] == StoreChange::DeleteComponentEdges(nonce));
        assert forall|p: PeerId| !named_before(edges, endpoints, nonce, 0, p) by {}
    } else {
        let m = (n - 1) as nat;
        lemma_restored_takes_in(table, nonce, edges, endpoints, now, m);
        let (s0, before) = table.restored(nonce, edges, endpoints, now, m);
        let edge = edges[m as int];
        let (c0, c1) = endpoints[m as int];
        let s1 = s0.with_peer_back(edge.peer0, c0, nonce, now);
        let s2 = s1.with_peer_back(edge.peer1, c1, nonce, now);
        let b0 = s0.back_changes(edge.peer0, c0, nonce);
        let b1 = s1.back_changes(edge.peer1, c1, nonce);
        assert(s2.edges == s0.edges && s2.topology == s0.topology);
        law_table_takes_a_report_in(s2, edge);
        let step = seq![edge];
        assert(took_in(s0, after, step)) by {
            assert forall|pair: (PeerId, PeerId)| #[trigger] changed_at(s0, after, pair)
                <==> changed_at(s2, after, pair) by {}
            assert(links_follow(s0, after)) by {
                assert forall|p: PeerId, q: PeerId|
            #![trigger after.topology.contains_edge(p, q)]
            link_follows(s0, after, p, q) by {
                    assert(changed_at(s0, after, (p, q)) <==> changed_at(s2, after, (p, q)));
                    assert(changed_at(s0, after, (q, p)) <==> changed_at(s2, after, (q, p)));
                }
            }
        }
        let earlier = edges.take(m as int);
        assert(edges[m as int].peer0 != edges[m as int].peer1 || edges[m as int].nonce == 0);
        lemma_took_in_more(table, s0, after, earlier, step);
        assert(earlier + step =~= edges.take(n as int));
        assert forall|p: PeerId| #[trigger] named_before(edges, endpoints, nonce, n, p)
            <==> named_before(edges, endpoints, nonce, m, p) || named_at(
            edges,
            endpoints,
            nonce,
            m as int,
            p,
        ) by {
            if named_before(edges, endpoints, nonce, n, p) {
                let i = choose|i: int| 0 <= i < n && #[trigger] named_at(edges, endpoints, nonce, i, p);
                assert(i < m || i == m);
            }
            if named_before(edges, endpoints, nonce, m, p) {
                let i = choose|i: int| 0 <= i < m && #[trigger] named_at(edges, endpoints, nonce, i, p);
                assert(0 <= i < n && named_at(edges, endpoints, nonce, i, p));
            }
        }
        assert(taken == before + b0 + b1);
        assert forall|c: StoreChange| #[trigger] taken.contains(c) <==> before.contains(c)
            || b0.contains(c) || b1.contains(c) by {
            lemma_joined(before, b0, c);
            lemma_joined(before + b0, b1, c);
        }
        assert forall|p: PeerId| #[trigger] b0.contains(StoreChange::DeletePeerComponent(p)) <==> (p
            == edge.peer0 && s0.comes_back(edge.peer0, c0, nonce)) by {
            if s0.comes_back(edge.peer0, c0, nonce) {
                assert(b0[0] == StoreChange::DeletePeerComponent(edge.peer0));
            }
        }
        assert forall|p: PeerId| #[trigger] b1.contains(StoreChange::DeletePeerComponent(p)) <==> (p
            == edge.peer1 && s1.comes_back(edge.peer1, c1, nonce)) by {
            if s1.comes_back(edge.peer1, c1, nonce) {
                assert(b1[0] == StoreChange::DeletePeerComponent(edge.peer1));
            }
        }
        assert forall|p: PeerId| #[trigger] s0.times.contains_key(p) <==> table.times.contains_key(p)
            || (!table.times.contains_key(p) && p != table.topology.source && named_before(
            edges,
            endpoints,
            nonce,
            m,
            p,
        )) by {}
    }
}

proof fn lemma_joined(a: Seq<StoreChange>, b: Seq<StoreChange>, c: StoreChange)
    ensures
        (a + b).contains(c) <==> a.contains(c) || b.contains(c),
{
    if a.contains(c) {
        let i = choose|i: int| 0 <= i < a.len() && a[i] == c;
        assert((a + b)[i] == c);
    }
    if b.contains(c) {
        let i = choose|i: int| 0 <= i < b.len() && b[i] == c;
        assert((a + b)[a.len() + i] == c);
    }
    if (a + b).contains(c) {
        let i = choose|i: int| 0 <= i < (a + b).len() && (a + b)[i] == c;
        if i < a.len() {
            assert(a[i] == c);
        } else {
            assert(b[i - a.len()] == c);
        }
    }
}

/// Looking for a peer that is not in memory and has a component on disk: the table takes every edge of
/// the component in, whatever it knew before. The peer comes back, and so do the ends of these edges
/// that are stored in the same component and are not in memory. They count as out of reach for two hours.
/// The component and the peers that came back are to be taken off the disk, and nothing else.
pub proof fn law_stored_component_comes_back(
    table: TableState,
    peer: PeerId,
    nonce: u64,
    edges: Seq<Edge>,
    endpoints: Seq<(StoreReply<u64>, StoreReply<u64>)>,
    now: Time,
)
    requires
        table.valid(),
        peer != table.topology.source,
        !table.times.contains_key(peer),
        endpoints.len() == edges.len(),
        forall|i: int| 0 <= i < edges.len() ==> (#[trigger] edges[i]).is_sound(),
        now - 7_200_000_000_000 >= i64::MIN,
    ensures
        ({
            let replies = ComponentReplies {
                nonce: StoreReply::Found(nonce),
                edges: StoreReply::Found(edges),
                endpoints,
            };
            let (after, taken) = table.with_touch(peer, replies, now);
            let back = |p: PeerId|
                !table.times.contains_key(p) && p != table.topology.source && (p == peer || exists|i: int|

                    0 <= i < edges.len() && #[trigger] named_at(edges, endpoints, nonce, i, p));
            &&& took_in(table, after, edges)
            &&& forall|p: PeerId| #[trigger]
                after.times.contains_key(p) <==> table.times.contains_key(p) || back(p)
            &&& forall|p: PeerId| #[trigger]
                after.times.contains_key(p) ==> after.times[p] == (if table.times.contains_key(p) {
                    table.times[p] as int
                } else {
                    now - 7_200_000_000_000
                })
            &&& forall|p: PeerId| #[trigger]
                taken.contains(StoreChange::DeletePeerComponent(p)) <==> back(p)
            &&& taken.contains(StoreChange::DeleteComponentEdges(nonce))
            &&& forall|c: StoreChange| #[trigger]
                taken.contains(c) ==> c == StoreChange::DeleteComponentEdges(nonce)
                    || c is DeletePeerComponent
        }),
{
    let replies = ComponentReplies {
        nonce: StoreReply::Found(nonce),
        edges: StoreReply::Found(edges),
        endpoints,
    };
    let (after, taken) = table.with_touch(peer, replies, now);
    let (by_edges, by_edges_taken) = table.restored(nonce, edges, endpoints, now, edges.len());
    lemma_restored_takes_in(table, nonce, edges, endpoints, now, edges.len());
    assert(edges.take(edges.len() as int) =~= edges);
    assert(after.edges == by_edges.edges && after.topology == by_edges.topology);
    assert forall|pair: (PeerId, PeerId)| #[trigger] changed_at(table, after, pair) <==> changed_at(
        table,
        by_edges,
        pair,
    ) by {}
    assert(links_follow(table, after)) by {
        assert forall|p: PeerId, q: PeerId|
            #![trigger after.topology.contains_edge(p, q)]
            link_follows(table, after, p, q) by {
            assert(link_follows(table, by_edges, p, q));
            assert(changed_at(table, after, (p, q)) <==> changed_at(table, by_edges, (p, q)));
            assert(changed_at(table, after, (q, p)) <==> changed_at(table, by_edges, (q, p)));
        }
    }
    assert(knows_no_other(table, after, edges)) by {
        assert forall|pair: (PeerId, PeerId)| #[trigger] changed_at(table, after, pair) implies {
            &&& edges.contains(after.edges[pair])
            &&& (after.edges[pair].peer0, after.edges[pair].peer1) == pair
            &&& after.edges[pair].nonce > 0
            &&& table.edges.contains_key(pair) ==> table.edges[pair].nonce < after.edges[pair].nonce
        } by {
            assert(changed_at(table, by_edges, pair));
        }
    }
    assert forall|c: StoreChange| #[trigger] taken.contains(c) <==> by_edges_taken.contains(c) || (
    by_edges.is_untouched(peer) && c == StoreChange::DeletePeerComponent(peer)) by {
        if by_edges.is_untouched(peer) {
            crate::sequences::lemma_push_contains(
                by_edges_taken,
                StoreChange::DeletePeerComponent(peer),
                c,
            );
        }
    }
}

/// Looking for a peer that is not in memory, when its component cannot be had: the peer comes back
/// alone. If it is not on disk at all, it counts as within reach now and nothing is taken off the disk.
/// A peer in memory is not looked for.
pub proof fn law_peer_without_a_component_comes_back_alone(
    table: TableState,
    peer: PeerId,
    replies: ComponentReplies,
    now: Time,
)
    requires
        now - 7_200_000_000_000 >= i64::MIN,
    ensures
        ({
            let (after, taken) = table.with_touch(peer, replies, now);
            if peer == table.topology.source || table.times.contains_key(peer) {
                after == table && taken == Seq::<StoreChange>::empty()
            } else {
                match replies.nonce {
                    StoreReply::Found(nonce) => replies.edges is Found || {
                        &&& after == (TableState {
                            times: table.times.insert(peer, (now - 7_200_000_000_000) as Time),
                            ..table
                        })
                        &&& taken == seq![
                            StoreChange::DeleteComponentEdges(nonce),
                            StoreChange::DeletePeerComponent(peer),
                        ]
                    },
                    _ => {
                        &&& after == (TableState { times: table.times.insert(peer, now), ..table })
                        &&& taken == Seq::<StoreChange>::empty()
                    },
                }
            }
        }),
{
    let (after, taken) = table.with_touch(peer, replies, now);
    if let StoreReply::Found(nonce) = replies.nonce {
        if !(replies.edges is Found) && table.is_untouched(peer) {
            assert(taken =~= seq![
                StoreChange::DeleteComponentEdges(nonce),
                StoreChange::DeletePeerComponent(peer),
            ]);
        }
    }
}

/// The peer is the node itself or in memory.
pub open spec fn in_memory(table: TableState, p: PeerId) -> bool {
    p == table.topology.source || table.times.contains_key(p)
}

/// The ends of the first `n` edges are in memory, those of the very first one as far as the batch had
/// not looked for them before.
pub open spec fn ends_in_memory(table: TableState, batch: BatchState, n: int) -> bool {
    forall|i: int|
        0 <= i < n ==> {
            &&& i == 0 && batch.touched > 0 || in_memory(table, (#[trigger] batch.edges[i]).peer0)
            &&& i == 0 && batch.touched > 1 || in_memory(table, batch.edges[i].peer1)
        }
}

/// A batch that is done took its edges in, and one that asks for a peer took in those before. It asks
/// for a peer of the next edge that is not in memory. No edge is taken in before its peers are in
/// memory or were asked for.
pub proof fn law_batch_takes_its_edges_in(table: TableState, batch: BatchState)
    requires
        table.topology.valid(),
        forall|i: int| 0 <= i < batch.edges.len() ==> (#[trigger] batch.edges[i]).is_sound(),
    ensures
        ({
            let (after, step) = table.with_batch(batch);
            &&& after.topology.valid()
            &&& after == (TableState { topology: after.topology, edges: after.edges, ..table })
            &&& match step {
                BatchStep::Done(new_edge) => {
                    &&& took_in(table, after, batch.edges)
                    &&& ends_in_memory(table, batch, batch.edges.len() as int)
                    &&& new_edge <==> batch.new_edge || exists|pair: (PeerId, PeerId)| #[trigger]
                        changed_at(table, after, pair)
                },
                BatchStep::Touch(peer, rest) => {
                    let taken = batch.edges.len() - rest.edges.len();
                    &&& 0 <= taken < batch.edges.len()
                    &&& rest.edges == batch.edges.skip(taken)
                    &&& took_in(table, after, batch.edges.take(taken))
                    &&& ends_in_memory(table, batch, taken)
                    &&& rest.new_edge <==> batch.new_edge || exists|pair: (PeerId, PeerId)| #[trigger]
                        changed_at(table, after, pair)
                    &&& peer == rest.edges[0].peer0 || peer == rest.edges[0].peer1
                    &&& peer != table.topology.source
                    &&& !table.times.contains_key(peer)
                    &&& rest.edges[0].peer0 != rest.edges[0].peer1 ==> {
                        if peer == rest.edges[0].peer0 {
                            rest.touched == 1
                        } else {
                            rest.touched == 2 && (taken == 0 && batch.touched > 0 || in_memory(
                                table,
                                rest.edges[0].peer0,
                            ))
                        }
                    }
                },
            }
        }),
    decreases batch.edges.len(), 2 - batch.touched,
{
    let (after, step) = table.with_batch(batch);
    if batch.edges.len() == 0 {
        lemma_took_in_nothing(table, after);
        assert(batch.edges =~= Seq::empty());
        assert forall|pair: (PeerId, PeerId)| !#[trigger] changed_at(table, after, pair) by {}
    } else {
        let edge = batch.edges[0];
        if batch.touched < 2 {
            let peer = if batch.touched == 0 {
                edge.peer0
            } else {
                edge.peer1
            };
            let rest = BatchState { touched: batch.touched + 1, ..batch };
            if table.is_untouched(peer) {
                lemma_took_in_nothing(table, after);
                assert(batch.edges.take(0) =~= Seq::empty());
                assert(batch.edges.skip(0) =~= batch.edges);
                assert forall|pair: (PeerId, PeerId)| !#[trigger] changed_at(table, after, pair) by {}
            } else {
                law_batch_takes_its_edges_in(table, rest);
            }
        } else {
            let next = table.with_edge(edge);
            let rest = BatchState {
                edges: batch.edges.skip(1),
                touched: 0,
                new_edge: batch.new_edge || table.is_news(edge),
            };
            assert(batch.edges[0].is_sound());
            law_table_takes_a_report_in(table, edge);
            assert forall|i: int| 0 <= i < rest.edges.len() implies (
            #[trigger] rest.edges[i]).is_sound() by {
                assert(rest.edges[i] == batch.edges[i + 1]);
            }
            law_batch_takes_its_edges_in(next, rest);
            let one = seq![edge];
            let then = match step {
                BatchStep::Done(b) => rest.edges,
                BatchStep::Touch(p, left) => rest.edges.take(rest.edges.len() - left.edges.len()),
            };
            lemma_took_in_more(table, next, after, one, then);
            lemma_changes_add_up(table, next, after, one, then);
            assert(changed_at(table, next, edge.pair()) <==> table.is_news(edge));
            assert forall|pair: (PeerId, PeerId)| #[trigger] changed_at(table, next, pair) implies pair
                == edge.pair() && table.is_news(edge) by {}
            match step {
                BatchStep::Done(b) => {
                    assert(one + rest.edges =~= batch.edges);
                },
                BatchStep::Touch(p, left) => {
                    let taken = rest.edges.len() - left.edges.len();
                    assert(one + rest.edges.take(taken) =~= batch.edges.take(taken + 1));
                    assert(rest.edges.skip(taken) =~= batch.edges.skip(taken + 1));
                },
            }
            assert forall|i: int|
                1 <= i < batch.edges.len() && (step is Done || i < batch.edges.len()
                    - step->Touch_1.edges.len()) implies in_memory(
                table,
                (#[trigger] batch.edges[i]).peer0,
            ) && in_memory(table, batch.edges[i].peer1) by {
                assert(rest.edges[i - 1] == batch.edges[i]);
                assert(in_memory(next, rest.edges[i - 1].peer0));
            }
            if exists|pair: (PeerId, PeerId)| #[trigger] changed_at(next, after, pair) {
                let pair = choose|pair: (PeerId, PeerId)| #[trigger] changed_at(next, after, pair);
                assert(changed_at(table, after, pair));
            }
            if table.is_news(edge) {
                assert(changed_at(table, after, edge.pair()));
            }
            if exists|pair: (PeerId, PeerId)| #[trigger] changed_at(table, after, pair) {
                let pair = choose|pair: (PeerId, PeerId)| #[trigger] changed_at(table, after, pair);
                assert(changed_at(table, next, pair) || changed_at(next, after, pair));
            }
        }
    }
}

/// What changed in the end changed at first or then.
proof fn lemma_changes_add_up(
    first: TableState,
    then: TableState,
    last: TableState,
    xs: Seq<Edge>,
    ys: Seq<Edge>,
)
    requires
        took_in(first, then, xs),
        took_in(then, last, ys),
    ensures
        forall|pair: (PeerId, PeerId)| #[trigger]
            changed_at(first, last, pair) <==> changed_at(first, then, pair) || changed_at(
                then,
                last,
                pair,
            ),
{
    assert forall|pair: (PeerId, PeerId)| #[trigger] changed_at(first, last, pair) <==> changed_at(
        first,
        then,
        pair,
    ) || changed_at(then, last, pair) by {
        if changed_at(first, then, pair) {
            assert(then.edges.contains_key(pair));
            if changed_at(then, last, pair) {
                assert(then.edges[pair].nonce < last.edges[pair].nonce);
            }
            assert(last.edges.contains_key(pair));
        }
        if changed_at(then, last, pair) {
            if first.edges.contains_key(pair) {
                assert(then.edges.contains_key(pair));
            }
        }
    }
}

/// The edge is in some component on disk.
pub open spec fn is_stored(disk: Disk, e: Edge) -> bool {
    exists|nonce: u64| #[trigger]
        disk.component_edges.contains_key(nonce) && disk.component_edges[nonce].contains(e)
}

/// The edges of a component are known, or it is still on disk.
spec fn is_safe(table: TableState, disk: Disk, now_disk: Disk, nonce: u64) -> bool {
    disk.component_edges.contains_key(nonce) ==> {
        ||| now_disk.component_edges.contains_key(nonce) && now_disk.component_edges[nonce]
            == disk.component_edges[nonce]
        ||| knows_all(table, disk.component_edges[nonce])
    }
}

/// A peer on disk is still there under the same nonce, or it is in memory and its component is known.
spec fn is_kept(start: TableState, disk: Disk, table: TableState, now_disk: Disk, p: PeerId) -> bool {
    !in_memory(start, p) && disk.peer_component.contains_key(p) ==> {
        let nonce = disk.peer_component[p];
        ||| !in_memory(table, p) && now_disk.peer_component.contains_key(p)
            && now_disk.peer_component[p] == nonce
        ||| in_memory(table, p) && (disk.component_edges.contains_key(nonce) ==> knows_all(
            table,
            disk.component_edges[nonce],
        ))
    }
}

/// Every edge on disk joins two peers, or says nothing.
spec fn stored_sound(disk: Disk) -> bool {
    forall|nonce: u64| #[trigger]
        disk.component_edges.contains_key(nonce) ==> all_sound(disk.component_edges[nonce])
}

/// How far a node is that takes edges in with a store that held `disk` at first.
spec fn on_the_way(
    start: TableState,
    disk: Disk,
    table: TableState,
    now_disk: Disk,
    reports: Seq<Edge>,
    all: Seq<Edge>,
) -> bool {
    &&& table.topology.valid()
    &&& !table.times.contains_key(table.topology.source)
    &&& table.topology.source == start.topology.source
    &&& took_in(start, table, all)
    &&& forall|e: Edge| #[trigger]
        all.contains(e) ==> reports.contains(e) || is_stored(disk, e)
    &&& forall|p: PeerId| #[trigger] in_memory(start, p) ==> in_memory(table, p)
    &&& forall|p: PeerId| #[trigger] is_kept(start, disk, table, now_disk, p)
    &&& forall|nonce: u64| #[trigger] is_safe(table, disk, now_disk, nonce)
    &&& forall|nonce: u64| #[trigger]
        now_disk.component_edges.contains_key(nonce) ==> disk.component_edges.contains_key(nonce)
            && now_disk.component_edges[nonce] == disk.component_edges[nonce]
    &&& forall|p: PeerId| #[trigger]
        now_disk.peer_component.contains_key(p) ==> disk.peer_component.contains_key(p)
            && now_disk.peer_component[p] == disk.peer_component[p]
}

/// What is known stays known.
proof fn lemma_known_stays(
    before: TableState,
    after: TableState,
    reports: Seq<Edge>,
    known: Seq<Edge>,
)
    requires
        took_in(before, after, reports),
        knows_all(before, known),
    ensures
        knows_all(after, known),
{
    assert forall|i: int| 0 <= i < known.len() && (#[trigger] known[i]).nonce > 0 implies {
        let pair = (known[i].peer0, known[i].peer1);
        after.edges.contains_key(pair) && after.edges[pair].nonce >= known[i].nonce
    } by {
        let pair = (known[i].peer0, known[i].peer1);
        assert(before.edges.contains_key(pair));
        if changed_at(before, after, pair) {
            assert(before.edges[pair].nonce < after.edges[pair].nonce);
        }
    }
}

/// The disk after deletions.
proof fn lemma_deleted_from(disk: Disk, changes: Seq<StoreChange>)
    requires
        forall|i: int|
            0 <= i < changes.len() ==> (#[trigger] changes[i]) is DeletePeerComponent || changes[i]
                is DeleteComponentEdges,
    ensures
        forall|p: PeerId| #[trigger]
            disk.updated(changes).peer_component.contains_key(p)
                <==> disk.peer_component.contains_key(p) && !changes.contains(
                StoreChange::DeletePeerComponent(p),
            ),
        forall|p: PeerId| #[trigger]
            disk.updated(changes).peer_component.contains_key(p)
                ==> disk.updated(changes).peer_component[p] == disk.peer_component[p],
        forall|n: u64| #[trigger]
            disk.updated(changes).component_edges.contains_key(n)
                <==> disk.component_edges.contains_key(n) && !changes.contains(
                StoreChange::DeleteComponentEdges(n),
            ),
        forall|n: u64| #[trigger]
            disk.updated(changes).component_edges.contains_key(n)
                ==> disk.updated(changes).component_edges[n] == disk.component_edges[n],
        disk.updated(changes).last_component_nonce == disk.last_component_nonce,
        disk.updated(changes).announcements == disk.announcements,
    decreases changes.len(),
{
    if changes.len() > 0 {
        let fewer = changes.drop_last();
        let last = changes[changes.len() - 1];
        assert forall|i: int| 0 <= i < fewer.len() implies (#[trigger] fewer[i]) is DeletePeerComponent
            || fewer[i] is DeleteComponentEdges by {
            assert(fewer[i] == changes[i]);
        }
        lemma_deleted_from(disk, fewer);
        assert(changes =~= fewer.push(last));
        assert forall|c: StoreChange| #[trigger] changes.contains(c) <==> fewer.contains(c) || c
            == last by {
            crate::sequences::lemma_push_contains(fewer, last, c);
        }
        assert(last is DeletePeerComponent || last is DeleteComponentEdges);
        assert(disk.updated(changes) == disk.updated(fewer).changed(last));
    }
}

/// What looking for a peer leaves on disk.
proof fn lemma_touched_disk(table: TableState, disk: Disk, peer: PeerId, now: Time)
    requires
        table.topology.valid(),
        !table.times.contains_key(table.topology.source),
        stored_sound(disk),
    ensures
        ({
            let (after, changed) = touched_on(table, disk, peer, now);
            let nonce = disk.peer_component[peer];
            let found = !in_memory(table, peer) && disk.peer_component.contains_key(peer);
            let edges = if found && disk.component_edges.contains_key(nonce) {
                disk.component_edges[nonce]
            } else {
                Seq::empty()
            };
            &&& after.topology.valid()
            &&& !after.times.contains_key(after.topology.source)
            &&& took_in(table, after, edges)
            &&& in_memory(after, peer)
            &&& forall|p: PeerId| #[trigger] in_memory(table, p) ==> in_memory(after, p)
            &&& forall|p: PeerId| #[trigger]
                changed.peer_component.contains_key(p) <==> disk.peer_component.contains_key(p) && (
                in_memory(table, p) || !in_memory(after, p))
            &&& forall|p: PeerId| #[trigger]
                changed.peer_component.contains_key(p) ==> changed.peer_component[p]
                    == disk.peer_component[p]
            &&& forall|p: PeerId|
                #![trigger in_memory(after, p)]
                !in_memory(table, p) && in_memory(after, p) && p != peer ==> found
                    && disk.peer_component.contains_key(p) && disk.peer_component[p] == nonce
                    && disk.component_edges.contains_key(nonce)
            &&& forall|n: u64| #[trigger]
                changed.component_edges.contains_key(n) <==> disk.component_edges.contains_key(n) && !(
                found && n == nonce)
            &&& forall|n: u64| #[trigger]
                changed.component_edges.contains_key(n) ==> changed.component_edges[n]
                    == disk.component_edges[n]
        }),
{
    let replies = replies_of(disk, peer);
    let (after, taken) = table.with_touch(peer, replies, now);
    let changed = disk.updated(taken);
    law_touched_peer_is_in_memory(table, peer, replies, now);
    if in_memory(table, peer) {
        lemma_took_in_nothing(table, after);
        lemma_deleted_from(disk, taken);
    } else if !disk.peer_component.contains_key(peer) {
        lemma_took_in_nothing(table, after);
        lemma_deleted_from(disk, taken);
    } else {
        let nonce = disk.peer_component[peer];
        if disk.component_edges.contains_key(nonce) {
            let edges = disk.component_edges[nonce];
            lemma_restored_takes_in(table, nonce, edges, replies.endpoints, now, edges.len());
            let (by_edges, by_edges_taken) = table.restored(
                nonce,
                edges,
                replies.endpoints,
                now,
                edges.len(),
            );
            assert(edges.take(edges.len() as int) =~= edges);
            assert forall|c: StoreChange| #[trigger] taken.contains(c) <==> by_edges_taken.contains(c)
                || (by_edges.is_untouched(peer) && c == StoreChange::DeletePeerComponent(peer)) by {
                if by_edges.is_untouched(peer) {
                    crate::sequences::lemma_push_contains(
                        by_edges_taken,
                        StoreChange::DeletePeerComponent(peer),
                        c,
                    );
                }
            }
            lemma_took_in_same(table, by_edges, after, edges);
            assert forall|i: int| 0 <= i < taken.len() implies (
            #[trigger] taken[i]) is DeletePeerComponent || taken[i] is DeleteComponentEdges by {
                assert(taken.contains(taken[i]));
            }
            lemma_deleted_from(disk, taken);
            assert forall|p: PeerId| !in_memory(table, p) && p != peer
                && #[trigger] in_memory(after, p) implies disk.peer_component.contains_key(p)
                && disk.peer_component[p] == nonce by {
                assert(by_edges.times.contains_key(p));
                let i = choose|i: int|
                    0 <= i < edges.len() && #[trigger] named_at(
                        edges,
                        replies.endpoints,
                        nonce,
                        i,
                        p,
                    );
                assert(named_at(edges, replies.endpoints, nonce, i, p));
            }
            assert forall|p: PeerId| #[trigger] taken.contains(StoreChange::DeletePeerComponent(p))
                <==> !in_memory(table, p) && in_memory(after, p) by {
                assert(by_edges_taken.contains(StoreChange::DeletePeerComponent(p)) <==> !(
                table.times.contains_key(p)) && p != table.topology.source && named_before(
                    edges,
                    replies.endpoints,
                    nonce,
                    edges.len(),
                    p,
                ));
                assert(by_edges.times.contains_key(p) <==> table.times.contains_key(p) || (!(
                table.times.contains_key(p)) && p != table.topology.source && named_before(
                    edges,
                    replies.endpoints,
                    nonce,
                    edges.len(),
                    p,
                )));
            }
        } else {
            lemma_took_in_nothing(table, after);
            assert(taken =~= seq![
                StoreChange::DeleteComponentEdges(nonce),
                StoreChange::DeletePeerComponent(peer),
            ]);
            assert(taken[0] == StoreChange::DeleteComponentEdges(nonce));
            assert(taken[1] == StoreChange::DeletePeerComponent(peer));
            lemma_deleted_from(disk, taken);
        }
    }
}

/// Only the edges and the network matter.
proof fn lemma_took_in_same(
    before: TableState,
    after: TableState,
    alike: TableState,
    reports: Seq<Edge>,
)
    requires
        took_in(before, after, reports),
        alike.edges == after.edges,
        alike.topology == after.topology,
    ensures
        took_in(before, alike, reports),
{
    assert forall|pair: (PeerId, PeerId)| #[trigger] changed_at(before, alike, pair) <==> changed_at(
        before,
        after,
        pair,
    ) by {}
    assert forall|pair: (PeerId, PeerId)| #[trigger] changed_at(before, alike, pair) implies {
        &&& reports.contains(alike.edges[pair])
        &&& (alike.edges[pair].peer0, alike.edges[pair].peer1) == pair
        &&& alike.edges[pair].nonce > 0
        &&& before.edges.contains_key(pair) ==> before.edges[pair].nonce < alike.edges[pair].nonce
    } by {
        assert(changed_at(before, after, pair));
    }
    assert forall|p: PeerId, q: PeerId|
            #![trigger alike.topology.contains_edge(p, q)]
            link_follows(before, alike, p, q) by {
        assert(link_follows(before, after, p, q));
        assert(changed_at(before, alike, (p, q)) <==> changed_at(before, after, (p, q)));
        assert(changed_at(before, alike, (q, p)) <==> changed_at(before, after, (q, p)));
    }
}

proof fn lemma_touch_on_the_way(
    start: TableState,
    disk: Disk,
    table: TableState,
    now_disk: Disk,
    reports: Seq<Edge>,
    all: Seq<Edge>,
    peer: PeerId,
    now: Time,
) -> (more: Seq<Edge>)
    requires
        on_the_way(start, disk, table, now_disk, reports, all),
        stored_sound(disk),
    ensures
        ({
            let (after, changed) = touched_on(table, now_disk, peer, now);
            &&& on_the_way(start, disk, after, changed, reports, all + more)
            &&& in_memory(after, peer)
            &&& forall|p: PeerId| #[trigger] in_memory(table, p) ==> in_memory(after, p)
        }),
{
    let (after, changed) = touched_on(table, now_disk, peer, now);
    assert(stored_sound(now_disk));
    lemma_touched_disk(table, now_disk, peer, now);
    let nonce = now_disk.peer_component[peer];
    let found = !in_memory(table, peer) && now_disk.peer_component.contains_key(peer);
    let edges = if found && now_disk.component_edges.contains_key(nonce) {
        now_disk.component_edges[nonce]
    } else {
        Seq::empty()
    };
    assert(all_sound(edges));
    lemma_took_in_more(start, table, after, all, edges);
    let joined = all + edges;
    assert forall|e: Edge| #[trigger] joined.contains(e) implies reports.contains(e) || is_stored(
        disk,
        e,
    ) by {
        let i = choose|i: int| 0 <= i < joined.len() && joined[i] == e;
        if i < all.len() {
            assert(all.contains(e));
        } else {
            assert(edges[i - all.len()] == e);
            assert(disk.component_edges.contains_key(nonce) && disk.component_edges[nonce].contains(
                e,
            ));
        }
    }
    assert forall|n: u64| #[trigger] is_safe(after, disk, changed, n) by {
        assert(is_safe(table, disk, now_disk, n));
        if disk.component_edges.contains_key(n) {
            if knows_all(table, disk.component_edges[n]) {
                lemma_known_stays(table, after, edges, disk.component_edges[n]);
            } else if found && n == nonce {
                assert(edges == disk.component_edges[n]);
                assert(knows_all(after, edges));
            } else {
                assert(changed.component_edges.contains_key(n));
            }
        }
    }
    assert forall|p: PeerId| #[trigger] is_kept(start, disk, after, changed, p) by {
        assert(is_kept(start, disk, table, now_disk, p));
        if !in_memory(start, p) && disk.peer_component.contains_key(p) {
            let n = disk.peer_component[p];
            if in_memory(table, p) {
                assert(in_memory(after, p));
                if disk.component_edges.contains_key(n) {
                    lemma_known_stays(table, after, edges, disk.component_edges[n]);
                }
            } else if in_memory(after, p) {
                assert(found && n == nonce);
                assert(is_safe(table, disk, now_disk, n));
                if disk.component_edges.contains_key(n) {
                    if knows_all(table, disk.component_edges[n]) {
                        lemma_known_stays(table, after, edges, disk.component_edges[n]);
                    } else {
                        assert(edges == disk.component_edges[n]);
                        assert(knows_all(after, edges));
                    }
                }
            } else {
                assert(changed.peer_component.contains_key(p));
            }
        }
    }
    assert forall|p: PeerId| #[trigger] in_memory(start, p) implies in_memory(after, p) by {
        assert(in_memory(table, p));
    }
    edges
}

proof fn lemma_processed_on_the_way(table: TableState, disk: Disk, edges: Seq<Edge>, now: Time) -> (
all: Seq<Edge>)
    requires
        table.topology.valid(),
        !table.times.contains_key(table.topology.source),
        all_sound(edges),
        stored_sound(disk),
    ensures
        ({
            let (after, changed, news) = processed_on(table, disk, edges, now);
            &&& on_the_way(table, disk, after, changed, edges, all)
            &&& forall|i: int|
                0 <= i < edges.len() ==> all.contains(#[trigger] edges[i]) && in_memory(
                    after,
                    edges[i].peer0,
                ) && in_memory(after, edges[i].peer1)
        }),
    decreases edges.len(),
{
    if edges.len() == 0 {
        lemma_took_in_nothing(table, table);
        assert forall|p: PeerId| #[trigger] is_kept(table, disk, table, disk, p) by {}
        assert forall|n: u64| #[trigger] is_safe(table, disk, disk, n) by {}
        Seq::empty()
    } else {
        let fewer = edges.drop_last();
        let edge = edges[edges.len() - 1];
        assert(all_sound(fewer)) by {
            assert forall|i: int| 0 <= i < fewer.len() implies (#[trigger] fewer[i]).is_sound() by {
                assert(fewer[i] == edges[i]);
            }
        }
        let all = lemma_processed_on_the_way(table, disk, fewer, now);
        let (t0, d0, news) = processed_on(table, disk, fewer, now);
        assert(on_the_way(table, disk, t0, d0, edges, all)) by {
            assert forall|e: Edge| #[trigger] all.contains(e) implies edges.contains(e) || is_stored(
                disk,
                e,
            ) by {
                if fewer.contains(e) {
                    let i = choose|i: int| 0 <= i < fewer.len() && fewer[i] == e;
                    assert(edges[i] == e);
                }
            }
        }
        let (t1, d1) = touched_on(t0, d0, edge.peer0, now);
        let (t2, d2) = touched_on(t1, d1, edge.peer1, now);
        let more = lemma_touch_on_the_way(table, disk, t0, d0, edges, all, edge.peer0, now);
        let again = lemma_touch_on_the_way(table, disk, t1, d1, edges, all + more, edge.peer1, now);
        let sofar = all + more + again;
        let after = t2.with_edge(edge);
        let one = seq![edge];
        assert(edge.is_sound());
        law_table_takes_a_report_in(t2, edge);
        lemma_took_in_more(table, t2, after, sofar, one);
        let joined = sofar + one;
        assert forall|e: Edge| #[trigger] joined.contains(e) implies edges.contains(e) || is_stored(
            disk,
            e,
        ) by {
            let i = choose|i: int| 0 <= i < joined.len() && joined[i] == e;
            if i < sofar.len() {
                assert(sofar.contains(e));
            } else {
                assert(edges[edges.len() - 1] == e);
            }
        }
        assert forall|p: PeerId| #[trigger] in_memory(table, p) implies in_memory(after, p) by {
            assert(in_memory(t2, p));
        }
        assert forall|p: PeerId| #[trigger] is_kept(table, disk, after, d2, p) by {
            assert(is_kept(table, disk, t2, d2, p));
            let n = disk.peer_component[p];
            if disk.component_edges.contains_key(n) && knows_all(t2, disk.component_edges[n]) {
                lemma_known_stays(t2, after, one, disk.component_edges[n]);
            }
        }
        assert forall|n: u64| #[trigger] is_safe(after, disk, d2, n) by {
            assert(is_safe(t2, disk, d2, n));
            if disk.component_edges.contains_key(n) && knows_all(t2, disk.component_edges[n]) {
                lemma_known_stays(t2, after, one, disk.component_edges[n]);
            }
        }
        assert forall|i: int| 0 <= i < edges.len() implies joined.contains(#[trigger] edges[i])
            && in_memory(after, edges[i].peer0) && in_memory(after, edges[i].peer1) by {
            if i < fewer.len() {
                assert(fewer[i] == edges[i]);
                let j = choose|j: int| 0 <= j < all.len() && all[j] == edges[i];
                assert(joined[j] == edges[i]);
                assert(in_memory(t0, fewer[i].peer0) && in_memory(t0, fewer[i].peer1));
                assert(in_memory(t1, edges[i].peer0) && in_memory(t1, edges[i].peer1));
                assert(in_memory(t2, edges[i].peer0) && in_memory(t2, edges[i].peer1));
            } else {
                assert(joined[sofar.len() as int] == edges[i]);
                assert(in_memory(t1, edge.peer0));
                assert(in_memory(t2, edge.peer0));
            }
        }
        joined
    }
}

/// Taking edges in on a working store. The table takes in all of them, and of the edges on disk those
/// that come back, and no others. The peers of the edges are in memory then. Of each of them that was on
/// disk before, every edge of its stored component is known, whatever the table knew at first.
pub proof fn law_peers_that_are_heard_of_come_back(
    table: TableState,
    disk: Disk,
    edges: Seq<Edge>,
    now: Time,
)
    requires
        table.valid(),
        forall|i: int| 0 <= i < edges.len() ==> (#[trigger] edges[i]).is_sound(),
        forall|nonce: u64, i: int|
            disk.component_edges.contains_key(nonce) && 0 <= i < disk.component_edges[nonce].len()
                ==> (#[trigger] disk.component_edges[nonce][i]).is_sound(),
    ensures
        ({
            let (after, changed, news) = processed_on(table, disk, edges, now);
            &&& exists|all: Seq<Edge>| #[trigger]
                took_in(table, after, all) && (forall|i: int|
                    0 <= i < edges.len() ==> all.contains(#[trigger] edges[i])) && (forall|e: Edge|
                 #[trigger]
                    all.contains(e) ==> edges.contains(e) || is_stored(disk, e))
            &&& knows_all(after, edges)
            &&& forall|i: int|
                0 <= i < edges.len() ==> in_memory(after, (#[trigger] edges[i]).peer0) && in_memory(
                    after,
                    edges[i].peer1,
                )
            &&& forall|p: PeerId| #[trigger]
                in_memory(after, p) && !in_memory(table, p) && disk.peer_component.contains_key(p)
                    && disk.component_edges.contains_key(disk.peer_component[p]) ==> knows_all(
                    after,
                    disk.component_edges[disk.peer_component[p]],
                )
            &&& forall|p: PeerId| #[trigger]
                in_memory(table, p) ==> in_memory(after, p)
        }),
{
    assert(stored_sound(disk)) by {
        assert forall|nonce: u64| #[trigger] disk.component_edges.contains_key(nonce) implies all_sound(
            disk.component_edges[nonce],
        ) by {
            let stored = disk.component_edges[nonce];
            assert forall|i: int| 0 <= i < stored.len() implies (#[trigger] stored[i]).is_sound() by {
                assert(disk.component_edges[nonce][i].is_sound());
            }
        }
    }
    let all = lemma_processed_on_the_way(table, disk, edges, now);
    let (after, changed, news) = processed_on(table, disk, edges, now);
    assert(took_in(table, after, all));
    assert forall|i: int| 0 <= i < edges.len() && (#[trigger] edges[i]).nonce > 0 implies {
        let pair = (edges[i].peer0, edges[i].peer1);
        after.edges.contains_key(pair) && after.edges[pair].nonce >= edges[i].nonce
    } by {
        let j = choose|j: int| 0 <= j < all.len() && all[j] == edges[i];
        assert(all[j].nonce > 0);
    }
    assert forall|p: PeerId| #[trigger]
        in_memory(after, p) && !in_memory(table, p) && disk.peer_component.contains_key(p)
            && disk.component_edges.contains_key(disk.peer_component[p]) implies knows_all(
        after,
        disk.component_edges[disk.peer_component[p]],
    ) by {
        assert(is_kept(table, disk, after, changed, p));
    }
}

} // verus!
