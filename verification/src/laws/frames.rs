//! What an operation leaves alone.
use crate::laws::way_back::with_route_back;
use crate::state::{ComponentReplies, TableState};
use crate::store::StoreReply;
use crate::types::{Announcement, CryptoHash, Edge, PeerId, PeerIdOrHash, Ping, Pong, Time};
use vstd::prelude::*;

verus! {

/// A report about an edge touches the network and the known edges only.
pub proof fn law_edge_leaves_the_rest(table: TableState, edge: Edge)
    ensures
        ({
            let after = table.with_edge(edge);
            after == (TableState { topology: after.topology, edges: after.edges, ..table })
        }),
        table.with_edge(edge).topology.source == table.topology.source,
{
}

/// Recalculating the routes touches the routes and the times only.
pub proof fn law_routes_leave_the_rest(table: TableState, now: Time)
    ensures
        ({
            let after = table.with_routes(now);
            after == (TableState { forwarding: after.forwarding, times: after.times, ..table })
        }),
{
}

/// Saving peers touches the times, the known edges and the nonce only.
pub proof fn law_save_leaves_the_rest(table: TableState, now: Time)
    ensures
        ({
            let after = table.with_save(now);
            after == (TableState {
                times: after.times,
                edges: after.edges,
                component_nonce: after.component_nonce,
                ..table
            })
        }),
{
}

proof fn lemma_restored_leaves_the_rest(
    table: TableState,
    nonce: u64,
    edges: Seq<Edge>,
    endpoints: Seq<(StoreReply<u64>, StoreReply<u64>)>,
    now: Time,
    n: nat,
)
    ensures
        ({
            let after = table.restored(nonce, edges, endpoints, now, n).0;
            &&& after == (TableState {
                topology: after.topology,
                edges: after.edges,
                times: after.times,
                ..table
            })
            &&& after.topology.source == table.topology.source
        }),
    decreases n,
{
    if n > 0 {
        lemma_restored_leaves_the_rest(table, nonce, edges, endpoints, now, (n - 1) as nat);
    }
}

/// Looking for a peer on disk touches the network, the known edges and the times only.
pub proof fn law_touch_leaves_the_rest(
    table: TableState,
    peer: PeerId,
    replies: ComponentReplies,
    now: Time,
)
    ensures
        ({
            let after = table.with_touch(peer, replies, now).0;
            &&& after == (TableState {
                topology: after.topology,
                edges: after.edges,
                times: after.times,
                ..table
            })
            &&& after.topology.source == table.topology.source
        }),
{
    if let StoreReply::Found(nonce) = replies.nonce {
        if let StoreReply::Found(edges) = replies.edges {
            lemma_restored_leaves_the_rest(
                table,
                nonce,
                edges,
                replies.endpoints,
                now,
                edges.len(),
            );
        }
    }
}

/// Finding a route to a peer touches the counts of next hops only, and finding a way back touches the
/// ways back only. What cannot be found changes no count.
pub proof fn law_finding_a_route_leaves_the_rest(
    table: TableState,
    peer: PeerId,
    hash: CryptoHash,
    now: u64,
)
    ensures
        ({
            let after = table.with_route(PeerIdOrHash::PeerId(peer), now);
            after == (TableState { nonces: after.nonces, ..table })
        }),
        table.route(PeerIdOrHash::PeerId(peer), now) == table.route_to(peer),
        table.with_route(PeerIdOrHash::PeerId(peer), now) == table.with_route_to(peer),
        !(table.forwarding.contains_key(peer) && table.forwarding[peer].len() > 0)
            ==> table.with_route_to(peer) == table,
        ({
            let after = table.with_route(PeerIdOrHash::Hash(hash), now);
            after == (TableState { route_back: after.route_back, ..table })
        }),
{
    assert(table.with_route_to(peer) =~= (TableState {
        nonces: table.with_route_to(peer).nonces,
        ..table
    }));
}

/// Remembering or looking up accounts, ways back, pings and pongs each touches its own part only.
pub proof fn law_the_parts_are_apart(
    table: TableState,
    announce: Announcement,
    account_id: Seq<char>,
    reply: StoreReply<Announcement>,
    hash: CryptoHash,
    peer: PeerId,
    now: u64,
    ping: Ping,
    pong: Pong,
    nonce: usize,
)
    ensures
        ({
            let after = table.with_account(announce);
            after == (TableState { accounts: after.accounts, ..table })
        }),
        ({
            let after = table.with_lookup(account_id, reply);
            after == (TableState { accounts: after.accounts, ..table })
        }),
        ({
            let after = with_route_back(table, hash, peer, now);
            after == (TableState { route_back: after.route_back, ..table })
        }),
        ({
            let after = table.with_ping(ping);
            after == (TableState { pings: after.pings, ..table })
        }),
        ({
            let after = table.with_pong(pong);
            after == (TableState { waiting: after.waiting, pongs: after.pongs, ..table })
        }),
        ({
            let after = table.with_sent_ping(nonce, peer, now);
            after == (TableState { waiting: after.waiting, ..table })
        }),
        ({
            let after = table.with_next_ping(peer);
            after == (TableState { last_pings: after.last_pings, ..table })
        }),
{
}

} // verus!
