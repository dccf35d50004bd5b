//! The routing table.
mod accounts;
mod edges;
mod pings;
mod routes;

pub use self::accounts::{announcement_option, announcement_reply};
pub use self::edges::{EdgeBatch, EdgeStep, StoredComponent};

use crate::caches::{
    account_entries, account_limit, accounts_with_size, counter_entries, counter_limit,
    counters_with_size, note_entries, note_limit, notes_with_size, waiting_entries, waiting_limit,
    waiting_with_size,
};
use crate::graph::{lists, Graph};
use crate::route_back::RouteBackCache;
use crate::state::{
    TableState, ANNOUNCE_ACCOUNT_CACHE_SIZE, PING_PONG_CACHE_SIZE, ROUND_ROBIN_NONCE_CACHE_SIZE,
    ROUTE_BACK_CACHE_EVICT_TIMEOUT, ROUTE_BACK_CACHE_REMOVE_BATCH, ROUTE_BACK_CACHE_SIZE,
};
use crate::store::StoreReply;
use crate::topology::MAX_KNOWN_PEERS;
use crate::types::{AccountId, AnnounceAccount, Edge, PeerId, Time};
use cached::SizedCache;
use std::collections::BTreeMap;
use vstd::prelude::*;

verus! {

broadcast use {vstd::laws_cmp::group_laws_cmp, vstd::std_specs::btree::group_btree_axioms};

pub struct RoutingTable {
    /// Active PeerId that are part of the shortest path to each PeerId.
    pub peer_forwarding: BTreeMap<PeerId, Vec<PeerId>>,
    /// Store last update for known edges.
    pub edges_info: BTreeMap<(PeerId, PeerId), Edge>,
    /// Hash of messages that requires routing back to respective previous hop.
    pub route_back: RouteBackCache,
    /// Last time a peer was reachable through active edges.
    pub peer_last_time_reachable: BTreeMap<PeerId, Time>,
    /// Next nonce to store edges on disk with.
    pub component_nonce: u64,
    /// The graph and the caches.
    pub internals: Internals,
}

/// What a table keeps to itself.
pub struct Internals {
    /// PeerId associated for every known account id.
    account_peers: SizedCache<AccountId, AnnounceAccount>,
    /// Current view of the network. Nodes are Peers and edges are active connections.
    raw_graph: Graph,
    /// Number of times each active connection was used to route a message.
    /// If there are several options use route with minimum nonce.
    /// New routes are added with minimum nonce.
    route_nonce: SizedCache<PeerId, usize>,
    /// Ping received by nonce.
    ping_info: SizedCache<usize, (u64, PeerId)>,
    /// Pong received by nonce.
    pong_info: SizedCache<usize, (u64, PeerId)>,
    /// List of pings sent for which we haven't received any pong yet.
    waiting_pong: SizedCache<PeerId, SizedCache<usize, u64>>,
    /// Last nonce sent to each peer through pings.
    last_ping_nonce: SizedCache<PeerId, usize>,
}

impl View for RoutingTable {
    type V = TableState;

    closed spec fn view(&self) -> TableState {
        TableState {
            topology: self.internals.raw_graph@,
            forwarding: lists(self.peer_forwarding@),
            edges: self.edges_info@,
            times: self.peer_last_time_reachable@,
            component_nonce: self.component_nonce,
            route_back: self.route_back@,
            accounts: account_entries(self.internals.account_peers),
            nonces: counter_entries(self.internals.route_nonce),
            pings: note_entries(self.internals.ping_info),
            pongs: note_entries(self.internals.pong_info),
            waiting: waiting_entries(self.internals.waiting_pong),
            last_pings: counter_entries(self.internals.last_ping_nonce),
        }
    }
}

impl RoutingTable {
    /// The table is coherent and its caches have the sizes they are meant to have.
    pub closed spec fn wf(self) -> bool {
        &&& self.internals.raw_graph.wf()
        &&& self@.valid()
        &&& account_limit(self.internals.account_peers) == ANNOUNCE_ACCOUNT_CACHE_SIZE
        &&& counter_limit(self.internals.route_nonce) == ROUND_ROBIN_NONCE_CACHE_SIZE
        &&& note_limit(self.internals.ping_info) == PING_PONG_CACHE_SIZE
        &&& note_limit(self.internals.pong_info) == PING_PONG_CACHE_SIZE
        &&& waiting_limit(self.internals.waiting_pong) == PING_PONG_CACHE_SIZE
        &&& counter_limit(self.internals.last_ping_nonce) == PING_PONG_CACHE_SIZE
    }

    /// What holds of all that a table knows.
    pub proof fn lemma_valid(self)
        requires
            self.wf(),
        ensures
            self@.valid(),
            self@.topology.links.len() <= MAX_KNOWN_PEERS,
    {
        self.internals.raw_graph.lemma_valid();
    }

    /// The public fields are parts of the view.
    pub proof fn lemma_fields(self)
        ensures
            self@.forwarding == lists(self.peer_forwarding@),
            self@.edges == self.edges_info@,
            self@.times == self.peer_last_time_reachable@,
            self@.route_back == self.route_back@,
            self@.component_nonce == self.component_nonce,
            forall|p: PeerId| #[trigger]
                self@.forwarding.contains_key(p) <==> self.peer_forwarding@.contains_key(p),
            forall|p: PeerId| #[trigger]
                self@.forwarding.contains_key(p) ==> self@.forwarding[p]
                    == self.peer_forwarding@[p]@,
    {
    }

    /// Whether there are ids for the peers of so many edges.
    pub fn has_room_for(&self, edges: usize) -> (res: bool)
        requires
            self.wf(),
        ensures
            res == self@.has_room_for(edges as nat),
            res == (self@.topology.links.len() + 2 * edges <= 4_294_967_296),
    {
        let left: u64 = MAX_KNOWN_PEERS - self.internals.raw_graph.known_peers();
        edges as u64 <= left / 2
    }

    /// A table that knows of `peer_id` alone. `last_component_nonce` is the greatest component
    /// nonce on disk; the next component gets the nonce after it.
    pub fn new(peer_id: PeerId, last_component_nonce: StoreReply<u64>) -> (res: Self)
        requires
            last_component_nonce matches StoreReply::Found(nonce) ==> nonce < u64::MAX,
        ensures
            res.wf(),
            res@ == TableState::fresh(
                peer_id,
                match last_component_nonce {
                    StoreReply::Found(nonce) => (nonce + 1) as u64,
                    _ => 0,
                },
            ),
    {
        let component_nonce: u64 = match last_component_nonce {
            StoreReply::Found(nonce) => nonce + 1,
            _ => 0,
        };
        let res = RoutingTable {
            peer_forwarding: BTreeMap::new(),
            edges_info: BTreeMap::new(),
            route_back: RouteBackCache::new(
                ROUTE_BACK_CACHE_SIZE,
                ROUTE_BACK_CACHE_EVICT_TIMEOUT,
                ROUTE_BACK_CACHE_REMOVE_BATCH,
            ),
            peer_last_time_reachable: BTreeMap::new(),
            component_nonce,
            internals: Internals {
                account_peers: accounts_with_size(ANNOUNCE_ACCOUNT_CACHE_SIZE),
                raw_graph: Graph::new(peer_id),
                route_nonce: counters_with_size(ROUND_ROBIN_NONCE_CACHE_SIZE),
                ping_info: notes_with_size(PING_PONG_CACHE_SIZE),
                pong_info: notes_with_size(PING_PONG_CACHE_SIZE),
                waiting_pong: waiting_with_size(PING_PONG_CACHE_SIZE),
                last_ping_nonce: counters_with_size(PING_PONG_CACHE_SIZE),
            },
        };
        assert(res@.forwarding =~= Map::empty());
        proof {
            res.internals.raw_graph.lemma_valid();
        }
        res
    }

    /// The peer that this table belongs to.
    pub fn peer_id(&self) -> (res: &PeerId)
        ensures
            *res == self@.topology.source,
    {
        self.internals.raw_graph.source()
    }

    /// Parts that a method leaves alone.
    spec fn same_but_edges(self, other: RoutingTable) -> bool {
        &&& self.internals.account_peers == other.internals.account_peers
        &&& self.peer_forwarding == other.peer_forwarding
        &&& self.route_back == other.route_back
        &&& self.internals.route_nonce == other.internals.route_nonce
        &&& self.internals.ping_info == other.internals.ping_info
        &&& self.internals.pong_info == other.internals.pong_info
        &&& self.internals.waiting_pong == other.internals.waiting_pong
        &&& self.internals.last_ping_nonce == other.internals.last_ping_nonce
    }
}

} // verus!
