//! What a routing table knows, and how each event changes it.
use crate::clock::{whole_seconds, NANOS_PER_SECOND};
use crate::lru::{bounded, deleted, has_key, lookup, stored, touched, touched_all};
use crate::route_back::RouteBacks;
use crate::store::{Disk, StoreChange, StoreReply};
use crate::topology::{Topology, MAX_KNOWN_PEERS};
use crate::types::{
    key_before, Announcement, Edge, FindRouteError, PeerId, PeerIdOrHash, Ping, Pong, Time,
};
use vstd::prelude::*;

verus! {

/// Known peers are moved to disk once one of them was out of reach for this many seconds.
pub const SAVE_PEERS_MAX_TIME: u32 = 7_200;

/// When peers are moved to disk, those go that were out of reach for this many seconds.
pub const SAVE_PEERS_AFTER_TIME: u32 = 3_600;

pub const ANNOUNCE_ACCOUNT_CACHE_SIZE: usize = 10_000;

pub const ROUTE_BACK_CACHE_SIZE: u64 = 100_000;

/// In milliseconds.
pub const ROUTE_BACK_CACHE_EVICT_TIMEOUT: u64 = 120_000;

pub const ROUTE_BACK_CACHE_REMOVE_BATCH: u64 = 100;

pub const PING_PONG_CACHE_SIZE: usize = 1_000;

/// How many unanswered pings are remembered for one peer.
pub const PENDING_PINGS_PER_PEER: usize = 10;

pub const ROUND_ROBIN_MAX_NONCE_DIFFERENCE_ALLOWED: usize = 10;

pub const ROUND_ROBIN_NONCE_CACHE_SIZE: usize = 10_000;

/// The replies of the store about the component of one peer.
#[verifier::ext_equal]
pub struct ComponentReplies {
    /// The nonce of the component where the peer was stored.
    pub nonce: StoreReply<u64>,
    /// The edges of the component with that nonce.
    pub edges: StoreReply<Seq<Edge>>,
    /// For each of these edges the component of its first and of its second peer.
    pub endpoints: Seq<(StoreReply<u64>, StoreReply<u64>)>,
}

impl ComponentReplies {
    /// Each edge is sound and comes with the components of its peers.
    pub open spec fn valid(self) -> bool {
        self.edges matches StoreReply::Found(edges) ==> {
            &&& self.endpoints.len() == edges.len()
            &&& forall|i: int| 0 <= i < edges.len() ==> (#[trigger] edges[i]).is_sound()
        }
    }

    /// How many edges may come back.
    pub open spec fn edge_count(self) -> nat {
        match self.edges {
            StoreReply::Found(edges) => edges.len(),
            _ => 0,
        }
    }
}

/// Edges that are being taken in.
#[verifier::ext_equal]
pub struct BatchState {
    /// Those that are left.
    pub edges: Seq<Edge>,
    /// How many peers of the first one were looked for on disk.
    pub touched: nat,
    /// Some edge was news.
    pub new_edge: bool,
}

/// How far a batch of edges got.
#[verifier::ext_equal]
pub enum BatchStep {
    /// The peer is to be looked for on disk, then the batch goes on.
    Touch(PeerId, BatchState),
    /// All edges are taken in.
    Done(bool),
}

/// Everything that a routing table knows.
#[verifier::ext_equal]
pub struct TableState {
    /// Peers and active connections.
    pub topology: Topology,
    /// For each reachable peer, the neighbors on a shortest way to it.
    pub forwarding: Map<PeerId, Seq<PeerId>>,
    /// Last update for known edges.
    pub edges: Map<(PeerId, PeerId), Edge>,
    /// Last time a peer was reachable through active edges.
    pub times: Map<PeerId, Time>,
    /// The nonce under which the next component goes to disk.
    pub component_nonce: u64,
    pub route_back: RouteBacks,
    /// Announcements by account. Here and below the most recently used entry comes first.
    pub accounts: Seq<(Seq<char>, Announcement)>,
    /// How often each neighbor was used as next hop.
    pub nonces: Seq<(PeerId, usize)>,
    pub pings: Seq<(usize, (u64, PeerId))>,
    pub pongs: Seq<(usize, (u64, PeerId))>,
    /// Sending times of pings without an answer.
    pub waiting: Seq<(PeerId, (Seq<(usize, u64)>, nat))>,
    /// Next nonce of a ping to each peer.
    pub last_pings: Seq<(PeerId, usize)>,
}

impl TableState {
    /// The network is one, the node itself is never out of reach, and every cache is within its limit
    /// and has one entry for each key.
    pub open spec fn valid(self) -> bool {
        &&& self.topology.valid()
        &&& !self.times.contains_key(self.topology.source)
        &&& self.route_back.valid()
        &&& bounded(self.accounts, ANNOUNCE_ACCOUNT_CACHE_SIZE as nat)
        &&& forall|i: int|
            0 <= i < self.accounts.len() ==> (#[trigger] self.accounts[i]).1.account_id
                == self.accounts[i].0
        &&& bounded(self.nonces, ROUND_ROBIN_NONCE_CACHE_SIZE as nat)
        &&& bounded(self.pings, PING_PONG_CACHE_SIZE as nat)
        &&& bounded(self.pongs, PING_PONG_CACHE_SIZE as nat)
        &&& bounded(self.waiting, PING_PONG_CACHE_SIZE as nat)
        &&& forall|i: int|
            0 <= i < self.waiting.len() ==> (#[trigger] self.waiting[i]).1.1
                == PENDING_PINGS_PER_PEER && bounded(
                self.waiting[i].1.0,
                PENDING_PINGS_PER_PEER as nat,
            )
        &&& bounded(self.last_pings, PING_PONG_CACHE_SIZE as nat)
    }

    /// A table of the source alone.
    pub open spec fn fresh(source: PeerId, component_nonce: u64) -> TableState {
        TableState {
            topology: Topology::alone(source),
            forwarding: Map::empty(),
            edges: Map::empty(),
            times: Map::empty(),
            component_nonce,
            route_back: RouteBacks {
                capacity: ROUTE_BACK_CACHE_SIZE,
                evict_timeout: ROUTE_BACK_CACHE_EVICT_TIMEOUT,
                remove_batch: ROUTE_BACK_CACHE_REMOVE_BATCH,
                records: Map::empty(),
            },
            accounts: Seq::empty(),
            nonces: Seq::empty(),
            pings: Seq::empty(),
            pongs: Seq::empty(),
            waiting: Seq::empty(),
            last_pings: Seq::empty(),
        }
    }
}

/// Edges.
impl TableState {
    /// The nonce of the last update of an edge; zero if there was none.
    pub open spec fn find_nonce(self, pair: (PeerId, PeerId)) -> u64 {
        if self.edges.contains_key(pair) {
            self.edges[pair].nonce
        } else {
            0
        }
    }

    /// `edge` is newer than what is known.
    pub open spec fn is_news(self, edge: Edge) -> bool {
        self.find_nonce(edge.pair()) < edge.nonce
    }

    /// There are ids for the peers of so many edges.
    pub open spec fn has_room_for(self, edges: nat) -> bool {
        self.topology.links.len() + 2 * edges <= MAX_KNOWN_PEERS
    }

    pub open spec fn with_edge(self, edge: Edge) -> TableState {
        if self.is_news(edge) {
            TableState {
                topology: if edge.is_added() {
                    self.topology.add_edge(edge.peer0, edge.peer1)
                } else {
                    self.topology.remove_edge(edge.peer0, edge.peer1)
                },
                edges: self.edges.insert(edge.pair(), edge),
                ..self
            }
        } else {
            self
        }
    }

    /// Each known edge names the smaller peer first, is known under its own peers, has changed at
    /// least once, and is linked in the network exactly while it is up.
    pub open spec fn truthful(self) -> bool {
        forall|pair: (PeerId, PeerId)| #[trigger]
            self.edges.contains_key(pair) ==> {
                &&& self.edges[pair].is_ordered()
                &&& self.edges[pair].pair() == pair
                &&& self.edges[pair].nonce > 0
                &&& self.edges[pair].is_added() <==> self.topology.contains_edge(pair.0, pair.1)
            }
    }

    /// `peer` may be on disk.
    pub open spec fn is_untouched(self, peer: PeerId) -> bool {
        peer != self.topology.source && !self.times.contains_key(peer)
    }

    pub open spec fn with_time(self, peer: PeerId, time: Time) -> TableState {
        TableState { times: self.times.insert(peer, time), ..self }
    }

    /// After a batch of edges was taken in as far as that goes without the disk.
    pub open spec fn with_batch(self, batch: BatchState) -> (TableState, BatchStep)
        decreases batch.edges.len(), 2 - batch.touched,
    {
        if batch.edges.len() == 0 {
            (self, BatchStep::Done(batch.new_edge))
        } else {
            let edge = batch.edges[0];
            if batch.touched < 2 {
                let peer = if batch.touched == 0 {
                    edge.peer0
                } else {
                    edge.peer1
                };
                let rest = BatchState { touched: batch.touched + 1, ..batch };
                if self.is_untouched(peer) {
                    (self, BatchStep::Touch(peer, rest))
                } else {
                    self.with_batch(rest)
                }
            } else {
                self.with_edge(edge).with_batch(
                    BatchState {
                        edges: batch.edges.skip(1),
                        touched: 0,
                        new_edge: batch.new_edge || self.is_news(edge),
                    },
                )
            }
        }
    }

    /// `peer` comes back with the component it was stored in.
    pub open spec fn comes_back(self, peer: PeerId, component: StoreReply<u64>, nonce: u64) -> bool {
        self.is_untouched(peer) && component == StoreReply::Found(nonce)
    }

    pub open spec fn with_peer_back(
        self,
        peer: PeerId,
        component: StoreReply<u64>,
        nonce: u64,
        now: Time,
    ) -> TableState {
        if self.comes_back(peer, component, nonce) {
            self.with_time(peer, (now - SAVE_PEERS_MAX_TIME * NANOS_PER_SECOND) as Time)
        } else {
            self
        }
    }

    pub open spec fn back_changes(
        self,
        peer: PeerId,
        component: StoreReply<u64>,
        nonce: u64,
    ) -> Seq<StoreChange> {
        if self.comes_back(peer, component, nonce) {
            seq![StoreChange::DeletePeerComponent(peer)]
        } else {
            seq![]
        }
    }

    /// After the first `n` edges of a component came back, and what is to be taken off the disk.
    pub open spec fn restored(
        self,
        nonce: u64,
        edges: Seq<Edge>,
        endpoints: Seq<(StoreReply<u64>, StoreReply<u64>)>,
        now: Time,
        n: nat,
    ) -> (TableState, Seq<StoreChange>)
        decreases n,
    {
        if n == 0 {
            (self, seq![StoreChange::DeleteComponentEdges(nonce)])
        } else {
            let (s0, changes) = self.restored(nonce, edges, endpoints, now, (n - 1) as nat);
            let edge = edges[n - 1];
            let (c0, c1) = endpoints[n - 1];
            let s1 = s0.with_peer_back(edge.peer0, c0, nonce, now);
            let s2 = s1.with_peer_back(edge.peer1, c1, nonce, now);
            (
                s2.with_edge(edge),
                changes + s0.back_changes(edge.peer0, c0, nonce) + s1.back_changes(
                    edge.peer1,
                    c1,
                    nonce,
                ),
            )
        }
    }

    /// The edges of a component brought their peers back. If the peer that was looked for is not
    /// among them, it comes back alone.
    pub open spec fn with_sought(self, peer: PeerId, changes: Seq<StoreChange>, now: Time) -> (
        TableState,
        Seq<StoreChange>,
    ) {
        if self.is_untouched(peer) {
            (
                self.with_time(peer, (now - SAVE_PEERS_MAX_TIME * NANOS_PER_SECOND) as Time),
                changes.push(StoreChange::DeletePeerComponent(peer)),
            )
        } else {
            (self, changes)
        }
    }

    /// After `peer` was looked for on disk, and what is to be taken off the disk.
    pub open spec fn with_touch(self, peer: PeerId, replies: ComponentReplies, now: Time) -> (
        TableState,
        Seq<StoreChange>,
    ) {
        if !self.is_untouched(peer) {
            (self, seq![])
        } else {
            match replies.nonce {
                StoreReply::Found(nonce) => {
                    let (back, taken) = match replies.edges {
                        StoreReply::Found(edges) => self.restored(
                            nonce,
                            edges,
                            replies.endpoints,
                            now,
                            edges.len(),
                        ),
                        _ => (self, seq![StoreChange::DeleteComponentEdges(nonce)]),
                    };
                    back.with_sought(peer, taken, now)
                },
                _ => (self.with_time(peer, now), seq![]),
            }
        }
    }
}

/// The table of routes and the disk.
impl TableState {
    /// For how many seconds a peer has been out of reach.
    pub open spec fn silence(self, peer: PeerId, now: Time) -> int {
        whole_seconds(now - self.times[peer])
    }

    /// The peers that go to disk when peers are saved.
    pub open spec fn to_save(self, now: Time) -> Set<PeerId> {
        self.times.dom().filter(|peer: PeerId| self.silence(peer, now) >= SAVE_PEERS_AFTER_TIME)
    }

    /// Some peer was out of reach for so long that peers are to be saved.
    pub open spec fn save_is_due(self, now: Time) -> bool {
        exists|peer: PeerId| #[trigger]
            self.times.contains_key(peer) && self.silence(peer, now) >= SAVE_PEERS_MAX_TIME
    }

    /// The edges with a peer out of `peers`.
    pub open spec fn edges_at(self, peers: Set<PeerId>) -> Map<(PeerId, PeerId), Edge> {
        self.edges.restrict(
            self.edges.dom().filter(
                |pair: (PeerId, PeerId)| peers.contains(pair.0) || peers.contains(pair.1),
            ),
        )
    }

    /// Some known edge has the peer at one end.
    pub open spec fn has_edge(self, peer: PeerId) -> bool {
        exists|pair: (PeerId, PeerId)| #[trigger]
            self.edges.contains_key(pair) && (pair.0 == peer || pair.1 == peer)
    }

    /// Every component on disk has an earlier nonce than the next one will get.
    pub open spec fn is_ahead_of(self, disk: Disk) -> bool {
        &&& forall|peer: PeerId| #[trigger]
            disk.peer_component.contains_key(peer) ==> disk.peer_component[peer]
                < self.component_nonce
        &&& forall|nonce: u64| #[trigger]
            disk.component_edges.contains_key(nonce) ==> nonce < self.component_nonce
    }

    /// After `peers` and their edges went to disk.
    pub open spec fn without_saved(self, peers: Set<PeerId>) -> TableState {
        TableState {
            times: self.times.remove_keys(peers),
            edges: self.edges.remove_keys(self.edges_at(peers).dom()),
            component_nonce: (self.component_nonce + 1) as u64,
            ..self
        }
    }

    /// After peers were saved, if that was due.
    pub open spec fn with_save(self, now: Time) -> TableState {
        if self.save_is_due(now) {
            self.without_saved(self.to_save(now))
        } else {
            self
        }
    }

    /// `changes` put the peers to save and their edges on disk, under the nonce of the component.
    /// Peers and edges are each listed once, in any order.
    pub open spec fn saves(self, now: Time, changes: Seq<StoreChange>) -> bool {
        exists|peers: Seq<PeerId>, pairs: Seq<(PeerId, PeerId)>| #[trigger]
            self.saves_in_order(now, changes, peers, pairs)
    }

    pub open spec fn saves_in_order(
        self,
        now: Time,
        changes: Seq<StoreChange>,
        peers: Seq<PeerId>,
        pairs: Seq<(PeerId, PeerId)>,
    ) -> bool {
        &&& peers.no_duplicates()
        &&& peers.to_set() == self.to_save(now)
        &&& pairs.no_duplicates()
        &&& pairs.to_set() == self.edges_at(self.to_save(now)).dom()
        &&& changes == save_changes(
            self.component_nonce,
            peers,
            Seq::new(pairs.len(), |i: int| self.edges[pairs[i]]),
        )
    }

    /// After the routes were recalculated.
    pub open spec fn with_routes(self, now: Time) -> TableState {
        let routes = self.topology.routes();
        TableState {
            forwarding: routes,
            times: self.times.union_prefer_right(
                Map::new(|peer: PeerId| routes.contains_key(peer), |peer: PeerId| now),
            ),
            ..self
        }
    }
}

/// What a working store says of the component of a peer.
pub open spec fn replies_of(disk: Disk, peer: PeerId) -> ComponentReplies {
    let nonce = disk.peer_component_reply(peer);
    let edges = match nonce {
        StoreReply::Found(nonce) => disk.component_edges_reply(nonce),
        _ => StoreReply::Missing,
    };
    ComponentReplies {
        nonce,
        edges,
        endpoints: match edges {
            StoreReply::Found(edges) => Seq::new(
                edges.len(),
                |i: int| (
                    disk.peer_component_reply(edges[i].peer0),
                    disk.peer_component_reply(edges[i].peer1),
                ),
            ),
            _ => Seq::empty(),
        },
    }
}

/// After a peer was looked for on disk by a node with a working store: the table and the disk.
pub open spec fn touched_on(table: TableState, disk: Disk, peer: PeerId, now: Time) -> (
    TableState,
    Disk,
) {
    let (after, taken) = table.with_touch(peer, replies_of(disk, peer), now);
    (after, disk.updated(taken))
}

/// After a node with a working store took edges in one after the other: for each edge its two peers
/// are looked for on disk, then the edge is added. The table, the disk, and whether some edge was
/// news.
pub open spec fn processed_on(table: TableState, disk: Disk, edges: Seq<Edge>, now: Time) -> (
    TableState,
    Disk,
    bool,
)
    decreases edges.len(),
{
    if edges.len() == 0 {
        (table, disk, false)
    } else {
        let edge = edges.last();
        let (t0, d0, new_edge) = processed_on(table, disk, edges.drop_last(), now);
        let (t1, d1) = touched_on(t0, d0, edge.peer0, now);
        let (t2, d2) = touched_on(t1, d1, edge.peer1, now);
        (t2.with_edge(edge), d2, new_edge || t2.is_news(edge))
    }
}

/// The same, the way a caller of `process_edges` does it: whenever the batch asks for a peer, it is
/// looked for on disk, and then the batch goes on.
pub open spec fn stepped_on(table: TableState, disk: Disk, batch: BatchState, now: Time) -> (
    TableState,
    Disk,
    bool,
)
    decreases batch.edges.len(), 2 - batch.touched,
    via stepped_on_ends
{
    match table.with_batch(batch) {
        (after, BatchStep::Done(new_edge)) => (after, disk, new_edge),
        (after, BatchStep::Touch(peer, rest)) => {
            let (back, changed) = touched_on(after, disk, peer, now);
            stepped_on(back, changed, rest, now)
        },
    }
}

#[via_fn]
proof fn stepped_on_ends(table: TableState, disk: Disk, batch: BatchState, now: Time) {
    lemma_batch_shrinks(table, batch);
}

/// Each step of a batch leaves less to do.
proof fn lemma_batch_shrinks(table: TableState, batch: BatchState)
    ensures
        table.with_batch(batch).1 matches BatchStep::Touch(_, rest) ==> rest.edges.len()
            < batch.edges.len() || (rest.edges.len() == batch.edges.len() && batch.touched
            < rest.touched <= 2),
    decreases batch.edges.len(), 2 - batch.touched,
{
    if batch.edges.len() > 0 {
        let edge = batch.edges[0];
        if batch.touched < 2 {
            let peer = if batch.touched == 0 {
                edge.peer0
            } else {
                edge.peer1
            };
            if !table.is_untouched(peer) {
                lemma_batch_shrinks(table, BatchState { touched: batch.touched + 1, ..batch });
            }
        } else {
            lemma_batch_shrinks(
                table.with_edge(edge),
                BatchState {
                    edges: batch.edges.skip(1),
                    touched: 0,
                    new_edge: batch.new_edge || table.is_news(edge),
                },
            );
        }
    }
}

/// The changes that put a component on disk.
pub open spec fn save_changes(nonce: u64, peers: Seq<PeerId>, edges: Seq<Edge>) -> Seq<StoreChange> {
    seq![StoreChange::SetLastComponentNonce(nonce)] + Seq::new(
        peers.len(),
        |i: int| StoreChange::SetPeerComponent(peers[i], nonce),
    ) + seq![StoreChange::SetComponentEdges(nonce, edges)]
}

/// Next hops.
impl TableState {
    /// How often `peer` was used as next hop.
    pub open spec fn uses(self, peer: PeerId) -> usize {
        match lookup(self.nonces, peer) {
            Some(nonce) => nonce,
            None => 0,
        }
    }

    /// `a` comes before `b` in the choice of a next hop.
    pub open spec fn preferred(self, a: PeerId, b: PeerId) -> bool {
        self.uses(a) < self.uses(b) || (self.uses(a) == self.uses(b) && key_before(a, b))
    }

    pub open spec fn is_least_used(self, routes: Seq<PeerId>, hop: PeerId) -> bool {
        &&& routes.contains(hop)
        &&& forall|other: PeerId| #[trigger]
            routes.contains(other) && other != hop ==> self.preferred(hop, other)
    }

    pub open spec fn is_most_uses(self, routes: Seq<PeerId>, uses: usize) -> bool {
        &&& exists|hop: PeerId| #[trigger] routes.contains(hop) && self.uses(hop) == uses
        &&& forall|hop: PeerId| #[trigger] routes.contains(hop) ==> self.uses(hop) <= uses
    }

    pub open spec fn least_used(self, routes: Seq<PeerId>) -> PeerId {
        choose|hop: PeerId| self.is_least_used(routes, hop)
    }

    pub open spec fn most_uses(self, routes: Seq<PeerId>) -> usize {
        choose|uses: usize| self.is_most_uses(routes, uses)
    }

    /// One more use can be counted on the way to `peer`.
    pub open spec fn can_count_use(self, peer: PeerId) -> bool {
        self.forwarding.contains_key(peer) && self.forwarding[peer].len() > 0 ==> exists|hop: PeerId|
         #[trigger]
            self.forwarding[peer].contains(hop) && self.uses(hop) < usize::MAX
    }

    /// The uses of a hop that is too far behind are brought up to the most uses less a threshold.
    pub open spec fn nonces_caught_up(self, routes: Seq<PeerId>) -> Seq<(PeerId, usize)> {
        let seen = touched_all(self.nonces, routes);
        let hop = self.least_used(routes);
        let most = self.most_uses(routes);
        if self.uses(hop) + ROUND_ROBIN_MAX_NONCE_DIFFERENCE_ALLOWED < most {
            stored(
                seen,
                ROUND_ROBIN_NONCE_CACHE_SIZE as nat,
                hop,
                (most - ROUND_ROBIN_MAX_NONCE_DIFFERENCE_ALLOWED) as usize,
            )
        } else {
            seen
        }
    }

    /// Then the use is counted.
    pub open spec fn nonces_counted(self, routes: Seq<PeerId>) -> Seq<(PeerId, usize)> {
        let nonces = self.nonces_caught_up(routes);
        let hop = self.least_used(routes);
        stored(
            touched(nonces, hop),
            ROUND_ROBIN_NONCE_CACHE_SIZE as nat,
            hop,
            match lookup(nonces, hop) {
                Some(nonce) => (nonce + 1) as usize,
                None => 1,
            },
        )
    }

    pub open spec fn route_to(self, peer: PeerId) -> Result<PeerId, FindRouteError> {
        if !self.forwarding.contains_key(peer) {
            Err(FindRouteError::PeerNotFound)
        } else if self.forwarding[peer].len() == 0 {
            Err(FindRouteError::Disconnected)
        } else {
            Ok(self.least_used(self.forwarding[peer]))
        }
    }

    pub open spec fn with_route_to(self, peer: PeerId) -> TableState {
        if self.route_to(peer) is Ok {
            TableState { nonces: self.nonces_counted(self.forwarding[peer]), ..self }
        } else {
            self
        }
    }

    pub open spec fn route(self, target: PeerIdOrHash, now: u64) -> Result<PeerId, FindRouteError> {
        match target {
            PeerIdOrHash::PeerId(peer) => self.route_to(peer),
            PeerIdOrHash::Hash(hash) => match self.route_back.without_expired(now).target(hash) {
                Some(peer) => Ok(peer),
                None => Err(FindRouteError::RouteBackNotFound),
            },
        }
    }

    pub open spec fn with_route(self, target: PeerIdOrHash, now: u64) -> TableState {
        match target {
            PeerIdOrHash::PeerId(peer) => self.with_route_to(peer),
            PeerIdOrHash::Hash(hash) => TableState {
                route_back: self.route_back.removed(hash, now),
                ..self
            },
        }
    }
}

/// Accounts.
impl TableState {
    pub open spec fn with_account(self, announce: Announcement) -> TableState {
        TableState {
            accounts: stored(
                self.accounts,
                ANNOUNCE_ACCOUNT_CACHE_SIZE as nat,
                announce.account_id,
                announce,
            ),
            ..self
        }
    }

    /// Every announcement on cache is on disk, too.
    pub open spec fn is_backed_by(self, disk: Disk) -> bool {
        forall|account_id: Seq<char>| #[trigger]
            lookup(self.accounts, account_id) matches Some(announce)
                ==> disk.announcements.contains_key(account_id) && disk.announcements[account_id]
                == announce
    }

    /// The announcement of an account: from the cache, or else from the store.
    pub open spec fn announcement(
        self,
        account_id: Seq<char>,
        reply: StoreReply<Announcement>,
    ) -> Option<Announcement> {
        match lookup(self.accounts, account_id) {
            Some(announce) => Some(announce),
            None => match reply {
                StoreReply::Found(announce) => Some(announce),
                _ => None,
            },
        }
    }

    /// Looking up an account moves it to the front of the cache, or brings it from the store.
    pub open spec fn with_lookup(
        self,
        account_id: Seq<char>,
        reply: StoreReply<Announcement>,
    ) -> TableState {
        let seen = TableState { accounts: touched(self.accounts, account_id), ..self };
        match (lookup(self.accounts, account_id), reply) {
            (None, StoreReply::Found(announce)) => seen.with_account(announce),
            _ => seen,
        }
    }

    /// An announcement that comes from the store is written there again.
    pub open spec fn lookup_changes(
        self,
        account_id: Seq<char>,
        reply: StoreReply<Announcement>,
    ) -> Seq<StoreChange> {
        match (lookup(self.accounts, account_id), reply) {
            (None, StoreReply::Found(announce)) => seq![StoreChange::SetAnnouncement(announce)],
            _ => seq![],
        }
    }
}

/// Pings by nonce.
pub open spec fn ping_map(entries: Seq<(usize, (u64, PeerId))>) -> Map<usize, Ping> {
    Map::new(
        |nonce: usize| has_key(entries, nonce),
        |nonce: usize| Ping {
            nonce: lookup(entries, nonce).unwrap().0,
            source: lookup(entries, nonce).unwrap().1,
        },
    )
}

/// Pongs by nonce.
pub open spec fn pong_map(entries: Seq<(usize, (u64, PeerId))>) -> Map<usize, Pong> {
    Map::new(
        |nonce: usize| has_key(entries, nonce),
        |nonce: usize| Pong {
            nonce: lookup(entries, nonce).unwrap().0,
            source: lookup(entries, nonce).unwrap().1,
        },
    )
}

/// Pings.
impl TableState {
    pub open spec fn with_ping(self, ping: Ping) -> TableState {
        TableState {
            pings: stored(
                self.pings,
                PING_PONG_CACHE_SIZE as nat,
                ping.nonce as usize,
                (ping.nonce, ping.source),
            ),
            ..self
        }
    }

    /// When the ping that a pong answers was sent.
    pub open spec fn sent_at(self, peer: PeerId, nonce: usize) -> Option<u64> {
        match lookup(self.waiting, peer) {
            Some((sent, limit)) => lookup(sent, nonce),
            None => None,
        }
    }

    pub open spec fn with_pong(self, pong: Pong) -> TableState {
        TableState {
            waiting: match lookup(self.waiting, pong.source) {
                Some((sent, limit)) => touched(self.waiting, pong.source).update(
                    0,
                    (pong.source, (deleted(sent, pong.nonce as usize), limit)),
                ),
                None => self.waiting,
            },
            pongs: stored(
                self.pongs,
                PING_PONG_CACHE_SIZE as nat,
                pong.nonce as usize,
                (pong.nonce, pong.source),
            ),
            ..self
        }
    }

    /// One more ping to `peer` can be waited for without giving up another one.
    pub open spec fn has_room_for_ping(self, peer: PeerId) -> bool {
        match lookup(self.waiting, peer) {
            Some((sent, limit)) => sent.len() < limit,
            None => self.waiting.len() < PING_PONG_CACHE_SIZE,
        }
    }

    /// `self` with a place for the pings to `peer`.
    pub open spec fn waiting_for(self, peer: PeerId) -> Seq<(PeerId, (Seq<(usize, u64)>, nat))> {
        if lookup(self.waiting, peer) is Some {
            self.waiting
        } else {
            stored(
                self.waiting,
                PING_PONG_CACHE_SIZE as nat,
                peer,
                (Seq::empty(), PENDING_PINGS_PER_PEER as nat),
            )
        }
    }

    pub open spec fn with_sent_ping(self, nonce: usize, peer: PeerId, now: u64) -> TableState {
        let waiting = self.waiting_for(peer);
        let (sent, limit) = lookup(waiting, peer).unwrap();
        TableState {
            waiting: touched(waiting, peer).update(0, (peer, (stored(sent, limit, nonce, now), limit))),
            ..self
        }
    }

    /// The nonce of the next ping to a peer.
    pub open spec fn next_ping(self, peer: PeerId) -> usize {
        match lookup(self.last_pings, peer) {
            Some(nonce) => nonce,
            None => 0,
        }
    }

    pub open spec fn with_next_ping(self, peer: PeerId) -> TableState {
        TableState {
            last_pings: match lookup(self.last_pings, peer) {
                Some(nonce) => touched(self.last_pings, peer).update(0, (peer, (nonce + 1) as usize)),
                None => stored(self.last_pings, PING_PONG_CACHE_SIZE as nat, peer, 1),
            },
            ..self
        }
    }
}

} // verus!
