//! Edges, and the components that wait on disk.
use super::RoutingTable;
use crate::clock::{seconds_before, seconds_since, whole_seconds, NANOS_PER_SECOND};
use crate::graph::lists;
use crate::laws::routes::law_routes_have_hops;
use crate::sequences::lemma_push_contains;
use crate::state::{
    save_changes, BatchState, BatchStep, ComponentReplies, SAVE_PEERS_AFTER_TIME,
    SAVE_PEERS_MAX_TIME,
};
use crate::store::{StoreChange, StoreOp, StoreReply, StoreUpdate};
use crate::tables::{keys_of, lists_all};
use crate::topology::{lemma_known_after, MAX_KNOWN_PEERS};
use crate::types::{same_key, Edge, EdgeType, PeerId, ProcessEdgeResult, Time};
use std::collections::{BTreeMap, BTreeSet};
use vstd::prelude::*;

verus! {

broadcast use {vstd::laws_cmp::group_laws_cmp, vstd::std_specs::btree::group_btree_axioms};

/// What the store holds about the component of one peer.
pub struct StoredComponent {
    /// The nonce of the component where the peer was stored.
    pub nonce: StoreReply<u64>,
    /// The edges of the component with that nonce.
    pub edges: StoreReply<Vec<Edge>>,
    /// For each of these edges the component of its first and of its second peer.
    pub endpoints: Vec<(StoreReply<u64>, StoreReply<u64>)>,
}

impl View for StoredComponent {
    type V = ComponentReplies;

    open spec fn view(&self) -> ComponentReplies {
        ComponentReplies {
            nonce: self.nonce,
            edges: match self.edges {
                StoreReply::Found(edges) => StoreReply::Found(edges@),
                StoreReply::Missing => StoreReply::Missing,
                StoreReply::Failed => StoreReply::Failed,
            },
            endpoints: self.endpoints@,
        }
    }
}

/// Get the nonce of the component where a peer was stored, out of the reply of the store.
fn component_nonce(reply: &StoreReply<u64>) -> (res: Result<u64, ()>)
    ensures
        match res {
            Ok(nonce) => *reply == StoreReply::Found(nonce),
            Err(_) => !(*reply is Found),
        },
{
    match reply {
        StoreReply::Found(nonce) => Ok(*nonce),
        _ => Err(()),
    }
}

/// Get all edges in the component with `nonce`, out of the reply of the store. Remove those edges
/// from the store.
fn component_edges(nonce: u64, reply: StoreReply<Vec<Edge>>, update: &mut StoreUpdate) -> (res: Result<
    Vec<Edge>,
    (),
>)
    ensures
        final(update)@ == old(update)@.push(StoreChange::DeleteComponentEdges(nonce)),
        match res {
            Ok(edges) => reply == StoreReply::Found(edges),
            Err(_) => !(reply is Found),
        },
{
    update.push(StoreOp::DeleteComponentEdges(nonce));
    match reply {
        StoreReply::Found(edges) => Ok(edges),
        _ => Err(()),
    }
}

/// An edge brings at most two peers that were not known.
proof fn lemma_room_for_edge(table: RoutingTable, edge: Edge)
    requires
        table.wf(),
    ensures
        table@.with_edge(edge).topology.links.len() <= table@.topology.links.len() + 2,
{
    table.lemma_valid();
    let g = table@.topology;
    assert(g.contains_edge(edge.peer0, edge.peer1) == g.contains_edge(edge.peer1, edge.peer0));
    lemma_known_after(g, edge.peer0, edge.peer1);
}

impl RoutingTable {
    /// The nonce of the last update of an edge; zero if there was none.
    pub fn find_nonce(&self, edge: &(PeerId, PeerId)) -> (nonce: u64)
        ensures
            nonce == self@.find_nonce(*edge),
            self@.edges.contains_key(*edge) ==> nonce == self@.edges[*edge].nonce,
            !self@.edges.contains_key(*edge) ==> nonce == 0,
    {
        match self.edges_info.get(edge) {
            Some(edge) => edge.nonce,
            None => 0,
        }
    }

    /// The last update of the edge between two peers.
    pub fn get_edge(&self, peer0: PeerId, peer1: PeerId) -> (res: Option<Edge>)
        ensures
            res == (if self@.edges.contains_key(Edge::spec_key(peer0, peer1)) {
                Some(self@.edges[Edge::spec_key(peer0, peer1)])
            } else {
                None
            }),
            self@.truthful() && self@.edges.contains_key((peer0, peer1)) ==> res == Some(
                self@.edges[(peer0, peer1)],
            ),
            self@.truthful() && self@.edges.contains_key((peer1, peer0)) ==> res == Some(
                self@.edges[(peer1, peer0)],
            ),
            !self@.edges.contains_key((peer0, peer1)) && !self@.edges.contains_key((peer1, peer0))
                ==> res is None,
    {
        let key = Edge::key(peer0, peer1);
        match self.edges_info.get(&key) {
            Some(edge) => Some(*edge),
            None => None,
        }
    }

    /// The last update of every known edge.
    pub fn get_edges(&self) -> (res: Vec<Edge>)
        ensures
            exists|pairs: Seq<(PeerId, PeerId)>| #[trigger]
                lists_all(pairs, self@.edges.dom()) && res@ == Seq::new(
                    pairs.len(),
                    |i: int| self@.edges[pairs[i]],
                ),
            res@.len() == self@.edges.dom().len(),
            forall|pair: (PeerId, PeerId)| #[trigger]
                self@.edges.contains_key(pair) ==> res@.contains(self@.edges[pair]),
            forall|e: Edge| #[trigger]
                res@.contains(e) ==> exists|pair: (PeerId, PeerId)| #[trigger]
                    self@.edges.contains_key(pair) && self@.edges[pair] == e,
    {
        let pairs = keys_of(&self.edges_info);
        let mut res: Vec<Edge> = Vec::new();
        let mut i: usize = 0;
        while i < pairs.len()
            invariant
                i <= pairs@.len(),
                lists_all(pairs@, self.edges_info@.dom()),
                res@.len() == i,
                forall|k: int| 0 <= k < i ==> #[trigger] res@[k] == self.edges_info@[pairs@[k]],
            decreases pairs.len() - i,
        {
            assert(pairs@.to_set().contains(pairs@[i as int]));
            res.push(*self.edges_info.get(&pairs[i]).unwrap());
            i += 1;
        }
        assert(res@ =~= Seq::new(pairs@.len(), |i: int| self@.edges[pairs@[i]]));
        proof {
            pairs@.unique_seq_to_set();
            assert forall|pair: (PeerId, PeerId)| #[trigger]
                self@.edges.contains_key(pair) implies res@.contains(self@.edges[pair]) by {
                assert(pairs@.to_set().contains(pair));
                let k = choose|k: int| 0 <= k < pairs@.len() && pairs@[k] == pair;
                assert(res@[k] == self@.edges[pair]);
            }
            assert forall|e: Edge| #[trigger] res@.contains(e) implies exists|
                pair: (PeerId, PeerId),
            | #[trigger] self@.edges.contains_key(pair) && self@.edges[pair] == e by {
                let i = choose|i: int| 0 <= i < res@.len() && res@[i] == e;
                assert(pairs@.to_set().contains(pairs@[i]));
                assert(self@.edges.contains_key(pairs@[i]));
            }
        }
        res
    }

    /// How many connections are active.
    pub fn active_edges(&self) -> (count: u64)
        requires
            self.wf(),
        ensures
            count == self@.topology.edges().len(),
            self@.topology.edges().finite(),
    {
        self.internals.raw_graph.active_edges()
    }

    /// How many known peers cannot be reached.
    pub fn unreachable_peers(&self) -> (count: usize)
        requires
            self.wf(),
        ensures
            count == self@.topology.unrouted(self@.forwarding).len(),
    {
        self.internals.raw_graph.unreachable_nodes(&self.peer_forwarding)
    }

    /// The peers that are connected to each peer.
    pub fn get_raw_graph(&self) -> (res: BTreeMap<PeerId, BTreeSet<PeerId>>)
        requires
            self.wf(),
        ensures
            res@.dom() == self@.topology.links.dom(),
            forall|p: PeerId| #[trigger]
                res@.contains_key(p) ==> res@[p]@ == self@.topology.links[p].to_set(),
    {
        self.internals.raw_graph.neighbor_sets()
    }

    /// Takes an edge in, if it is newer than what is known of its peers. Whether it was.
    pub fn add_edge(&mut self, edge: Edge) -> (news: bool)
        requires
            old(self).wf(),
            edge.is_sound(),
            old(self)@.with_edge(edge).topology.links.len() <= MAX_KNOWN_PEERS,
        ensures
            final(self).wf(),
            final(self)@ == old(self)@.with_edge(edge),
            news == old(self)@.is_news(edge),
            news == (if old(self)@.edges.contains_key((edge.peer0, edge.peer1)) {
                old(self)@.edges[(edge.peer0, edge.peer1)].nonce < edge.nonce
            } else {
                edge.nonce > 0
            }),
    {
        let key = (edge.peer0, edge.peer1);
        if self.find_nonce(&key) >= edge.nonce {
            // We already have a newer information about this edge. Discard this information.
            false
        } else {
            let ghost before = *self;
            match edge.edge_type() {
                EdgeType::Added => {
                    self.internals.raw_graph.add_edge(key.0, key.1);
                },
                EdgeType::Removed => {
                    self.internals.raw_graph.remove_edge(&key.0, &key.1);
                },
            }
            self.edges_info.insert(key, edge);
            proof {
                self.internals.raw_graph.lemma_valid();
                assert(self.same_but_edges(before));
            }
            true
        }
    }

    /// Whether `peer` is not in memory and is to be looked for on disk.
    pub fn needs_touch(&self, peer: &PeerId) -> (res: bool)
        ensures
            res == self@.is_untouched(*peer),
            res == (*peer != self@.topology.source && !self@.times.contains_key(*peer)),
    {
        !same_key(peer, self.peer_id()) && !self.peer_last_time_reachable.contains_key(peer)
    }

    /// Brings a peer back that the component with `nonce` holds.
    fn bring_back(
        &mut self,
        peer: &PeerId,
        component: &StoreReply<u64>,
        nonce: u64,
        now: Time,
        update: &mut StoreUpdate,
    )
        requires
            old(self).wf(),
            now - SAVE_PEERS_MAX_TIME * NANOS_PER_SECOND >= i64::MIN,
        ensures
            final(self).wf(),
            final(self)@ == old(self)@.with_peer_back(*peer, *component, nonce, now),
            final(update)@ == old(update)@ + old(self)@.back_changes(*peer, *component, nonce),
    {
        let ghost before = *self;
        let ghost changes = update@;
        if self.needs_touch(peer) {
            if let Ok(cur_nonce) = component_nonce(component) {
                if cur_nonce == nonce {
                    let time: Time = seconds_before(now, SAVE_PEERS_MAX_TIME);
                    self.peer_last_time_reachable.insert(*peer, time);
                    update.push(StoreOp::DeletePeerComponent(*peer));
                    assert(self.same_but_edges(before));
                    assert(update@ =~= changes + before@.back_changes(*peer, *component, nonce));
                    return ;
                }
            }
        }
        assert(update@ =~= changes + before@.back_changes(*peer, *component, nonce));
    }

    /// If `peer` is not in memory, bring the component that holds it back from disk. `stored` is
    /// what the store says of it. Returns what is to be taken off the disk.
    pub fn touch(&mut self, peer: &PeerId, stored: StoredComponent, now: Time) -> (update: StoreUpdate)
        requires
            old(self).wf(),
            stored@.valid(),
            old(self)@.has_room_for(stored@.edge_count()),
            now - SAVE_PEERS_MAX_TIME * NANOS_PER_SECOND >= i64::MIN,
        ensures
            final(self).wf(),
            (final(self)@, update@) == old(self)@.with_touch(*peer, stored@, now),
            final(self)@.topology.links.len() <= old(self)@.topology.links.len() + 2
                * stored@.edge_count(),
    {
        let mut update = StoreUpdate::new();
        if !self.needs_touch(peer) {
            return update;
        }
        let ghost before = *self;
        if let Ok(nonce) = component_nonce(&stored.nonce) {
            let ghost replies = stored@;
            let endpoints = stored.endpoints;
            if let Ok(edges) = component_edges(nonce, stored.edges, &mut update) {
                assert(update@ =~= seq![StoreChange::DeleteComponentEdges(nonce)]);
                let mut i: usize = 0;
                while i < edges.len()
                    invariant
                        i <= edges@.len(),
                        endpoints@.len() == edges@.len(),
                        self.wf(),
                        forall|k: int| 0 <= k < edges@.len() ==> (#[trigger] edges@[k]).is_sound(),
                        self@.topology.links.len() <= before@.topology.links.len() + 2 * i,
                        before@.has_room_for(edges@.len()),
                        now - SAVE_PEERS_MAX_TIME * NANOS_PER_SECOND >= i64::MIN,
                        (self@, update@) == before@.restored(nonce, edges@, endpoints@, now, i as nat),
                    decreases edges.len() - i,
                {
                    let edge: Edge = edges[i];
                    assert(edges@[i as int].is_sound());
                    let components = &endpoints[i];
                    self.bring_back(&edge.peer0, &components.0, nonce, now, &mut update);
                    self.bring_back(&edge.peer1, &components.1, nonce, now, &mut update);
                    proof {
                        lemma_room_for_edge(*self, edge);
                    }
                    self.add_edge(edge);
                    i += 1;
                }
            } else {
                assert(update@ =~= seq![StoreChange::DeleteComponentEdges(nonce)]);
            }
            if self.needs_touch(peer) {
                // No edge of the component leads to the peer.
                let time: Time = seconds_before(now, SAVE_PEERS_MAX_TIME);
                let ghost back = *self;
                self.peer_last_time_reachable.insert(*peer, time);
                update.push(StoreOp::DeletePeerComponent(*peer));
                assert(self.same_but_edges(back));
            }
        } else {
            self.peer_last_time_reachable.insert(*peer, now);
            assert(self.same_but_edges(before));
        }
        update
    }

    /// Add several edges to the current view of the network.
    /// These edges are assumed to be valid at this point.
    ///
    /// Each peer of an edge is first looked for on disk. When that needs the disk, the step says
    /// so: the caller asks the store, hands the replies to [`RoutingTable::touch`], and goes on with
    /// the rest of the batch. The last step says whether some of the edges contained new
    /// information.
    pub fn process_edges(&mut self, batch: EdgeBatch) -> (step: EdgeStep)
        requires
            old(self).wf(),
            batch.wf(),
            old(self)@.has_room_for(batch@.edges.len()),
        ensures
            final(self).wf(),
            (final(self)@, step@) == old(self)@.with_batch(batch@),
            step matches EdgeStep::Touch(_, rest) ==> rest.wf() && final(self)@.has_room_for(
                rest@.edges.len(),
            ),
    {
        let mut rest = batch;
        while rest.next < rest.edges.len()
            invariant
                self.wf(),
                rest.wf(),
                self@.with_batch(rest@) == old(self)@.with_batch(batch@),
                self@.has_room_for(rest@.edges.len()),
            decreases rest.edges@.len() - rest.next, 2 - rest.touched,
        {
            let edge: Edge = rest.edges[rest.next];
            let ghost before = rest@;
            assert(rest@.edges[0] == edge);
            assert(rest.edges@[rest.next as int].is_sound());
            if rest.touched < 2 {
                let peer: PeerId = if rest.touched == 0 {
                    edge.peer0
                } else {
                    edge.peer1
                };
                rest.touched = rest.touched + 1;
                assert(rest@ =~= (BatchState { touched: before.touched + 1, ..before }));
                if self.needs_touch(&peer) {
                    return EdgeStep::Touch(peer, rest);
                }
            } else {
                proof {
                    lemma_room_for_edge(*self, edge);
                }
                let news = self.add_edge(edge);
                rest.new_edge = rest.new_edge || news;
                rest.touched = 0;
                rest.next = rest.next + 1;
                assert(rest@.edges =~= before.edges.skip(1));
            }
        }
        EdgeStep::Done(ProcessEdgeResult { new_edge: rest.new_edge })
    }
}

/// Edges that are being taken in.
pub struct EdgeBatch {
    edges: Vec<Edge>,
    /// The edge that comes next.
    next: usize,
    /// How many of its peers were looked for on disk.
    touched: u8,
    /// Some edge was news.
    new_edge: bool,
}

impl View for EdgeBatch {
    type V = BatchState;

    closed spec fn view(&self) -> BatchState {
        BatchState {
            edges: self.edges@.skip(self.next as int),
            touched: self.touched as nat,
            new_edge: self.new_edge,
        }
    }
}

impl EdgeBatch {
    /// The edges of the batch are sound.
    pub closed spec fn wf(self) -> bool {
        &&& self.next <= self.edges@.len()
        &&& self.touched <= 2
        &&& forall|i: int| 0 <= i < self.edges@.len() ==> (#[trigger] self.edges@[i]).is_sound()
    }

    pub fn new(edges: Vec<Edge>) -> (res: Self)
        requires
            forall|i: int| 0 <= i < edges@.len() ==> (#[trigger] edges@[i]).is_sound(),
        ensures
            res.wf(),
            res@ == (BatchState { edges: edges@, touched: 0, new_edge: false }),
    {
        let res = EdgeBatch { edges, next: 0, touched: 0, new_edge: false };
        assert(res@.edges =~= edges@);
        res
    }

    /// How many edges are left.
    pub fn len(&self) -> (res: usize)
        requires
            self.wf(),
        ensures
            res == self@.edges.len(),
    {
        self.edges.len() - self.next
    }
}

/// How far a batch of edges got.
pub enum EdgeStep {
    /// The peer is to be looked for on disk, then the batch goes on.
    Touch(PeerId, EdgeBatch),
    /// All edges are taken in.
    Done(ProcessEdgeResult),
}

impl View for EdgeStep {
    type V = BatchStep;

    open spec fn view(&self) -> BatchStep {
        match *self {
            EdgeStep::Touch(peer, batch) => BatchStep::Touch(peer, batch@),
            EdgeStep::Done(result) => BatchStep::Done(result.new_edge),
        }
    }
}

/// Peers that were out of reach for long go to disk.
impl RoutingTable {
    /// The peers to save, and whether some peer was out of reach for so long that they are to be
    /// saved now.
    fn silent_peers(&self, now: Time) -> (res: (Vec<PeerId>, bool))
        ensures
            lists_all(res.0@, self@.to_save(now)),
            res.1 == self@.save_is_due(now),
    {
        let peers = keys_of(&self.peer_last_time_reachable);
        let ghost times = self.peer_last_time_reachable@;
        let mut to_save: Vec<PeerId> = Vec::new();
        let mut oldest_time: Time = now;
        let mut i: usize = 0;
        while i < peers.len()
            invariant
                times == self.peer_last_time_reachable@,
                i <= peers@.len(),
                lists_all(peers@, times.dom()),
                to_save@.no_duplicates(),
                forall|p: PeerId| #[trigger]
                    to_save@.contains(p) <==> peers@.take(i as int).contains(p) && self@.silence(p, now)
                        >= SAVE_PEERS_AFTER_TIME,
                oldest_time <= now,
                forall|k: int| 0 <= k < i ==> oldest_time <= times[#[trigger] peers@[k]],
                oldest_time == now || exists|k: int|
                    0 <= k < i && times[#[trigger] peers@[k]] == oldest_time,
            decreases peers.len() - i,
        {
            let peer: PeerId = peers[i];
            proof {
                assert(peers@.to_set().contains(peers@[i as int]));
                assert(peers@.take(i + 1) =~= peers@.take(i as int).push(peer));
                assert(!peers@.take(i as int).contains(peer));
                assert forall|p: PeerId| #[trigger] peers@.take(i + 1).contains(p) <==> peers@.take(
                    i as int,
                ).contains(p) || p == peer by {
                    lemma_push_contains(peers@.take(i as int), peer, p);
                }
            }
            let last_time: Time = *self.peer_last_time_reachable.get(&peer).unwrap();
            let ghost before = oldest_time;
            if last_time < oldest_time {
                oldest_time = last_time;
            }
            proof {
                assert(times[peers@[i as int]] == last_time);
                if oldest_time == before && before != now {
                    let k = choose|k: int| 0 <= k < i && times[#[trigger] peers@[k]] == before;
                    assert(0 <= k < i + 1 && times[peers@[k]] == oldest_time);
                }
            }
            let ghost saved = to_save@;
            assert(!saved.contains(peer));
            if seconds_since(now, last_time) >= SAVE_PEERS_AFTER_TIME as i64 {
                to_save.push(peer);
            }
            proof {
                assert forall|p: PeerId| #[trigger] to_save@.contains(p) <==> peers@.take(
                    i + 1,
                ).contains(p) && self@.silence(p, now) >= SAVE_PEERS_AFTER_TIME by {
                    lemma_push_contains(saved, peer, p);
                }
            }
            i += 1;
        }
        let due = !(seconds_since(now, oldest_time) < SAVE_PEERS_MAX_TIME as i64);
        proof {
            assert(peers@.take(i as int) =~= peers@);
            assert forall|p: PeerId| #[trigger] to_save@.to_set().contains(p)
                <==> self@.to_save(now).contains(p) by {
                assert(peers@.to_set().contains(p) <==> times.dom().contains(p));
            }
            assert(to_save@.to_set() =~= self@.to_save(now));
            if due {
                if oldest_time == now {
                    assert(false);
                }
                let k = choose|k: int| 0 <= k < i && times[#[trigger] peers@[k]] == oldest_time;
                assert(peers@.to_set().contains(peers@[k]));
                assert(self@.times.contains_key(peers@[k]));
            }
            if self@.save_is_due(now) {
                let p = choose|p: PeerId| #[trigger]
                    self@.times.contains_key(p) && self@.silence(p, now) >= SAVE_PEERS_MAX_TIME;
                assert(peers@.to_set().contains(p));
                let k = choose|k: int| 0 <= k < peers@.len() && peers@[k] == p;
                assert(oldest_time <= times[peers@[k]]);
                lemma_whole_seconds_grow(now - times[p], now - oldest_time);
            }
        }
        (to_save, due)
    }

    /// Moves peers that were out of reach for long, with their edges, from memory to disk. Does so
    /// only if some peer was out of reach for at least [`SAVE_PEERS_MAX_TIME`] seconds. Returns what
    /// is to be written.
    pub fn try_save_edges(&mut self, now: Time) -> (update: Option<StoreUpdate>)
        requires
            old(self).wf(),
            old(self)@.save_is_due(now) ==> old(self)@.component_nonce < u64::MAX,
        ensures
            final(self).wf(),
            final(self)@ == old(self)@.with_save(now),
            match update {
                Some(update) => old(self)@.save_is_due(now) && old(self)@.saves(now, update@),
                None => !old(self)@.save_is_due(now),
            },
    {
        let (to_save, due) = self.silent_peers(now);
        if !due {
            return None;
        }
        let ghost before = *self;
        let ghost gone = self@.to_save(now);
        let component_nonce: u64 = self.component_nonce;
        self.component_nonce = self.component_nonce + 1;

        let mut update = StoreUpdate::new();
        update.push(StoreOp::SetLastComponentNonce(component_nonce));
        let mut saved: BTreeSet<PeerId> = BTreeSet::new();
        let mut i: usize = 0;
        assert(to_save@.take(0).to_set() =~= Set::empty());
        assert(self.peer_last_time_reachable@ =~= before.peer_last_time_reachable@.remove_keys(
            to_save@.take(0).to_set(),
        ));
        while i < to_save.len()
            invariant
                i <= to_save@.len(),
                saved@ == to_save@.take(i as int).to_set(),
                self.peer_last_time_reachable@ == before.peer_last_time_reachable@.remove_keys(
                    to_save@.take(i as int).to_set(),
                ),
                update@ == seq![StoreChange::SetLastComponentNonce(component_nonce)] + Seq::new(
                    i as nat,
                    |k: int| StoreChange::SetPeerComponent(to_save@[k], component_nonce),
                ),
                self.internals.raw_graph == before.internals.raw_graph,
                self.edges_info == before.edges_info,
                self.component_nonce == before.component_nonce + 1,
                self.same_but_edges(before),
            decreases to_save.len() - i,
        {
            let peer: PeerId = to_save[i];
            proof {
                assert(to_save@.take(i + 1) =~= to_save@.take(i as int).push(peer));
                assert forall|p: PeerId| #[trigger] to_save@.take(i + 1).to_set().contains(p)
                    <==> to_save@.take(i as int).to_set().insert(peer).contains(p) by {
                    lemma_push_contains(to_save@.take(i as int), peer, p);
                }
                assert(to_save@.take(i + 1).to_set() =~= to_save@.take(i as int).to_set().insert(peer));
            }
            update.push(StoreOp::SetPeerComponent(peer, component_nonce));
            self.peer_last_time_reachable.remove(&peer);
            saved.insert(peer);
            proof {
                assert(self.peer_last_time_reachable@
                    =~= before.peer_last_time_reachable@.remove_keys(
                    to_save@.take(i + 1).to_set(),
                ));
                assert(update@ =~= seq![StoreChange::SetLastComponentNonce(component_nonce)]
                    + Seq::new(
                    (i + 1) as nat,
                    |k: int| StoreChange::SetPeerComponent(to_save@[k], component_nonce),
                ));
            }
            i += 1;
        }
        assert(to_save@.take(i as int) =~= to_save@);

        let (pairs, edges) = self.take_edges_at(&saved);
        update.push(StoreOp::SetComponentEdges(component_nonce, edges));
        proof {
            assert(before@.edges_at(gone) == before@.edges_at(saved@));
            assert(update@ =~= save_changes(component_nonce, to_save@, edges@));
            assert(edges@ =~= Seq::new(pairs@.len(), |k: int| before@.edges[pairs@[k]]));
            assert(before@.saves_in_order(now, update@, to_save@, pairs@));
            assert(self@ =~= before@.without_saved(gone));
        }
        Some(update)
    }

    /// Takes the edges with a peer out of `peers` out of the table. Their pairs, and the edges.
    fn take_edges_at(&mut self, peers: &BTreeSet<PeerId>) -> (res: (Vec<(PeerId, PeerId)>, Vec<Edge>))
        ensures
            lists_all(res.0@, old(self)@.edges_at(peers@).dom()),
            res.1@ == Seq::new(res.0@.len(), |i: int| old(self)@.edges[res.0@[i]]),
            final(self).edges_info@ == old(self).edges_info@.remove_keys(
                old(self)@.edges_at(peers@).dom(),
            ),
            final(self).same_but_edges(*old(self)),
            final(self).internals.raw_graph == old(self).internals.raw_graph,
            final(self).peer_last_time_reachable == old(self).peer_last_time_reachable,
            final(self).component_nonce == old(self).component_nonce,
    {
        let ghost before = *self;
        let ghost taken = self@.edges_at(peers@).dom();
        let all = keys_of(&self.edges_info);
        let mut pairs: Vec<(PeerId, PeerId)> = Vec::new();
        let mut edges_in_component: Vec<Edge> = Vec::new();
        let mut i: usize = 0;
        assert(self.edges_info@ =~= before.edges_info@.remove_keys(pairs@.to_set()));
        while i < all.len()
            invariant
                i <= all@.len(),
                lists_all(all@, before.edges_info@.dom()),
                taken == before@.edges_at(peers@).dom(),
                pairs@.no_duplicates(),
                forall|pair: (PeerId, PeerId)| #[trigger]
                    pairs@.contains(pair) <==> all@.take(i as int).contains(pair) && taken.contains(
                        pair,
                    ),
                edges_in_component@.len() == pairs@.len(),
                forall|k: int|
                    0 <= k < pairs@.len() ==> #[trigger] edges_in_component@[k]
                        == before.edges_info@[pairs@[k]],
                self.edges_info@ == before.edges_info@.remove_keys(pairs@.to_set()),
                self.same_but_edges(before),
                self.internals.raw_graph == before.internals.raw_graph,
                self.peer_last_time_reachable == before.peer_last_time_reachable,
                self.component_nonce == before.component_nonce,
            decreases all.len() - i,
        {
            let pair: (PeerId, PeerId) = all[i];
            proof {
                assert(all@.to_set().contains(all@[i as int]));
                assert(all@.take(i + 1) =~= all@.take(i as int).push(pair));
                assert(!all@.take(i as int).contains(pair));
                assert forall|p: (PeerId, PeerId)| #[trigger] all@.take(i + 1).contains(p)
                    <==> all@.take(i as int).contains(p) || p == pair by {
                    lemma_push_contains(all@.take(i as int), pair, p);
                }
                assert(!pairs@.to_set().contains(pair));
                assert(self.edges_info@.contains_key(pair));
            }
            let ghost sofar = pairs@;
            if peers.contains(&pair.0) || peers.contains(&pair.1) {
                let edge: Edge = *self.edges_info.get(&pair).unwrap();
                edges_in_component.push(edge);
                pairs.push(pair);
                self.edges_info.remove(&pair);
                proof {
                    assert forall|p: (PeerId, PeerId)| #[trigger] pairs@.to_set().contains(p)
                        <==> sofar.to_set().insert(pair).contains(p) by {
                        lemma_push_contains(sofar, pair, p);
                    }
                    assert(pairs@.to_set() =~= sofar.to_set().insert(pair));
                    assert(self.edges_info@ =~= before.edges_info@.remove_keys(pairs@.to_set()));
                }
            }
            proof {
                assert forall|p: (PeerId, PeerId)| #[trigger] pairs@.contains(p) <==> all@.take(
                    i + 1,
                ).contains(p) && taken.contains(p) by {
                    lemma_push_contains(sofar, pair, p);
                }
            }
            i += 1;
        }
        proof {
            assert(all@.take(i as int) =~= all@);
            assert forall|p: (PeerId, PeerId)| #[trigger] pairs@.to_set().contains(p)
                <==> taken.contains(p) by {
                assert(all@.to_set().contains(p) <==> before.edges_info@.dom().contains(p));
            }
            assert(pairs@.to_set() =~= taken);
            assert(edges_in_component@ =~= Seq::new(pairs@.len(), |i: int| before@.edges[pairs@[i]]));
        }
        (pairs, edges_in_component)
    }

    /// Whether some peer was out of reach for so long that peers are to be saved.
    pub fn save_is_due(&self, now: Time) -> (due: bool)
        ensures
            due == self@.save_is_due(now),
    {
        self.silent_peers(now).1
    }

    /// The neighbors on a shortest way to each peer, as the network is now.
    pub fn calculate_routes(&self) -> (routes: BTreeMap<PeerId, Vec<PeerId>>)
        requires
            self.wf(),
        ensures
            lists(routes@) == self@.topology.routes(),
    {
        self.internals.raw_graph.calculate_distance()
    }

    /// Recalculate routing table: which neighbors lead to which peer, and which peers are reachable
    /// now. Then, if that is allowed, peers that were out of reach for long go to disk; what is to
    /// be written is returned. `now` and `save_time` are the time when the routes are known and the
    /// time when peers are saved.
    pub fn update(&mut self, can_save_edges: bool, now: Time, save_time: Time) -> (update: Option<
        StoreUpdate,
    >)
        requires
            old(self).wf(),
            can_save_edges && old(self)@.with_routes(now).save_is_due(save_time)
                ==> old(self)@.component_nonce < u64::MAX,
        ensures
            final(self).wf(),
            !can_save_edges ==> final(self)@ == old(self)@.with_routes(now) && update is None,
            can_save_edges ==> final(self)@ == old(self)@.with_routes(now).with_save(save_time),
            can_save_edges ==> match update {
                Some(update) => old(self)@.with_routes(now).save_is_due(save_time)
                    && old(self)@.with_routes(now).saves(save_time, update@),
                None => !old(self)@.with_routes(now).save_is_due(save_time),
            },
    {
        let routes = self.calculate_routes();
        self.set_routes(routes, now);
        if can_save_edges {
            self.try_save_edges(save_time)
        } else {
            None
        }
    }

    /// Goes by the routes from now on. The peers that they lead to are reachable now.
    pub fn set_routes(&mut self, routes: BTreeMap<PeerId, Vec<PeerId>>, now: Time)
        requires
            old(self).wf(),
            lists(routes@) == old(self)@.topology.routes(),
        ensures
            final(self).wf(),
            final(self)@ == old(self)@.with_routes(now),
    {
        let ghost before = *self;
        self.peer_forwarding = routes;
        let peers = keys_of(&self.peer_forwarding);
        let ghost middle = *self;
        let mut i: usize = 0;
        while i < peers.len()
            invariant
                i <= peers@.len(),
                lists_all(peers@, self.peer_forwarding@.dom()),
                forall|p: PeerId| #[trigger]
                    self.peer_last_time_reachable@.contains_key(p)
                        <==> middle.peer_last_time_reachable@.contains_key(p) || peers@.take(
                        i as int,
                    ).contains(p),
                forall|p: PeerId| #[trigger]
                    self.peer_last_time_reachable@.contains_key(p)
                        ==> self.peer_last_time_reachable@[p] == (if peers@.take(i as int).contains(p) {
                        now
                    } else {
                        middle.peer_last_time_reachable@[p]
                    }),
                self.same_but_edges(middle),
                self.internals.raw_graph == middle.internals.raw_graph,
                self.edges_info == middle.edges_info,
                self.component_nonce == middle.component_nonce,
            decreases peers.len() - i,
        {
            let peer: PeerId = peers[i];
            proof {
                assert(peers@.take(i + 1) =~= peers@.take(i as int).push(peer));
                assert forall|p: PeerId| #[trigger] peers@.take(i + 1).contains(p) <==> peers@.take(
                    i as int,
                ).contains(p) || p == peer by {
                    lemma_push_contains(peers@.take(i as int), peer, p);
                }
            }
            self.peer_last_time_reachable.insert(peer, now);
            i += 1;
        }
        proof {
            assert(peers@.take(i as int) =~= peers@);
            let routes = before@.topology.routes();
            assert(self@.forwarding == routes);
            assert forall|p: PeerId| #[trigger] peers@.contains(p) <==> routes.contains_key(p) by {
                assert(peers@.to_set().contains(p) <==> self.peer_forwarding@.dom().contains(p));
                assert(lists(self.peer_forwarding@).contains_key(p)
                    <==> self.peer_forwarding@.contains_key(p));
            }
            if routes.contains_key(before@.topology.source) {
                law_routes_have_hops(before@.topology, before@.topology.source);
            }
            assert(self@.times =~= before@.with_routes(now).times);
            assert(self@ =~= before@.with_routes(now));
        }
    }

    /// The peers that can be reached.
    pub fn reachable_peers(&self) -> (res: Vec<PeerId>)
        ensures
            lists_all(res@, self@.forwarding.dom()),
    {
        let res = keys_of(&self.peer_forwarding);
        assert(self@.forwarding.dom() =~= self.peer_forwarding@.dom());
        res
    }
}

/// A longer span has no fewer whole seconds.
proof fn lemma_whole_seconds_grow(a: int, b: int)
    requires
        a <= b,
    ensures
        whole_seconds(a) <= whole_seconds(b),
{
}

} // verus!
