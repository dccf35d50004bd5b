use routing::routing::{EdgeBatch, EdgeStep, RoutingTable, StoredComponent};
use routing::state::{SAVE_PEERS_AFTER_TIME, SAVE_PEERS_MAX_TIME};
use routing::store::{StoreOp, StoreReply, StoreUpdate};
use routing::types::{Edge, PeerId, Time};
use std::collections::HashMap;

const SECOND: Time = 1_000_000_000;

const START: Time = 1_600_000_000 * SECOND;

fn disk_peer(n: u128) -> PeerId {
    (n, n)
}

fn disk_edge(a: u128, b: u128, nonce: u64) -> Edge {
    let (peer0, peer1) = Edge::key(disk_peer(a), disk_peer(b));
    Edge { peer0, peer1, nonce, signature0: [3; 64], signature1: [4; 64], removal_info: None }
}

#[derive(Default)]
struct MemoryStore {
    last_nonce: Option<u64>,
    peer_component: HashMap<PeerId, u64>,
    component_edges: HashMap<u64, Vec<Edge>>,
}

impl MemoryStore {
    fn commit(&mut self, update: StoreUpdate) {
        for op in update.ops {
            match op {
                StoreOp::SetLastComponentNonce(nonce) => self.last_nonce = Some(nonce),
                StoreOp::SetPeerComponent(peer, nonce) => {
                    self.peer_component.insert(peer, nonce);
                }
                StoreOp::DeletePeerComponent(peer) => {
                    self.peer_component.remove(&peer);
                }
                StoreOp::SetComponentEdges(nonce, edges) => {
                    self.component_edges.insert(nonce, edges);
                }
                StoreOp::DeleteComponentEdges(nonce) => {
                    self.component_edges.remove(&nonce);
                }
                StoreOp::SetAnnouncement(_) => unreachable!(),
            }
        }
    }

    fn component_of(&self, peer: &PeerId) -> StoreReply<u64> {
        match self.peer_component.get(peer) {
            Some(nonce) => StoreReply::Found(*nonce),
            None => StoreReply::Missing,
        }
    }

    fn stored(&self, peer: &PeerId) -> StoredComponent {
        let mut endpoints = vec![];
        let edges = match self.peer_component.get(peer).and_then(|n| self.component_edges.get(n)) {
            Some(edges) => {
                for edge in edges {
                    endpoints.push((self.component_of(&edge.peer0), self.component_of(&edge.peer1)));
                }
                StoreReply::Found(edges.clone())
            }
            None => StoreReply::Missing,
        };
        StoredComponent { nonce: self.component_of(peer), edges, endpoints }
    }
}

fn process(table: &mut RoutingTable, store: &mut MemoryStore, edges: Vec<Edge>, now: Time) -> bool {
    let mut batch = EdgeBatch::new(edges);
    loop {
        match table.process_edges(batch) {
            EdgeStep::Touch(peer, rest) => {
                let update = table.touch(&peer, store.stored(&peer), now);
                store.commit(update);
                batch = rest;
            }
            EdgeStep::Done(result) => return result.new_edge,
        }
    }
}

/// The network 0 - 1, 2 - 3, seen from 0.
fn two_parts() -> (RoutingTable, MemoryStore) {
    let mut table = RoutingTable::new(disk_peer(0), StoreReply::Missing);
    let mut store = MemoryStore::default();
    assert!(process(
        &mut table,
        &mut store,
        vec![disk_edge(0, 1, 1), disk_edge(2, 3, 5)],
        START,
    ));
    (table, store)
}

#[test]
fn nothing_is_saved_before_the_time() {
    let (mut table, _) = two_parts();
    let now = START + SAVE_PEERS_MAX_TIME as Time * SECOND - 1;
    assert_eq!(table.update(true, now, now), None);
    assert_eq!(table.get_edges().len(), 2);
    assert_eq!(table.component_nonce, 0);
}

#[test]
fn silent_peers_are_saved_when_the_time_has_come() {
    let (mut table, mut store) = two_parts();
    let now = START + SAVE_PEERS_MAX_TIME as Time * SECOND;
    // Without leave nothing is saved.
    assert_eq!(table.update(false, now, now), None);
    let update = table.update(true, now, now).unwrap();
    assert_eq!(
        update,
        StoreUpdate {
            ops: vec![
                StoreOp::SetLastComponentNonce(0),
                StoreOp::SetPeerComponent(disk_peer(2), 0),
                StoreOp::SetPeerComponent(disk_peer(3), 0),
                StoreOp::SetComponentEdges(0, vec![disk_edge(2, 3, 5)]),
            ],
        }
    );
    store.commit(update);
    assert_eq!(table.component_nonce, 1);
    assert_eq!(table.get_edges(), vec![disk_edge(0, 1, 1)]);
    // The reachable peer stays.
    assert!(table.peer_last_time_reachable.contains_key(&disk_peer(1)));
    assert!(!table.peer_last_time_reachable.contains_key(&disk_peer(2)));
    assert!(!table.peer_last_time_reachable.contains_key(&disk_peer(3)));
    assert_eq!(table.find_nonce(&Edge::key(disk_peer(2), disk_peer(3))), 0);
}

#[test]
fn peers_that_were_seen_later_go_along() {
    let (mut table, mut store) = two_parts();
    let later = START + 100 * SECOND;
    process(&mut table, &mut store, vec![disk_edge(4, 5, 1)], later);
    let late = START + 4_000 * SECOND;
    process(&mut table, &mut store, vec![disk_edge(6, 7, 1)], late);
    let now = START + SAVE_PEERS_MAX_TIME as Time * SECOND;
    assert_eq!(SAVE_PEERS_AFTER_TIME, 3_600);
    let update = table.try_save_edges(now);
    // 6 and 7 were seen 3200 seconds ago.
    assert_eq!(update.unwrap().ops.len(), 1 + 5 + 1);
    assert_eq!(table.get_edges(), vec![disk_edge(6, 7, 1)]);
}

#[test]
fn saved_peers_come_back() {
    let (mut table, mut store) = two_parts();
    let now = START + SAVE_PEERS_MAX_TIME as Time * SECOND;
    let update = table.update(true, now, now).unwrap();
    store.commit(update);
    assert_eq!(store.peer_component.len(), 2);
    let later = now + 50 * SECOND;
    // Nothing new: the edge is on disk with the same nonce.
    assert!(!process(&mut table, &mut store, vec![disk_edge(2, 3, 5)], later));
    assert_eq!(table.get_edge(disk_peer(2), disk_peer(3)), Some(disk_edge(2, 3, 5)));
    assert!(store.peer_component.is_empty());
    assert!(store.component_edges.is_empty());
    assert_eq!(
        table.peer_last_time_reachable[&disk_peer(3)],
        later - SAVE_PEERS_MAX_TIME as Time * SECOND
    );
    assert_eq!(table.active_edges(), 2);
}

#[test]
fn new_link_reaches_peers_that_come_back() {
    let (mut table, mut store) = two_parts();
    let now = START + SAVE_PEERS_MAX_TIME as Time * SECOND;
    let update = table.update(true, now, now).unwrap();
    store.commit(update);
    let later = now + 50 * SECOND;
    assert!(process(&mut table, &mut store, vec![disk_edge(1, 2, 1)], later));
    assert_eq!(table.update(true, later, later), None);
    assert_eq!(table.reachable_peers().len(), 3);
    assert_eq!(table.find_route_from_peer_id(&disk_peer(3)), Ok(disk_peer(1)));
    assert_eq!(table.get_edges().len(), 3);
}

#[test]
fn peer_in_a_later_component_stays_there() {
    let (mut table, mut store) = two_parts();
    let now = START + SAVE_PEERS_MAX_TIME as Time * SECOND;
    let update = table.update(true, now, now).unwrap();
    store.commit(update);
    // Peer 3 was stored again under another nonce.
    store.peer_component.insert(disk_peer(3), 9);
    let update = table.touch(&disk_peer(2), store.stored(&disk_peer(2)), now);
    assert_eq!(
        update,
        StoreUpdate {
            ops: vec![
                StoreOp::DeleteComponentEdges(0),
                StoreOp::DeletePeerComponent(disk_peer(2)),
            ],
        }
    );
    assert!(table.needs_touch(&disk_peer(3)));
    assert!(!table.needs_touch(&disk_peer(2)));
    assert_eq!(table.get_edges().len(), 2);
}

#[test]
fn peer_in_a_component_without_edges_comes_back() {
    for edges in [StoreReply::Failed, StoreReply::Missing, StoreReply::Found(vec![])] {
        let mut table = RoutingTable::new(disk_peer(0), StoreReply::Missing);
        let stored = StoredComponent { nonce: StoreReply::Found(4), edges, endpoints: vec![] };
        let update = table.touch(&disk_peer(8), stored, START);
        assert_eq!(
            update,
            StoreUpdate {
                ops: vec![
                    StoreOp::DeleteComponentEdges(4),
                    StoreOp::DeletePeerComponent(disk_peer(8)),
                ],
            }
        );
        assert!(!table.needs_touch(&disk_peer(8)));
        assert_eq!(
            table.peer_last_time_reachable[&disk_peer(8)],
            START - SAVE_PEERS_MAX_TIME as Time * SECOND
        );
    }
}

#[test]
fn peer_whose_edges_left_with_the_other_end_comes_back() {
    // 2 - 3 was heard of, and 3 again later. When 2 is saved the edge goes along.
    let (mut table, mut store) = two_parts();
    let now = START + SAVE_PEERS_MAX_TIME as Time * SECOND;
    table.peer_last_time_reachable.insert(disk_peer(3), now - SECOND);
    let update = table.update(true, now, now).unwrap();
    store.commit(update);
    assert_eq!(table.get_edges(), vec![disk_edge(0, 1, 1)]);
    assert!(table.peer_last_time_reachable.contains_key(&disk_peer(3)));
    // Later 3 is saved alone.
    let later = now + SAVE_PEERS_MAX_TIME as Time * SECOND;
    let update = table.update(true, later, later).unwrap();
    store.commit(update);
    assert_eq!(store.component_edges[&1], vec![]);
    assert!(table.needs_touch(&disk_peer(3)));
    let update = table.touch(&disk_peer(3), store.stored(&disk_peer(3)), later);
    store.commit(update);
    assert!(!table.needs_touch(&disk_peer(3)));
    assert!(!store.peer_component.contains_key(&disk_peer(3)));
    assert!(!store.component_edges.contains_key(&1));
}

#[test]
fn same_edges_again_bring_no_news() {
    let (mut table, mut store) = two_parts();
    let now = START + SAVE_PEERS_MAX_TIME as Time * SECOND;
    let update = table.update(true, now, now).unwrap();
    store.commit(update);
    let edges = vec![disk_edge(2, 3, 6), disk_edge(3, 4, 1)];
    assert!(process(&mut table, &mut store, edges.clone(), now));
    let known = table.get_edges();
    assert!(!process(&mut table, &mut store, edges, now + SECOND));
    assert_eq!(table.get_edges(), known);
}

#[test]
fn own_edges_stay_in_memory() {
    let (mut table, _) = two_parts();
    let now = START + SAVE_PEERS_MAX_TIME as Time * SECOND;
    assert!(!table.save_is_due(now - 1));
    assert!(table.save_is_due(now));
    table.update(true, now, now).unwrap();
    assert!(!table.peer_last_time_reachable.contains_key(&disk_peer(0)));
    assert!(table.edges_info.contains_key(&Edge::key(disk_peer(0), disk_peer(1))));
    assert_eq!(table.component_nonce, 1);
    assert_eq!(table.peer_forwarding.len(), 1);
    assert_eq!(table.route_back.get(&(1, 1)), None);
}

#[test]
fn table_carries_on_after_a_restart() {
    let (mut table, mut store) = two_parts();
    let now = START + SAVE_PEERS_MAX_TIME as Time * SECOND;
    let update = table.update(true, now, now).unwrap();
    store.commit(update);
    let again = RoutingTable::new(disk_peer(0), StoreReply::Found(store.last_nonce.unwrap()));
    assert_eq!(again.component_nonce, table.component_nonce);
    assert_eq!(RoutingTable::new(disk_peer(0), StoreReply::Failed).component_nonce, 0);
    assert_eq!(RoutingTable::new(disk_peer(0), StoreReply::Found(41)).component_nonce, 42);
}
