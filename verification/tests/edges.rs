use routing::routing::{EdgeBatch, EdgeStep, RoutingTable, StoredComponent};
use routing::store::{StoreReply, StoreUpdate};
use routing::types::{Edge, EdgeType, PeerId};

fn edge_peer(n: u128) -> PeerId {
    (n, 7)
}

fn edge_between(a: u128, b: u128, nonce: u64) -> Edge {
    let (peer0, peer1) = Edge::key(edge_peer(a), edge_peer(b));
    Edge {
        peer0,
        peer1,
        nonce,
        signature0: [1; 64],
        signature1: [2; 64],
        removal_info: None,
    }
}

fn edge_table() -> RoutingTable {
    RoutingTable::new(edge_peer(0), StoreReply::Missing)
}

/// Takes a batch in, with nothing on disk.
fn take_in(table: &mut RoutingTable, edges: Vec<Edge>) -> bool {
    let mut batch = EdgeBatch::new(edges);
    loop {
        match table.process_edges(batch) {
            EdgeStep::Touch(peer, rest) => {
                let stored = StoredComponent {
                    nonce: StoreReply::Missing,
                    edges: StoreReply::Missing,
                    endpoints: vec![],
                };
                let update = table.touch(&peer, stored, 1_000);
                assert_eq!(update, StoreUpdate { ops: vec![] });
                batch = rest;
            }
            EdgeStep::Done(result) => return result.new_edge,
        }
    }
}

#[test]
fn edge_type_is_the_parity_of_its_nonce() {
    assert_eq!(edge_between(1, 2, 1).edge_type(), EdgeType::Added);
    assert_eq!(edge_between(1, 2, 2).edge_type(), EdgeType::Removed);
    assert_eq!(edge_between(1, 2, 0).edge_type(), EdgeType::Removed);
    assert_eq!(edge_between(1, 2, 7).edge_type(), EdgeType::Added);
}

#[test]
fn edge_key_starts_with_the_smaller_peer() {
    assert_eq!(Edge::key((1, 0), (0, 5)), ((0, 5), (1, 0)));
    assert_eq!(Edge::key((0, 5), (1, 0)), ((0, 5), (1, 0)));
    assert_eq!(Edge::key((1, 2), (1, 1)), ((1, 1), (1, 2)));
}

#[test]
fn newest_edge_wins() {
    let mut table = edge_table();
    assert_eq!(table.find_nonce(&Edge::key(edge_peer(0), edge_peer(1))), 0);
    assert!(table.add_edge(edge_between(0, 1, 5)));
    assert!(!table.add_edge(edge_between(0, 1, 4)));
    assert!(!table.add_edge(edge_between(0, 1, 5)));
    assert_eq!(table.find_nonce(&Edge::key(edge_peer(0), edge_peer(1))), 5);
    assert_eq!(table.active_edges(), 1);
    assert!(table.add_edge(edge_between(0, 1, 6)));
    assert_eq!(table.find_nonce(&Edge::key(edge_peer(0), edge_peer(1))), 6);
    assert_eq!(table.active_edges(), 0);
}

#[test]
fn edge_without_changes_is_no_news() {
    let mut table = edge_table();
    assert!(!table.add_edge(edge_between(0, 1, 0)));
    assert_eq!(table.get_edges(), vec![]);
}

#[test]
fn order_of_edges_does_not_matter() {
    let edges = [edge_between(1, 2, 3), edge_between(1, 2, 4), edge_between(0, 1, 1)];
    let orders = [[0, 1, 2], [0, 2, 1], [1, 0, 2], [1, 2, 0], [2, 0, 1], [2, 1, 0]];
    for order in orders {
        let mut table = edge_table();
        for i in order {
            table.add_edge(edges[i]);
        }
        assert_eq!(table.find_nonce(&Edge::key(edge_peer(1), edge_peer(2))), 4);
        assert_eq!(table.active_edges(), 1);
        let graph = table.get_raw_graph();
        assert_eq!(graph.len(), 2);
        assert!(graph[&edge_peer(0)].contains(&edge_peer(1)));
        assert!(graph[&edge_peer(1)].contains(&edge_peer(0)));
    }
}

#[test]
fn edge_is_found_under_both_orders_of_its_peers() {
    let mut table = edge_table();
    let edge = edge_between(3, 2, 1);
    table.add_edge(edge);
    assert_eq!(table.get_edge(edge_peer(3), edge_peer(2)), Some(edge));
    assert_eq!(table.get_edge(edge_peer(2), edge_peer(3)), Some(edge));
    assert_eq!(table.get_edge(edge_peer(2), edge_peer(4)), None);
    assert_eq!(table.get_edges(), vec![edge]);
}

#[test]
fn batch_says_whether_it_brought_news() {
    let mut table = edge_table();
    assert!(take_in(&mut table, vec![edge_between(0, 1, 1), edge_between(1, 2, 1)]));
    assert_eq!(table.active_edges(), 2);
    assert!(!take_in(&mut table, vec![edge_between(0, 1, 1), edge_between(1, 2, 1)]));
    assert!(!take_in(&mut table, vec![]));
    assert!(take_in(&mut table, vec![edge_between(0, 1, 1), edge_between(1, 2, 2)]));
    assert_eq!(table.active_edges(), 1);
}

#[test]
fn batch_asks_for_each_peer_that_is_not_in_memory() {
    let mut table = edge_table();
    let step = table.process_edges(EdgeBatch::new(vec![edge_between(0, 1, 1)]));
    let rest = match step {
        EdgeStep::Touch(peer, rest) => {
            // The table's own peer is not asked for.
            assert_eq!(peer, edge_peer(1));
            assert_eq!(rest.len(), 1);
            rest
        }
        EdgeStep::Done(_) => panic!("the peer was not asked for"),
    };
    assert!(table.needs_touch(&edge_peer(1)));
    assert!(!table.needs_touch(&edge_peer(0)));
    let stored = StoredComponent {
        nonce: StoreReply::Failed,
        edges: StoreReply::Missing,
        endpoints: vec![],
    };
    table.touch(&edge_peer(1), stored, 5_000);
    assert!(!table.needs_touch(&edge_peer(1)));
    assert_eq!(table.peer_last_time_reachable[&edge_peer(1)], 5_000);
    match table.process_edges(rest) {
        EdgeStep::Touch(_, _) => panic!("nothing is left to ask for"),
        EdgeStep::Done(result) => assert!(result.new_edge),
    }
}

#[test]
fn room_for_edges_is_known() {
    let table = edge_table();
    // One peer is known, the node itself.
    assert!(table.has_room_for(0));
    assert!(table.has_room_for(0x7fff_ffff));
    assert!(!table.has_room_for(0x8000_0000));
    assert_eq!(*table.peer_id(), edge_peer(0));
}

#[test]
fn known_edges_are_in_step_with_the_network() {
    let mut table = edge_table();
    take_in(
        &mut table,
        vec![
            edge_between(0, 1, 1),
            edge_between(1, 2, 3),
            edge_between(1, 2, 4),
            edge_between(2, 3, 2),
            edge_between(2, 3, 7),
        ],
    );
    table.update(false, 10, 10);
    let graph = table.get_raw_graph();
    assert_eq!(table.get_edges().len(), 3);
    for edge in table.get_edges() {
        let linked = graph.get(&edge.peer0).map_or(false, |peers| peers.contains(&edge.peer1));
        assert_eq!(linked, edge.edge_type() == EdgeType::Added);
    }
}
