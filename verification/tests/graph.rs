use routing::graph::Graph;
use routing::topology::MAX_NUM_PEERS;
use routing::types::PeerId;
use std::collections::BTreeMap;

/// Peers that are spread over the space of keys.
fn graph_peer(n: u128) -> PeerId {
    (n.wrapping_mul(0x9e37_79b9_7f4a_7c15_f39c_c060_5ced_c835), n ^ 0x5bd1_e995)
}

fn graph_peers(from: u128, count: u128) -> Vec<PeerId> {
    (from..from + count).map(graph_peer).collect()
}

/// The tables hold the same peers, and for each of them the same next hops, in any order.
fn expected_routing_tables(
    current: BTreeMap<PeerId, Vec<PeerId>>,
    expected: Vec<(PeerId, Vec<PeerId>)>,
) -> bool {
    if current.len() != expected.len() {
        return false;
    }
    for (peer, paths) in expected.into_iter() {
        let found = match current.get(&peer) {
            Some(found) => found,
            None => return false,
        };
        if found.len() != paths.len() {
            return false;
        }
        if !paths.iter().all(|hop| found.contains(hop)) {
            return false;
        }
    }
    true
}

#[test]
fn graph_contains_edge() {
    let source = graph_peer(100);

    let node0 = graph_peer(101);
    let node1 = graph_peer(102);

    let mut graph = Graph::new(source.clone());

    assert_eq!(graph.contains_edge(&source, &node0), false);
    assert_eq!(graph.contains_edge(&source, &node1), false);
    assert_eq!(graph.contains_edge(&node0, &node1), false);
    assert_eq!(graph.contains_edge(&node1, &node0), false);

    graph.add_edge(node0.clone(), node1.clone());

    assert_eq!(graph.contains_edge(&source, &node0), false);
    assert_eq!(graph.contains_edge(&source, &node1), false);
    assert_eq!(graph.contains_edge(&node0, &node1), true);
    assert_eq!(graph.contains_edge(&node1, &node0), true);

    graph.remove_edge(&node1, &node0);

    assert_eq!(graph.contains_edge(&node0, &node1), false);
    assert_eq!(graph.contains_edge(&node1, &node0), false);
}

#[test]
fn graph_distance0() {
    let source = graph_peer(200);
    let node0 = graph_peer(201);

    let mut graph = Graph::new(source.clone());
    graph.add_edge(source.clone(), node0.clone());
    graph.remove_edge(&source, &node0);
    graph.add_edge(source.clone(), node0.clone());

    assert!(expected_routing_tables(
        graph.calculate_distance(),
        vec![(node0.clone(), vec![node0.clone()])],
    ));
}

#[test]
fn graph_distance1() {
    let source = graph_peer(300);
    let nodes = graph_peers(301, 3);

    let mut graph = Graph::new(source.clone());

    graph.add_edge(nodes[0].clone(), nodes[1].clone());
    graph.add_edge(nodes[2].clone(), nodes[1].clone());
    graph.add_edge(nodes[1].clone(), nodes[2].clone());

    assert!(expected_routing_tables(graph.calculate_distance(), vec![]));
}

#[test]
fn graph_distance2() {
    let source = graph_peer(400);
    let nodes = graph_peers(401, 3);

    let mut graph = Graph::new(source.clone());

    graph.add_edge(nodes[0].clone(), nodes[1].clone());
    graph.add_edge(nodes[2].clone(), nodes[1].clone());
    graph.add_edge(nodes[1].clone(), nodes[2].clone());
    graph.add_edge(source.clone(), nodes[0].clone());

    assert!(expected_routing_tables(
        graph.calculate_distance(),
        vec![
            (nodes[0].clone(), vec![nodes[0].clone()]),
            (nodes[1].clone(), vec![nodes[0].clone()]),
            (nodes[2].clone(), vec![nodes[0].clone()]),
        ],
    ));
}

#[test]
fn graph_distance3() {
    let source = graph_peer(500);
    let nodes = graph_peers(501, 3);

    let mut graph = Graph::new(source.clone());

    graph.add_edge(nodes[0].clone(), nodes[1].clone());
    graph.add_edge(nodes[2].clone(), nodes[1].clone());
    graph.add_edge(nodes[0].clone(), nodes[2].clone());
    graph.add_edge(source.clone(), nodes[0].clone());
    graph.add_edge(source.clone(), nodes[1].clone());

    assert!(expected_routing_tables(
        graph.calculate_distance(),
        vec![
            (nodes[0].clone(), vec![nodes[0].clone()]),
            (nodes[1].clone(), vec![nodes[1].clone()]),
            (nodes[2].clone(), vec![nodes[0].clone(), nodes[1].clone()]),
        ],
    ));
}

/// Test the following graph
///     0 - 3 - 6
///   /   x   x
/// s - 1 - 4 - 7
///   \   x   x
///     2 - 5 - 8
///
///    9 - 10 (Dummy edge disconnected)
///
/// There is a shortest path to nodes [3..9) going through 0, 1, and 2.
#[test]
fn graph_distance4() {
    let source = graph_peer(600);
    let nodes = graph_peers(601, 11);

    let mut graph = Graph::new(source.clone());

    for i in 0..3 {
        graph.add_edge(source.clone(), nodes[i].clone());
    }

    for level in 0..2 {
        for i in 0..3 {
            for j in 0..3 {
                graph.add_edge(nodes[level * 3 + i].clone(), nodes[level * 3 + 3 + j].clone());
            }
        }
    }

    // Dummy edge.
    graph.add_edge(nodes[9].clone(), nodes[10].clone());

    let mut next_hops: Vec<_> =
        (0..3).map(|i| (nodes[i].clone(), vec![nodes[i].clone()])).collect();
    let target: Vec<_> = (0..3).map(|i| nodes[i].clone()).collect();

    for i in 3..9 {
        next_hops.push((nodes[i].clone(), target.clone()));
    }

    assert!(expected_routing_tables(graph.calculate_distance(), next_hops));
}

#[test]
fn graph_counts_active_edges() {
    let nodes = graph_peers(700, 4);
    let mut graph = Graph::new(nodes[0]);
    assert_eq!(graph.active_edges(), 0);
    graph.add_edge(nodes[0], nodes[1]);
    graph.add_edge(nodes[1], nodes[2]);
    assert_eq!(graph.active_edges(), 2);
    // Known already, whichever end comes first.
    graph.add_edge(nodes[1], nodes[0]);
    assert_eq!(graph.active_edges(), 2);
    // Not there.
    graph.remove_edge(&nodes[2], &nodes[3]);
    assert_eq!(graph.active_edges(), 2);
    graph.remove_edge(&nodes[2], &nodes[1]);
    assert_eq!(graph.active_edges(), 1);
    assert_eq!(*graph.source(), nodes[0]);
}

#[test]
fn graph_gives_ids_of_lost_peers_again() {
    let nodes = graph_peers(800, 5);
    let mut graph = Graph::new(nodes[0]);
    graph.add_edge(nodes[1], nodes[2]);
    assert_eq!(graph.handed_out_ids(), 3);
    graph.remove_edge(&nodes[1], &nodes[2]);
    assert!(graph.neighbor_sets().len() == 1);
    graph.add_edge(nodes[3], nodes[4]);
    assert_eq!(graph.handed_out_ids(), 3);
    assert!(graph.contains_edge(&nodes[3], &nodes[4]));
    assert!(!graph.contains_edge(&nodes[1], &nodes[2]));
    assert!(!graph.contains_edge(&nodes[1], &nodes[4]));
}

#[test]
fn graph_remove_undoes_add() {
    let nodes = graph_peers(900, 4);
    let mut graph = Graph::new(nodes[0]);
    graph.add_edge(nodes[0], nodes[1]);
    graph.add_edge(nodes[1], nodes[2]);
    let before = graph.clone();
    graph.add_edge(nodes[2], nodes[3]);
    assert_eq!(graph.neighbor_sets().len(), 4);
    graph.remove_edge(&nodes[2], &nodes[3]);
    assert_eq!(graph.neighbor_sets(), before.neighbor_sets());
    assert_eq!(graph.calculate_distance(), before.calculate_distance());
}

#[test]
fn graph_lists_hops_in_the_order_of_links() {
    let source = graph_peer(1000);
    let nodes = graph_peers(1001, 4);
    let mut graph = Graph::new(source);
    graph.add_edge(source, nodes[2]);
    graph.add_edge(source, nodes[0]);
    graph.add_edge(source, nodes[1]);
    for i in 0..3 {
        graph.add_edge(nodes[i], nodes[3]);
    }
    let routes = graph.calculate_distance();
    assert_eq!(routes[&nodes[3]], vec![nodes[2], nodes[0], nodes[1]]);
}

#[test]
fn graph_prefers_the_shorter_way() {
    // s - 0 - 1 - 3, and s - 2 - 3.
    let source = graph_peer(1100);
    let nodes = graph_peers(1101, 4);
    let mut graph = Graph::new(source);
    graph.add_edge(source, nodes[0]);
    graph.add_edge(nodes[0], nodes[1]);
    graph.add_edge(nodes[1], nodes[3]);
    graph.add_edge(source, nodes[2]);
    graph.add_edge(nodes[2], nodes[3]);
    let routes = graph.calculate_distance();
    assert_eq!(routes[&nodes[3]], vec![nodes[2]]);
    assert_eq!(routes[&nodes[1]], vec![nodes[0]]);
    assert!(!routes.contains_key(&source));
}

#[test]
fn graph_uses_the_first_neighbors_as_hops() {
    let source = graph_peer(2000);
    let nodes = graph_peers(2001, 131);
    let mut graph = Graph::new(source);
    for i in 0..130 {
        graph.add_edge(source, nodes[i]);
    }
    graph.add_edge(nodes[127], nodes[130]);
    graph.add_edge(nodes[129], nodes[130]);
    let routes = graph.calculate_distance();
    assert_eq!(MAX_NUM_PEERS, 128);
    assert_eq!(routes[&nodes[127]], vec![nodes[127]]);
    // A neighbor beyond the limit is linked with the source only, and that link is not used.
    assert!(!routes.contains_key(&nodes[128]));
    // One that is linked with another peer is reached through that one.
    assert_eq!(routes[&nodes[130]], vec![nodes[127]]);
    assert_eq!(routes[&nodes[129]], vec![nodes[127]]);
    assert_eq!(graph.unreachable_nodes(&routes), 1);
}

#[test]
fn graph_counts_peers_without_a_route() {
    let nodes = graph_peers(2500, 5);
    let mut graph = Graph::new(nodes[0]);
    graph.add_edge(nodes[0], nodes[1]);
    graph.add_edge(nodes[2], nodes[3]);
    graph.add_edge(nodes[3], nodes[4]);
    assert_eq!(graph.unreachable_nodes(&graph.calculate_distance()), 3);
}

#[test]
fn graph_add_undoes_remove() {
    let nodes = graph_peers(3000, 3);
    let mut graph = Graph::new(nodes[0]);
    graph.add_edge(nodes[0], nodes[1]);
    graph.add_edge(nodes[0], nodes[2]);
    let before = graph.neighbor_sets();
    graph.remove_edge(&nodes[1], &nodes[0]);
    assert!(graph.neighbor_sets() != before);
    graph.add_edge(nodes[0], nodes[1]);
    assert_eq!(graph.neighbor_sets(), before);
    assert_eq!(graph.active_edges(), 2);
}

#[test]
fn graph_goes_by_the_last_call() {
    let nodes = graph_peers(3500, 3);
    let mut graph = Graph::new(nodes[0]);
    graph.add_edge(nodes[1], nodes[2]);
    graph.remove_edge(&nodes[2], &nodes[1]);
    graph.add_edge(nodes[0], nodes[1]);
    graph.add_edge(nodes[2], nodes[1]);
    graph.remove_edge(&nodes[1], &nodes[0]);
    assert!(graph.contains_edge(&nodes[1], &nodes[2]));
    assert!(!graph.contains_edge(&nodes[0], &nodes[1]));
    assert!(!graph.contains_edge(&nodes[0], &nodes[2]));
    assert!(!graph.contains_edge(&nodes[1], &nodes[1]));
    assert_eq!(graph.known_peers(), 3);
}

#[test]
fn graph_link_within_a_level_changes_no_route() {
    // s - 0 - 2, s - 1 - 3, and 4 - 5 apart.
    let source = graph_peer(3600);
    let nodes = graph_peers(3601, 6);
    let mut graph = Graph::new(source);
    graph.add_edge(source, nodes[0]);
    graph.add_edge(source, nodes[1]);
    graph.add_edge(nodes[0], nodes[2]);
    graph.add_edge(nodes[1], nodes[3]);
    let routes = graph.calculate_distance();
    graph.add_edge(nodes[0], nodes[1]);
    graph.add_edge(nodes[2], nodes[3]);
    graph.add_edge(nodes[4], nodes[5]);
    assert_eq!(graph.calculate_distance(), routes);
    // A link between two levels does.
    graph.add_edge(nodes[0], nodes[3]);
    assert_eq!(graph.calculate_distance()[&nodes[3]].len(), 2);
}

#[test]
fn graph_hands_out_no_id_for_a_known_link() {
    let nodes = graph_peers(3700, 3);
    let mut graph = Graph::new(nodes[0]);
    graph.add_edge(nodes[0], nodes[1]);
    graph.add_edge(nodes[1], nodes[2]);
    assert_eq!(graph.handed_out_ids(), 3);
    graph.add_edge(nodes[2], nodes[1]);
    assert_eq!(graph.handed_out_ids(), 3);
    assert_eq!(graph.source, nodes[0]);
}
