use routing::routing::RoutingTable;
use routing::store::StoreReply;
use routing::types::{Edge, FindRouteError, PeerId, PeerIdOrHash};

fn route_peer(n: u128) -> PeerId {
    (3, n)
}

fn route_edge(a: u128, b: u128, nonce: u64) -> Edge {
    let (peer0, peer1) = Edge::key(route_peer(a), route_peer(b));
    Edge { peer0, peer1, nonce, signature0: [0; 64], signature1: [0; 64], removal_info: None }
}

/// The source 0 reaches 9 through each of the given neighbors.
fn table_with_hops(hops: u128) -> RoutingTable {
    let mut table = RoutingTable::new(route_peer(0), StoreReply::Missing);
    for hop in 1..=hops {
        table.add_edge(route_edge(0, hop, 1));
        table.add_edge(route_edge(hop, 9, 1));
    }
    table.update(false, 1_000, 1_000);
    table
}

#[test]
fn unknown_peer_has_no_route() {
    let mut table = table_with_hops(2);
    assert_eq!(table.find_route_from_peer_id(&route_peer(77)), Err(FindRouteError::PeerNotFound));
    assert_eq!(table.find_route_from_peer_id(&route_peer(0)), Err(FindRouteError::PeerNotFound));
}

#[test]
fn peer_without_hops_is_disconnected() {
    let mut table = table_with_hops(1);
    table.peer_forwarding.insert(route_peer(50), vec![]);
    assert_eq!(table.find_route_from_peer_id(&route_peer(50)), Err(FindRouteError::Disconnected));
}

#[test]
fn neighbor_is_its_own_next_hop() {
    let mut table = table_with_hops(3);
    for hop in 1..=3 {
        assert_eq!(table.find_route_from_peer_id(&route_peer(hop)), Ok(route_peer(hop)));
    }
}

#[test]
fn hops_take_turns() {
    let mut table = table_with_hops(3);
    let mut taken = vec![];
    for _ in 0..7 {
        taken.push(table.find_route_from_peer_id(&route_peer(9)).unwrap());
    }
    let turns: Vec<PeerId> = [1, 2, 3, 1, 2, 3, 1].iter().map(|&n| route_peer(n)).collect();
    assert_eq!(taken, turns);
}

#[test]
fn hop_that_lags_catches_up() {
    let mut table = table_with_hops(2);
    // Neighbor 2 is used 25 times on its own.
    for _ in 0..25 {
        assert_eq!(table.find_route_from_peer_id(&route_peer(2)), Ok(route_peer(2)));
    }
    // Neighbor 1 lags by 25 and starts at 15: it is used for counts 16 to 25, and then once more,
    // since it is the smaller one.
    let mut first = 0;
    while table.find_route_from_peer_id(&route_peer(9)).unwrap() == route_peer(1) {
        first += 1;
    }
    assert_eq!(first, 11);
}

#[test]
fn hop_that_lags_a_little_does_not_catch_up() {
    let mut table = table_with_hops(2);
    for _ in 0..10 {
        table.find_route_from_peer_id(&route_peer(2)).unwrap();
    }
    let mut first = 0;
    while table.find_route_from_peer_id(&route_peer(9)).unwrap() == route_peer(1) {
        first += 1;
    }
    assert_eq!(first, 11);
}

#[test]
fn route_can_be_asked_for_without_knowing_the_counts() {
    let mut table = table_with_hops(2);
    assert_eq!(table.try_find_route_from_peer_id(&route_peer(9)), Some(Ok(route_peer(1))));
    assert_eq!(
        table.try_find_route(&PeerIdOrHash::PeerId(route_peer(9)), 5),
        Some(Ok(route_peer(2)))
    );
    assert_eq!(
        table.try_find_route(&PeerIdOrHash::Hash((1, 1)), 5),
        Some(Err(FindRouteError::RouteBackNotFound))
    );
}

#[test]
fn update_forgets_routes_over_lost_links() {
    let mut table = table_with_hops(2);
    table.add_edge(route_edge(0, 1, 2));
    // The routes are those of the last update.
    assert_eq!(table.find_route_from_peer_id(&route_peer(1)), Ok(route_peer(1)));
    table.update(false, 2_000, 2_000);
    // Now 1 is reached through 2 and 9.
    assert_eq!(table.find_route_from_peer_id(&route_peer(1)), Ok(route_peer(2)));
    assert_eq!(table.find_route_from_peer_id(&route_peer(9)), Ok(route_peer(2)));
    let mut reachable = table.reachable_peers();
    reachable.sort();
    assert_eq!(reachable, vec![route_peer(1), route_peer(2), route_peer(9)]);
    assert_eq!(table.peer_last_time_reachable[&route_peer(9)], 2_000);
    assert_eq!(table.unreachable_peers(), 0);
    table.add_edge(route_edge(0, 2, 2));
    table.update(false, 3_000, 3_000);
    assert_eq!(table.reachable_peers(), vec![]);
    assert_eq!(table.unreachable_peers(), 3);
}

#[test]
fn answer_goes_back_once() {
    let mut table = table_with_hops(1);
    table.add_route_back((5, 6), route_peer(4), 100);
    assert!(table.compare_route_back((5, 6), &route_peer(4)));
    assert!(!table.compare_route_back((5, 6), &route_peer(3)));
    assert!(!table.compare_route_back((5, 7), &route_peer(4)));
    assert_eq!(table.find_route(&PeerIdOrHash::Hash((5, 6)), 200), Ok(route_peer(4)));
    assert_eq!(
        table.find_route(&PeerIdOrHash::Hash((5, 6)), 200),
        Err(FindRouteError::RouteBackNotFound)
    );
    assert!(!table.compare_route_back((5, 6), &route_peer(4)));
}

#[test]
fn first_sender_of_a_message_counts() {
    let mut table = table_with_hops(1);
    table.add_route_back((5, 6), route_peer(4), 100);
    table.add_route_back((5, 6), route_peer(3), 150);
    assert_eq!(table.fetch_route_back((5, 6), 200), Some(route_peer(4)));
    assert_eq!(table.fetch_route_back((5, 6), 200), None);
}

#[test]
fn no_hop_is_chosen_over_and_over() {
    let mut table = table_with_hops(2);
    for _ in 0..1_000 {
        table.find_route_from_peer_id(&route_peer(2)).unwrap();
    }
    let mut row = 0;
    let mut last = route_peer(0);
    for _ in 0..100 {
        let hop = table.find_route_from_peer_id(&route_peer(9)).unwrap();
        row = if hop == last { row + 1 } else { 1 };
        last = hop;
        assert!(row <= 11);
    }
}

#[test]
fn routes_can_be_set_after_they_are_calculated() {
    let mut table = table_with_hops(1);
    table.add_edge(route_edge(9, 10, 1));
    let routes = table.calculate_routes();
    assert_eq!(routes[&route_peer(10)], vec![route_peer(1)]);
    table.set_routes(routes, 7_000);
    assert_eq!(table.find_route_from_peer_id(&route_peer(10)), Ok(route_peer(1)));
    assert_eq!(table.peer_last_time_reachable[&route_peer(10)], 7_000);
}
