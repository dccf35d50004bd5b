use routing::routing::RoutingTable;
use routing::state::{PENDING_PINGS_PER_PEER, PING_PONG_CACHE_SIZE};
use routing::store::StoreReply;
use routing::types::{PeerId, Ping, Pong};

fn ping_peer(n: u128) -> PeerId {
    (13, n)
}

fn ping_table() -> RoutingTable {
    RoutingTable::new(ping_peer(0), StoreReply::Missing)
}

#[test]
fn pings_are_numbered_by_peer() {
    let mut table = ping_table();
    assert_eq!(table.get_ping(ping_peer(1)), 0);
    assert_eq!(table.get_ping(ping_peer(1)), 1);
    assert_eq!(table.get_ping(ping_peer(2)), 0);
    assert_eq!(table.get_ping(ping_peer(1)), 2);
    assert_eq!(table.try_get_ping(ping_peer(2)), Some(1));
    assert_eq!(table.try_get_ping(ping_peer(3)), Some(0));
}

#[test]
fn pong_tells_the_time_of_the_round_trip_once() {
    let mut table = ping_table();
    table.sending_ping(4, ping_peer(1), 1_000);
    let pong = Pong { nonce: 4, source: ping_peer(1) };
    assert_eq!(table.add_pong(pong, 251_000), Some(250_000));
    assert_eq!(table.add_pong(pong, 252_000), None);
}

#[test]
fn pong_that_nobody_waits_for_tells_nothing() {
    let mut table = ping_table();
    table.sending_ping(4, ping_peer(1), 1_000);
    assert_eq!(table.add_pong(Pong { nonce: 4, source: ping_peer(2) }, 2_000), None);
    assert_eq!(table.add_pong(Pong { nonce: 5, source: ping_peer(1) }, 2_000), None);
    assert_eq!(table.add_pong(Pong { nonce: 4, source: ping_peer(1) }, 2_000), Some(1_000));
}

#[test]
fn clock_that_goes_back_gives_no_time() {
    let mut table = ping_table();
    table.sending_ping(1, ping_peer(1), 5_000);
    assert_eq!(table.add_pong(Pong { nonce: 1, source: ping_peer(1) }, 4_000), Some(0));
}

#[test]
fn few_pings_to_a_peer_are_waited_for() {
    let mut table = ping_table();
    for nonce in 0..=PENDING_PINGS_PER_PEER {
        table.sending_ping(nonce, ping_peer(1), nonce as u64);
    }
    assert_eq!(PENDING_PINGS_PER_PEER, 10);
    assert_eq!(table.add_pong(Pong { nonce: 0, source: ping_peer(1) }, 100), None);
    assert_eq!(table.add_pong(Pong { nonce: 1, source: ping_peer(1) }, 100), Some(99));
    assert_eq!(table.add_pong(Pong { nonce: 10, source: ping_peer(1) }, 100), Some(90));
}

#[test]
fn peer_that_waited_longest_is_forgotten() {
    let mut table = ping_table();
    for n in 0..=PING_PONG_CACHE_SIZE {
        table.sending_ping(1, ping_peer(n as u128), 10);
    }
    assert_eq!(table.add_pong(Pong { nonce: 1, source: ping_peer(0) }, 30), None);
    assert_eq!(table.add_pong(Pong { nonce: 1, source: ping_peer(1) }, 30), Some(20));
}

#[test]
fn pings_and_pongs_are_remembered_by_nonce() {
    let mut table = ping_table();
    table.add_ping(Ping { nonce: 1, source: ping_peer(1) });
    table.add_ping(Ping { nonce: 2, source: ping_peer(2) });
    table.add_ping(Ping { nonce: 1, source: ping_peer(3) });
    table.add_pong(Pong { nonce: 7, source: ping_peer(4) }, 0);
    let (pings, pongs) = table.fetch_ping_pong();
    assert_eq!(pings.len(), 2);
    assert_eq!(pings[&1], Ping { nonce: 1, source: ping_peer(3) });
    assert_eq!(pings[&2], Ping { nonce: 2, source: ping_peer(2) });
    assert_eq!(pongs.len(), 1);
    assert_eq!(pongs[&7], Pong { nonce: 7, source: ping_peer(4) });
}

#[test]
fn oldest_pings_are_forgotten() {
    let mut table = ping_table();
    for nonce in 0..=PING_PONG_CACHE_SIZE as u64 {
        table.add_ping(Ping { nonce, source: ping_peer(1) });
    }
    let (pings, _) = table.fetch_ping_pong();
    assert_eq!(pings.len(), PING_PONG_CACHE_SIZE);
    assert!(!pings.contains_key(&0));
    assert!(pings.contains_key(&1));
    assert!(pings.contains_key(&PING_PONG_CACHE_SIZE));
}

#[test]
fn waiting_pings_are_those_without_an_answer() {
    let mut table = ping_table();
    table.sending_ping(1, ping_peer(1), 10);
    table.sending_ping(2, ping_peer(1), 20);
    table.sending_ping(1, ping_peer(2), 30);
    table.sending_ping(3, ping_peer(1), 40);
    // Sent again: the last time counts.
    table.sending_ping(2, ping_peer(1), 50);
    assert_eq!(table.add_pong(Pong { nonce: 1, source: ping_peer(1) }, 100), Some(90));
    // The others still wait.
    assert_eq!(table.add_pong(Pong { nonce: 1, source: ping_peer(2) }, 100), Some(70));
    assert_eq!(table.add_pong(Pong { nonce: 2, source: ping_peer(1) }, 100), Some(50));
    assert_eq!(table.add_pong(Pong { nonce: 3, source: ping_peer(1) }, 100), Some(60));
    for nonce in 1..4 {
        assert_eq!(table.add_pong(Pong { nonce, source: ping_peer(1) }, 100), None);
    }
    table.sending_ping(1, ping_peer(1), 200);
    assert_eq!(table.add_pong(Pong { nonce: 1, source: ping_peer(1) }, 201), Some(1));
}
