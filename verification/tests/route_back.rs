use routing::route_back::RouteBackCache;
use routing::types::{CryptoHash, PeerId};

fn back_peer(n: u128) -> PeerId {
    (1, n)
}

fn back_hash(n: u128) -> CryptoHash {
    (2, n)
}

#[test]
fn record_is_found_and_taken() {
    let mut cache = RouteBackCache::new(10, 1_000_000, 1);
    cache.insert(back_hash(0), back_peer(0), 0);
    assert_eq!(cache.get(&back_hash(0)), Some(&back_peer(0)));
    assert_eq!(cache.remove(&back_hash(0), 1), Some(back_peer(0)));
    assert_eq!(cache.get(&back_hash(0)), None);
    assert_eq!(cache.remove(&back_hash(0), 2), None);
}

#[test]
fn record_stays_while_there_is_room() {
    let mut cache = RouteBackCache::new(2, 1, 1);
    cache.insert(back_hash(0), back_peer(0), 0);
    // Long past the timeout, but the cache is not full.
    cache.insert(back_hash(1), back_peer(0), 1_000);
    assert_eq!(cache.get(&back_hash(0)), Some(&back_peer(0)));
    assert_eq!(cache.get(&back_hash(1)), Some(&back_peer(0)));
}

#[test]
fn full_cache_gives_up_what_is_too_old() {
    let mut cache = RouteBackCache::new(3, 10, 1);
    cache.insert(back_hash(0), back_peer(0), 0);
    cache.insert(back_hash(1), back_peer(1), 5);
    cache.insert(back_hash(2), back_peer(2), 12);
    cache.insert(back_hash(3), back_peer(3), 15);
    // 5 is the earliest time that is kept at 15.
    assert_eq!(cache.get(&back_hash(0)), None);
    assert_eq!(cache.get(&back_hash(1)), Some(&back_peer(1)));
    assert_eq!(cache.get(&back_hash(2)), Some(&back_peer(2)));
    assert_eq!(cache.get(&back_hash(3)), Some(&back_peer(3)));
}

#[test]
fn full_cache_gives_up_old_records_on_removal() {
    let mut cache = RouteBackCache::new(2, 10, 1);
    cache.insert(back_hash(0), back_peer(0), 0);
    cache.insert(back_hash(1), back_peer(1), 90);
    assert_eq!(cache.remove(&back_hash(0), 100), None);
    assert_eq!(cache.remove(&back_hash(1), 100), Some(back_peer(1)));
}

#[test]
fn full_cache_gives_up_records_of_the_busiest_peer() {
    let mut cache = RouteBackCache::new(5, 1_000, 2);
    cache.insert(back_hash(0), back_peer(0), 0);
    cache.insert(back_hash(1), back_peer(1), 1);
    cache.insert(back_hash(2), back_peer(1), 2);
    cache.insert(back_hash(3), back_peer(1), 3);
    cache.insert(back_hash(4), back_peer(2), 4);
    cache.insert(back_hash(5), back_peer(2), 5);
    // The two oldest records of peer 1 are gone.
    assert_eq!(cache.get(&back_hash(1)), None);
    assert_eq!(cache.get(&back_hash(2)), None);
    assert_eq!(cache.get(&back_hash(3)), Some(&back_peer(1)));
    assert_eq!(cache.get(&back_hash(0)), Some(&back_peer(0)));
    assert_eq!(cache.get(&back_hash(4)), Some(&back_peer(2)));
    assert_eq!(cache.get(&back_hash(5)), Some(&back_peer(2)));
}

#[test]
fn of_two_busy_peers_the_smaller_one_gives_up() {
    let mut cache = RouteBackCache::new(2, 1_000, 1);
    cache.insert(back_hash(0), back_peer(7), 0);
    cache.insert(back_hash(1), back_peer(3), 1);
    cache.insert(back_hash(2), back_peer(7), 2);
    assert_eq!(cache.get(&back_hash(1)), None);
    assert_eq!(cache.get(&back_hash(0)), Some(&back_peer(7)));
    assert_eq!(cache.get(&back_hash(2)), Some(&back_peer(7)));
}

#[test]
fn known_record_is_not_replaced() {
    let mut cache = RouteBackCache::new(1, 1_000, 1);
    cache.insert(back_hash(0), back_peer(0), 0);
    cache.insert(back_hash(0), back_peer(1), 1);
    assert_eq!(cache.get(&back_hash(0)), Some(&back_peer(0)));
}
