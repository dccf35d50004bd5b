use routing::routing::RoutingTable;
use routing::state::ANNOUNCE_ACCOUNT_CACHE_SIZE;
use routing::store::{StoreOp, StoreReply, StoreUpdate};
use routing::types::{AnnounceAccount, Edge, FindRouteError, PeerId};

fn account_peer(n: u128) -> PeerId {
    (n, 11)
}

fn announce_of(name: &str, peer: u128, epoch: u128) -> AnnounceAccount {
    AnnounceAccount {
        account_id: name.to_string(),
        peer_id: account_peer(peer),
        epoch_id: (epoch, 0),
        signature: [9; 64],
    }
}

fn account_table() -> RoutingTable {
    RoutingTable::new(account_peer(0), StoreReply::Missing)
}

#[test]
fn announced_account_is_found_and_written() {
    let mut table = account_table();
    let announce = announce_of("alice.near", 1, 5);
    let update = table.add_account(announce.clone());
    assert_eq!(update, StoreUpdate { ops: vec![StoreOp::SetAnnouncement(announce.clone())] });
    let (found, update) = table.get_announce(&"alice.near".to_string(), StoreReply::Failed);
    assert_eq!(found, Some(announce));
    assert_eq!(update, StoreUpdate { ops: vec![] });
    let (owner, _) = table.account_owner(&"alice.near".to_string(), StoreReply::Missing);
    assert_eq!(owner, Ok(account_peer(1)));
}

#[test]
fn latest_announcement_counts() {
    let mut table = account_table();
    table.add_account(announce_of("alice.near", 1, 5));
    table.add_account(announce_of("alice.near", 2, 6));
    let (owner, _) = table.account_owner(&"alice.near".to_string(), StoreReply::Missing);
    assert_eq!(owner, Ok(account_peer(2)));
    assert_eq!(table.get_accounts_keys(), vec!["alice.near".to_string()]);
}

#[test]
fn unknown_account_has_no_owner() {
    let mut table = account_table();
    let (owner, update) = table.account_owner(&"bob.near".to_string(), StoreReply::Missing);
    assert_eq!(owner, Err(FindRouteError::AccountNotFound));
    assert_eq!(update, StoreUpdate { ops: vec![] });
    let (owner, _) = table.account_owner(&"bob.near".to_string(), StoreReply::Failed);
    assert_eq!(owner, Err(FindRouteError::AccountNotFound));
}

#[test]
fn account_comes_from_the_store_once() {
    let mut table = account_table();
    let announce = announce_of("bob.near", 3, 7);
    assert_eq!(table.announce_on_cache(&"bob.near".to_string()), None);
    let (found, update) =
        table.get_announce(&"bob.near".to_string(), StoreReply::Found(announce.clone()));
    assert_eq!(found, Some(announce.clone()));
    assert_eq!(update, StoreUpdate { ops: vec![StoreOp::SetAnnouncement(announce.clone())] });
    // From now on it is on cache.
    assert_eq!(table.announce_on_cache(&"bob.near".to_string()), Some(announce.clone()));
    let (found, update) = table.get_announce(&"bob.near".to_string(), StoreReply::Missing);
    assert_eq!(found, Some(announce));
    assert_eq!(update, StoreUpdate { ops: vec![] });
}

#[test]
fn account_is_contained_for_its_epoch_only() {
    let mut table = account_table();
    table.add_account(announce_of("alice.near", 1, 5));
    let (same, _) = table.contains_account(&announce_of("alice.near", 8, 5), StoreReply::Missing);
    assert!(same);
    let (next, _) = table.contains_account(&announce_of("alice.near", 1, 6), StoreReply::Missing);
    assert!(!next);
    let (none, _) = table.contains_account(&announce_of("carol.near", 1, 5), StoreReply::Missing);
    assert!(!none);
    let (stored, update) = table.contains_account(
        &announce_of("carol.near", 1, 5),
        StoreReply::Found(announce_of("carol.near", 2, 5)),
    );
    assert!(stored);
    assert_eq!(update.ops.len(), 1);
}

#[test]
fn accounts_are_listed_by_last_use() {
    let mut table = account_table();
    for (i, name) in ["a", "b", "c"].iter().enumerate() {
        table.add_account(announce_of(name, i as u128 + 1, 0));
    }
    assert_eq!(table.get_accounts_keys(), vec!["c", "b", "a"]);
    table.announce_on_cache(&"a".to_string());
    assert_eq!(table.get_accounts_keys(), vec!["a", "c", "b"]);
    // Asking again changes nothing.
    table.announce_on_cache(&"a".to_string());
    assert_eq!(table.get_accounts_keys(), vec!["a", "c", "b"]);
    // A new announcement keeps its place.
    table.add_account(announce_of("b", 9, 1));
    assert_eq!(table.get_accounts_keys(), vec!["a", "c", "b"]);
    let announces = table.get_announce_accounts();
    assert_eq!(announces.len(), 3);
    assert_eq!(announces[2], announce_of("b", 9, 1));
    assert_eq!(announces[0], announce_of("a", 1, 0));
}

#[test]
fn least_used_account_leaves_a_full_cache() {
    let mut table = account_table();
    for i in 0..ANNOUNCE_ACCOUNT_CACHE_SIZE {
        table.add_account(announce_of(&format!("account{}", i), 1, 0));
    }
    assert_eq!(table.get_accounts_keys().len(), ANNOUNCE_ACCOUNT_CACHE_SIZE);
    assert!(table.announce_on_cache(&"account0".to_string()).is_some());
    table.add_account(announce_of("one more", 1, 0));
    assert_eq!(table.get_accounts_keys().len(), ANNOUNCE_ACCOUNT_CACHE_SIZE);
    assert!(table.announce_on_cache(&"account0".to_string()).is_some());
    assert!(table.announce_on_cache(&"account1".to_string()).is_none());
    // The store still has it.
    let (found, _) = table.get_announce(
        &"account1".to_string(),
        StoreReply::Found(announce_of("account1", 1, 0)),
    );
    assert_eq!(found, Some(announce_of("account1", 1, 0)));
    assert!(table.announce_on_cache(&"account1".to_string()).is_some());
}

#[test]
fn full_cache_makes_room_even_for_a_known_account() {
    let mut table = account_table();
    for i in 0..ANNOUNCE_ACCOUNT_CACHE_SIZE {
        table.add_account(announce_of(&format!("account{}", i), 1, 0));
    }
    table.add_account(announce_of("account5", 2, 0));
    assert_eq!(table.get_accounts_keys().len(), ANNOUNCE_ACCOUNT_CACHE_SIZE - 1);
    assert!(table.announce_on_cache(&"account0".to_string()).is_none());
    assert_eq!(
        table.announce_on_cache(&"account5".to_string()),
        Some(announce_of("account5", 2, 0))
    );
}

#[test]
fn info_shows_accounts_and_routes() {
    let mut table = account_table();
    table.add_account(announce_of("a", 1, 0));
    table.add_account(announce_of("b", 2, 0));
    let (peer0, peer1) = Edge::key(account_peer(0), account_peer(1));
    table.add_edge(Edge {
        peer0,
        peer1,
        nonce: 1,
        signature0: [0; 64],
        signature1: [0; 64],
        removal_info: None,
    });
    table.update(false, 0, 0);
    let info = table.info();
    assert_eq!(
        info.account_peers,
        vec![("b".to_string(), account_peer(2)), ("a".to_string(), account_peer(1))]
    );
    assert_eq!(info.peer_forwarding.len(), 1);
    assert_eq!(info.peer_forwarding[&account_peer(1)], vec![account_peer(1)]);
}
