//! How the use of next hops is spread.
use crate::laws::keys::{law_keys_are_ordered_by_their_bytes, number_of};
use crate::laws::routes::lemma_least_used_exists;
use crate::lru::{
    bounded, distinct, evicted, has_key, lemma_evicted, lemma_lookup, lemma_lookup_is, lemma_stored,
    lemma_touched, lemma_touched_all, lemma_touched_all_first, lookup, position, stored, touched,
    touched_all,
};
use crate::sequences::lemma_push_contains;
use crate::state::{
    TableState, ROUND_ROBIN_MAX_NONCE_DIFFERENCE_ALLOWED, ROUND_ROBIN_NONCE_CACHE_SIZE,
};
use crate::topology::MAX_NUM_PEERS;
use crate::types::{FindRouteError, PeerId};
use vstd::prelude::*;

verus! {

/// Among some hops one was used most.
proof fn lemma_most_uses_exists(table: TableState, routes: Seq<PeerId>) -> (most: usize)
    requires
        routes.len() > 0,
    ensures
        table.is_most_uses(routes, most),
    decreases routes.len(),
{
    let last = routes.last();
    let rest = routes.drop_last();
    assert(routes =~= rest.push(last));
    assert forall|p: PeerId| #[trigger] routes.contains(p) <==> rest.contains(p) || p == last by {
        lemma_push_contains(rest, last, p);
    }
    assert(routes.contains(last));
    if rest.len() == 0 {
        assert(table.is_most_uses(routes, table.uses(last)));
        table.uses(last)
    } else {
        let most = lemma_most_uses_exists(table, rest);
        if table.uses(last) > most {
            assert(table.is_most_uses(routes, table.uses(last)));
            table.uses(last)
        } else {
            let top = choose|p: PeerId| #[trigger] rest.contains(p) && table.uses(p) == most;
            assert(routes.contains(top));
            assert(table.is_most_uses(routes, most));
            most
        }
    }
}

/// Storing a key does not cost an entry that is not the last one.
proof fn lemma_kept(entries: Seq<(PeerId, usize)>, limit: nat, key: PeerId, value: usize, other: PeerId)
    requires
        bounded(entries, limit),
        other != key,
        entries.len() == limit ==> entries.last().0 != other,
    ensures
        lookup(stored(entries, limit, key, value), other) == lookup(entries, other),
{
    lemma_stored(entries, limit, key, value);
    lemma_evicted(entries, limit);
}

/// The uses of a hop that is not chosen stay as they are.
proof fn lemma_other_uses(table: TableState, routes: Seq<PeerId>, other: PeerId)
    requires
        bounded(table.nonces, ROUND_ROBIN_NONCE_CACHE_SIZE as nat),
        routes.len() <= MAX_NUM_PEERS,
        routes.contains(other),
        other != table.least_used(routes),
    ensures
        lookup(table.nonces_counted(routes), other) == lookup(table.nonces, other),
{
    let limit = ROUND_ROBIN_NONCE_CACHE_SIZE as nat;
    let hop = table.least_used(routes);
    let most = table.most_uses(routes);
    let seen = touched_all(table.nonces, routes);
    let nonces = table.nonces_caught_up(routes);
    lemma_touched_all(table.nonces, routes);
    lemma_touched_all_first(table.nonces, routes);
    if seen.len() == limit {
        assert(seen[seen.len() - 1] == seen.last());
    }
    if table.uses(hop) + ROUND_ROBIN_MAX_NONCE_DIFFERENCE_ALLOWED < most {
        let value = (most - ROUND_ROBIN_MAX_NONCE_DIFFERENCE_ALLOWED) as usize;
        lemma_kept(seen, limit, hop, value, other);
        lemma_stored(seen, limit, hop, value);
        lemma_evicted(seen, limit);
    }
    // The entry is not the last one of the cache that the use is counted in.
    assert(bounded(nonces, limit));
    let front = touched(nonces, hop);
    lemma_touched(nonces, hop);
    if front.len() == limit {
        lemma_not_last(table, routes, other);
    }
    let next = match lookup(nonces, hop) {
        Some(nonce) => (nonce + 1) as usize,
        None => 1usize,
    };
    lemma_kept(front, limit, hop, next, other);
}

proof fn lemma_not_last(table: TableState, routes: Seq<PeerId>, other: PeerId)
    requires
        bounded(table.nonces, ROUND_ROBIN_NONCE_CACHE_SIZE as nat),
        routes.len() <= MAX_NUM_PEERS,
        routes.contains(other),
        other != table.least_used(routes),
        touched(table.nonces_caught_up(routes), table.least_used(routes)).len()
            == ROUND_ROBIN_NONCE_CACHE_SIZE,
    ensures
        touched(table.nonces_caught_up(routes), table.least_used(routes)).last().0 != other,
{
    let limit = ROUND_ROBIN_NONCE_CACHE_SIZE as nat;
    let hop = table.least_used(routes);
    let most = table.most_uses(routes);
    let seen = touched_all(table.nonces, routes);
    let nonces = table.nonces_caught_up(routes);
    lemma_touched_all(table.nonces, routes);
    lemma_touched_all_first(table.nonces, routes);
    if table.uses(hop) + ROUND_ROBIN_MAX_NONCE_DIFFERENCE_ALLOWED < most {
        let value = (most - ROUND_ROBIN_MAX_NONCE_DIFFERENCE_ALLOWED) as usize;
        lemma_stored(seen, limit, hop, value);
        lemma_evicted(seen, limit);
    }
    lemma_touched(nonces, hop);
    let front = touched(nonces, hop);
    let rest = evicted(seen, limit);
    // In the cache with the hop caught up, an entry stands at most one place behind where the
    // lookups left it.
    assert forall|i: int| 0 <= i < nonces.len() && (#[trigger] nonces[i]).0 == other implies i
        <= routes.len() by {
        if table.uses(hop) + ROUND_ROBIN_MAX_NONCE_DIFFERENCE_ALLOWED < most {
            if has_key(rest, hop) {
                assert(rest[position(rest, hop)].0 == hop);
                assert(nonces[i] == rest[i]);
                assert(seen[i].0 == other);
            } else {
                assert(i > 0);
                assert(nonces[i] == rest[i - 1]);
                assert(seen[i - 1].0 == other);
            }
        } else {
            assert(seen[i].0 == other);
        }
    }
    let last = front.len() - 1;
    if front[last].0 == other {
        if has_key(nonces, hop) {
            let at = position(nonces, hop);
            assert(nonces[at].0 == hop);
            let x = if last <= at {
                last - 1
            } else {
                last
            };
            assert(front[last] == nonces[x]);
            assert(x <= routes.len());
        } else {
            assert(nonces[last].0 == other);
        }
    }
}

/// What one use does to the counts, whatever the cache has to give up for it: the chosen hop is
/// counted, and no other count grows.
proof fn lemma_counts_after(table: TableState, peer: PeerId)
    requires
        bounded(table.nonces, ROUND_ROBIN_NONCE_CACHE_SIZE as nat),
        table.forwarding.contains_key(peer),
        table.forwarding[peer].len() > 0,
        table.can_count_use(peer),
    ensures
        ({
            let routes = table.forwarding[peer];
            let hop = table.least_used(routes);
            let after = table.with_route_to(peer);
            &&& bounded(after.nonces, ROUND_ROBIN_NONCE_CACHE_SIZE as nat)
            &&& table.is_least_used(routes, hop)
            &&& table.uses(hop) < after.uses(hop)
            &&& forall|other: PeerId| #[trigger]
                routes.contains(other) ==> after.uses(hop)
                    + ROUND_ROBIN_MAX_NONCE_DIFFERENCE_ALLOWED > table.uses(other)
            &&& after.uses(hop) == table.uses(hop) + 1 || exists|other: PeerId| #[trigger]
                routes.contains(other) && after.uses(hop) == table.uses(other)
                    - ROUND_ROBIN_MAX_NONCE_DIFFERENCE_ALLOWED + 1
            &&& forall|other: PeerId|
                other != hop ==> #[trigger] after.uses(other) <= table.uses(other)
        }),
{
    let limit = ROUND_ROBIN_NONCE_CACHE_SIZE as nat;
    let routes = table.forwarding[peer];
    let after = table.with_route_to(peer);
    let one = lemma_least_used_exists(table, routes);
    let hop = table.least_used(routes);
    assert(table.is_least_used(routes, hop));
    let top = lemma_most_uses_exists(table, routes);
    let most = table.most_uses(routes);
    assert(table.is_most_uses(routes, most));
    let spare = choose|p: PeerId| #[trigger] routes.contains(p) && table.uses(p) < usize::MAX;
    assert(spare == hop || table.preferred(hop, spare));
    let seen = touched_all(table.nonces, routes);
    let nonces = table.nonces_caught_up(routes);
    lemma_touched_all(table.nonces, routes);
    assert(lookup(seen, hop) == lookup(table.nonces, hop));
    if table.uses(hop) + ROUND_ROBIN_MAX_NONCE_DIFFERENCE_ALLOWED < most {
        let value = (most - ROUND_ROBIN_MAX_NONCE_DIFFERENCE_ALLOWED) as usize;
        lemma_stored(seen, limit, hop, value);
        lemma_evicted(seen, limit);
        let full = choose|p: PeerId| #[trigger] routes.contains(p) && table.uses(p) == most;
        assert(routes.contains(full));
    }
    let front = touched(nonces, hop);
    lemma_touched(nonces, hop);
    let next = match lookup(nonces, hop) {
        Some(nonce) => (nonce + 1) as usize,
        None => 1usize,
    };
    lemma_stored(front, limit, hop, next);
    lemma_evicted(front, limit);
    assert forall|other: PeerId| other != hop implies #[trigger] after.uses(other) <= table.uses(
        other,
    ) by {
        assert(lookup(after.nonces, other) == lookup(evicted(front, limit), other));
        assert(lookup(front, other) == lookup(nonces, other));
        if table.uses(hop) + ROUND_ROBIN_MAX_NONCE_DIFFERENCE_ALLOWED < most {
            assert(lookup(nonces, other) == lookup(evicted(seen, limit), other));
        }
        assert(lookup(seen, other) == lookup(table.nonces, other));
    }
}

/// The next hop is one that was used least, and its use is counted: it is used once more, after
/// being brought up to the threshold below the one used most. So it ends less than the threshold
/// behind that one. The counts of the other hops on the way stay.
pub proof fn law_least_used_hop_is_counted(table: TableState, peer: PeerId)
    requires
        table.valid(),
        table.forwarding.contains_key(peer),
        0 < table.forwarding[peer].len() <= MAX_NUM_PEERS,
        table.can_count_use(peer),
    ensures
        ({
            let routes = table.forwarding[peer];
            let after = table.with_route_to(peer);
            table.route_to(peer) matches Ok(hop) && {
                &&& routes.contains(hop)
                &&& forall|other: PeerId| #[trigger]
                    routes.contains(other) ==> table.uses(hop) <= table.uses(other)
                &&& table.uses(hop) < after.uses(hop)
                &&& forall|other: PeerId| #[trigger]
                    routes.contains(other) ==> after.uses(hop)
                        + ROUND_ROBIN_MAX_NONCE_DIFFERENCE_ALLOWED > table.uses(other)
                &&& after.uses(hop) == table.uses(hop) + 1 || exists|other: PeerId| #[trigger]
                    routes.contains(other) && after.uses(hop) == table.uses(other)
                        - ROUND_ROBIN_MAX_NONCE_DIFFERENCE_ALLOWED + 1
                &&& forall|other: PeerId| #[trigger]
                    routes.contains(other) && other != hop ==> after.uses(other) == table.uses(other)
            }
        }),
{
    lemma_counts_after(table, peer);
    let routes = table.forwarding[peer];
    let hop = table.least_used(routes);
    let after = table.with_route_to(peer);
    assert forall|other: PeerId| #[trigger] routes.contains(other) implies table.uses(hop)
        <= table.uses(other) by {
        assert(other == hop || table.preferred(hop, other));
    }
    assert forall|other: PeerId| #[trigger] routes.contains(other) && other != hop implies after.uses(
        other,
    ) == table.uses(other) by {
        lemma_other_uses(table, routes, other);
    }
}

/// Hops take turns: if another hop on the way was used as little as the one that is chosen, the
/// next choice is a different one.
pub proof fn law_hops_take_turns(table: TableState, peer: PeerId, other: PeerId)
    requires
        table.valid(),
        table.forwarding.contains_key(peer),
        table.can_count_use(peer),
        table.forwarding[peer].contains(other),
        table.route_to(peer) != Ok::<PeerId, FindRouteError>(other),
        table.uses(other) <= table.uses(table.least_used(table.forwarding[peer])),
    ensures
        table.with_route_to(peer).route_to(peer) != table.route_to(peer),
{
    assert(table.forwarding[peer].len() > 0);
    lemma_counts_after(table, peer);
    let after = table.with_route_to(peer);
    let routes = table.forwarding[peer];
    let hop = table.least_used(routes);
    let one = lemma_least_used_exists(after, routes);
    assert(after.is_least_used(routes, after.least_used(routes)));
    assert(after.uses(other) <= table.uses(other));
    if after.least_used(routes) == hop {
        assert(after.preferred(hop, other));
    }
}

/// The table after some routes to a peer were asked for, one after the other.
pub open spec fn after_routes(table: TableState, peer: PeerId, n: nat) -> TableState
    decreases n,
{
    if n == 0 {
        table
    } else {
        after_routes(table, peer, (n - 1) as nat).with_route_to(peer)
    }
}

/// While one hop is chosen its count grows, and by more than the threshold it had to catch up with.
proof fn lemma_chosen_in_a_row(table: TableState, peer: PeerId, hop: PeerId, n: nat)
    requires
        bounded(table.nonces, ROUND_ROBIN_NONCE_CACHE_SIZE as nat),
        table.forwarding.contains_key(peer),
        table.forwarding[peer].len() > 0,
        forall|i: nat| i < n ==> (#[trigger] after_routes(table, peer, i)).can_count_use(peer),
        forall|i: nat|
            i < n ==> (#[trigger] after_routes(table, peer, i)).route_to(peer) == Ok::<
                PeerId,
                FindRouteError,
            >(hop),
    ensures
        ({
            let after = after_routes(table, peer, n);
            &&& after.forwarding == table.forwarding
            &&& bounded(after.nonces, ROUND_ROBIN_NONCE_CACHE_SIZE as nat)
            &&& forall|other: PeerId|
                other != hop ==> #[trigger] after.uses(other) <= table.uses(other)
            &&& n > 0 ==> forall|other: PeerId| #[trigger]
                table.forwarding[peer].contains(other) ==> after.uses(hop)
                    + ROUND_ROBIN_MAX_NONCE_DIFFERENCE_ALLOWED >= table.uses(other) + n
        }),
    decreases n,
{
    if n > 0 {
        let m = (n - 1) as nat;
        lemma_chosen_in_a_row(table, peer, hop, m);
        let before = after_routes(table, peer, m);
        let after = after_routes(table, peer, n);
        assert(before.can_count_use(peer));
        assert(before.route_to(peer) == Ok::<PeerId, FindRouteError>(hop));
        lemma_counts_after(before, peer);
        assert(before.least_used(before.forwarding[peer]) == hop);
        assert forall|other: PeerId| other != hop implies #[trigger] after.uses(other)
            <= table.uses(other) by {
            assert(before.uses(other) <= table.uses(other));
        }
        if m == 0 {
            assert(before == table);
        }
    }
}

/// With another hop on the way, no hop is chosen more than eleven times in a row, however far the
/// counts had drifted apart.
pub proof fn law_no_hop_is_chosen_over_and_over(
    table: TableState,
    peer: PeerId,
    hop: PeerId,
    other: PeerId,
)
    requires
        table.valid(),
        table.forwarding.contains_key(peer),
        table.forwarding[peer].contains(other),
        other != hop,
        forall|i: nat| i < 12 ==> (#[trigger] after_routes(table, peer, i)).can_count_use(peer),
    ensures
        exists|i: nat|
            i < 12 && (#[trigger] after_routes(table, peer, i)).route_to(peer) != Ok::<
                PeerId,
                FindRouteError,
            >(hop),
{
    if forall|i: nat|
        i < 12 ==> (#[trigger] after_routes(table, peer, i)).route_to(peer) == Ok::<
            PeerId,
            FindRouteError,
        >(hop) {
        assert(table.forwarding[peer].len() > 0);
        lemma_chosen_in_a_row(table, peer, hop, 11);
        let late = after_routes(table, peer, 11);
        assert(late.can_count_use(peer));
        lemma_counts_after(late, peer);
        assert(late.route_to(peer) == Ok::<PeerId, FindRouteError>(hop));
        assert(late.preferred(hop, other));
        assert(late.uses(other) <= table.uses(other));
    }
}

/// So often the cache says that the peer was used as next hop. A peer without an entry counts as never
/// used.
pub open spec fn counted(nonces: Seq<(PeerId, usize)>, p: PeerId, count: int) -> bool {
    ||| exists|i: int| 0 <= i < nonces.len() && (#[trigger] nonces[i]).0 == p && nonces[i].1 == count
    ||| count == 0 && forall|i: int| 0 <= i < nonces.len() ==> (#[trigger] nonces[i]).0 != p
}

proof fn lemma_counted(table: TableState, p: PeerId, count: int)
    requires
        distinct(table.nonces),
    ensures
        counted(table.nonces, p, count) <==> table.uses(p) == count,
        has_key(table.nonces, p) <==> lookup(table.nonces, p) is Some,
{
    let nonces = table.nonces;
    if has_key(nonces, p) {
        let at = position(nonces, p);
        assert(nonces[at].0 == p);
        assert(lookup(nonces, p) == Some(nonces[at].1));
    }
}

/// One use of a route. The next hop is one of the neighbors that the routes list for the peer. None of
/// them was used less, and of those that were used as little it has the smallest key. If it is more than
/// ten uses behind the one that was used most, it is brought up to ten below that; then it is used once
/// more. This is counted for the next hop alone: while the cache has room, the count of every other
/// neighbor stays what it was, on the way to the peer or not. A full cache gives up at most two counts
/// and makes none up, and no count of a neighbor on the way is lost.
pub proof fn law_use_is_counted_for_the_hop_alone(
    table: TableState,
    peer: PeerId,
    count: int,
    most: int,
    frequent: PeerId,
    spare: PeerId,
    spare_count: int,
)
    requires
        table.valid(),
        table.forwarding.contains_key(peer),
        // Of the neighbors on the way, `frequent` was used most.
        table.forwarding[peer].contains(frequent),
        counted(table.nonces, frequent, most),
        forall|p: PeerId, n: int|
            table.forwarding[peer].contains(p) && #[trigger] counted(table.nonces, p, n) ==> n <= most,
        // One more use can be counted.
        table.forwarding[peer].contains(spare),
        counted(table.nonces, spare, spare_count),
        spare_count < usize::MAX,
    ensures
        table.route_to(peer) matches Ok(hop) && {
            let hops = table.forwarding[peer];
            let after = table.with_route_to(peer);
            &&& hops.contains(hop)
            &&& counted(table.nonces, hop, count) ==> {
                &&& forall|p: PeerId, n: int|
                    hops.contains(p) && #[trigger] counted(table.nonces, p, n) ==> count < n || (count
                        == n && number_of(hop) <= number_of(p))
                &&& counted(
                    after.nonces,
                    hop,
                    if count + 10 < most {
                        most - 9
                    } else {
                        count + 1
                    },
                )
            }
            &&& table.nonces.len() + 2 <= 10_000 ==> forall|p: PeerId, n: int|
                p != hop ==> (#[trigger] counted(after.nonces, p, n) <==> counted(table.nonces, p, n))
            &&& forall|i: int|
                0 <= i < after.nonces.len() && (#[trigger] after.nonces[i]).0 != hop
                    ==> table.nonces.contains(after.nonces[i])
            &&& after.nonces.len() + 1 >= table.nonces.len()
            &&& hops.len() <= 128 ==> forall|p: PeerId, n: int|
                hops.contains(p) && p != hop ==> (#[trigger] counted(after.nonces, p, n) <==> counted(
                    table.nonces,
                    p,
                    n,
                ))
        },
{
    let limit = ROUND_ROBIN_NONCE_CACHE_SIZE as nat;
    let hops = table.forwarding[peer];
    lemma_counted(table, spare, spare_count);
    assert(table.uses(spare) < usize::MAX);
    assert(table.can_count_use(peer));
    lemma_counts_after(table, peer);
    let after = table.with_route_to(peer);
    let hop = table.least_used(hops);
    lemma_counted(table, hop, count);
    assert forall|p: PeerId, n: int|
        hops.contains(p) && #[trigger] counted(table.nonces, p, n) && counted(
            table.nonces,
            hop,
            count,
        ) implies count < n || (count == n && number_of(hop) <= number_of(p)) by {
        lemma_counted(table, p, n);
        law_keys_are_ordered_by_their_bytes(hop, p);
        if p != hop {
            assert(table.preferred(hop, p));
        }
    }
    // The most uses are those of the frequent one.
    let top = lemma_most_uses_exists(table, hops);
    let highest = table.most_uses(hops);
    assert(table.is_most_uses(hops, highest));
    lemma_counted(table, frequent, most);
    assert(table.uses(frequent) == most);
    let full = choose|p: PeerId| #[trigger] hops.contains(p) && table.uses(p) == highest;
    lemma_counted(table, full, highest as int);
    assert(counted(table.nonces, full, highest as int));
    assert(highest == most);
    let uses = table.uses(hop);
    assert(spare == hop || table.preferred(hop, spare));
    let seen = touched_all(table.nonces, hops);
    let nonces = table.nonces_caught_up(hops);
    lemma_touched_all(table.nonces, hops);
    assert(lookup(seen, hop) == lookup(table.nonces, hop));
    let behind = uses + ROUND_ROBIN_MAX_NONCE_DIFFERENCE_ALLOWED < highest;
    let value = (highest - ROUND_ROBIN_MAX_NONCE_DIFFERENCE_ALLOWED) as usize;
    lemma_stored(seen, limit, hop, value);
    lemma_evicted(seen, limit);
    assert(nonces == if behind {
        stored(seen, limit, hop, value)
    } else {
        seen
    });
    let front = touched(nonces, hop);
    lemma_touched(nonces, hop);
    let next = match lookup(nonces, hop) {
        Some(nonce) => (nonce + 1) as usize,
        None => 1usize,
    };
    lemma_stored(front, limit, hop, next);
    lemma_evicted(front, limit);
    assert(after.nonces == stored(front, limit, hop, next));
    assert(lookup(after.nonces, hop) == Some(next));
    assert(next == if behind {
        most - 9
    } else {
        uses + 1
    });
    lemma_counted(after, hop, next as int);
    // Nothing else is made up.
    assert forall|p: PeerId| p != hop && #[trigger] lookup(after.nonces, p) is Some implies lookup(
        table.nonces,
        p,
    ) == lookup(after.nonces, p) by {
        assert(lookup(after.nonces, p) == lookup(evicted(front, limit), p));
        assert(lookup(front, p) == lookup(nonces, p));
        if behind {
            assert(lookup(nonces, p) == lookup(evicted(seen, limit), p));
        }
        assert(lookup(seen, p) == lookup(table.nonces, p));
    }
    assert forall|i: int|
        0 <= i < after.nonces.len() && (#[trigger] after.nonces[i]).0
            != hop implies table.nonces.contains(after.nonces[i]) by {
        let entry = after.nonces[i];
        assert(after.nonces.contains((entry.0, entry.1)));
        lemma_lookup_is(after.nonces, entry.0, entry.1);
        lemma_lookup_is(table.nonces, entry.0, entry.1);
    }
    if table.nonces.len() + 2 <= 10_000 {
        assert forall|p: PeerId, n: int| p != hop implies (#[trigger] counted(after.nonces, p, n)
            <==> counted(table.nonces, p, n)) by {
            assert(lookup(after.nonces, p) == lookup(front, p));
            assert(lookup(front, p) == lookup(nonces, p));
            assert(lookup(nonces, p) == lookup(seen, p));
            assert(lookup(seen, p) == lookup(table.nonces, p));
            lemma_counted(after, p, n);
            lemma_counted(table, p, n);
        }
    }
    if hops.len() <= 128 {
        assert forall|p: PeerId, n: int| hops.contains(p) && p != hop implies (#[trigger] counted(
            after.nonces,
            p,
            n,
        ) <==> counted(table.nonces, p, n)) by {
            lemma_other_uses(table, hops, p);
            lemma_counted(after, p, n);
            lemma_counted(table, p, n);
        }
    }
}

/// Asking for a peer without a route: it is not found if nothing is listed for it, and disconnected if
/// no neighbor is. With a neighbor there is a next hop.
pub proof fn law_peer_without_a_route(table: TableState, peer: PeerId)
    ensures
        table.route_to(peer) == Err::<PeerId, FindRouteError>(FindRouteError::PeerNotFound)
            <==> !table.forwarding.contains_key(peer),
        table.route_to(peer) == Err::<PeerId, FindRouteError>(FindRouteError::Disconnected)
            <==> table.forwarding.contains_key(peer) && table.forwarding[peer].len() == 0,
        table.route_to(peer) is Ok <==> table.forwarding.contains_key(peer)
            && table.forwarding[peer].len() > 0,
        table.route_to(peer) is Err ==> table.with_route_to(peer) == table,
{
}

/// A use can be counted unless there are neighbors on the way to the peer and the count of each is at
/// its limit.
pub proof fn law_uses_run_out(table: TableState, peer: PeerId)
    requires
        table.valid(),
    ensures
        table.can_count_use(peer) <==> !(table.forwarding.contains_key(peer)
            && table.forwarding[peer].len() > 0 && forall|p: PeerId| #[trigger]
            table.forwarding[peer].contains(p) ==> counted(table.nonces, p, usize::MAX as int)),
{
    assert forall|p: PeerId| #[trigger] counted(table.nonces, p, usize::MAX as int)
        <==> table.uses(p) == usize::MAX by {
        lemma_counted(table, p, usize::MAX as int);
    }
}

/// The entries of the peers that are not set aside keep their order. If one of them is kept, so are those
/// before it.
pub open spec fn keeps_order(
    before: Seq<(PeerId, usize)>,
    after: Seq<(PeerId, usize)>,
    aside: Seq<PeerId>,
) -> bool {
    &&& forall|p: PeerId|
        !aside.contains(p) && #[trigger] has_key(after, p) ==> has_key(before, p)
    &&& forall|p: PeerId, q: PeerId|
        !aside.contains(p) && !aside.contains(q) && #[trigger] has_key(before, p)
            && #[trigger] has_key(before, q) && position(before, p) < position(before, q) && has_key(
            after,
            q,
        ) ==> has_key(after, p) && position(after, p) < position(after, q)
}

/// The entries of some peers stand before all others.
pub open spec fn stand_first(entries: Seq<(PeerId, usize)>, peers: Seq<PeerId>) -> bool {
    forall|i: int, j: int|
        0 <= i < j < entries.len() && peers.contains((#[trigger] entries[j]).0) ==> peers.contains(
            (#[trigger] entries[i]).0,
        )
}

/// Where a lookup leaves each entry.
proof fn lemma_places_after_lookup(entries: Seq<(PeerId, usize)>, key: PeerId)
    requires
        distinct(entries),
        has_key(entries, key),
    ensures
        ({
            let after = touched(entries, key);
            let at = position(entries, key);
            &&& after.len() == entries.len()
            &&& 0 <= at < entries.len()
            &&& entries[at].0 == key
            &&& after[0] == entries[at]
            &&& forall|i: int| 0 < i <= at ==> #[trigger] after[i] == entries[i - 1]
            &&& forall|i: int| at < i < after.len() ==> #[trigger] after[i] == entries[i]
        }),
{
    assert(entries[position(entries, key)].0 == key);
}

proof fn lemma_first_after_lookup(entries: Seq<(PeerId, usize)>, key: PeerId, aside: Seq<PeerId>)
    requires
        distinct(entries),
        aside.contains(key),
        stand_first(entries, aside),
    ensures
        stand_first(touched(entries, key), aside),
{
    let after = touched(entries, key);
    if has_key(entries, key) {
        lemma_places_after_lookup(entries, key);
        let at = position(entries, key);
        assert forall|i: int, j: int|
            0 <= i < j < after.len() && aside.contains((#[trigger] after[j]).0) implies aside.contains(
            (#[trigger] after[i]).0,
        ) by {
            if i > 0 {
                let x = if i <= at {
                    i - 1
                } else {
                    i
                };
                let y = if j <= at {
                    j - 1
                } else {
                    j
                };
                assert(after[i] == entries[x]);
                assert(after[j] == entries[y]);
                assert(x < y);
            }
        }
    }
}

/// A lookup brings an entry at most one place back.
proof fn lemma_position_after_lookup(entries: Seq<(PeerId, usize)>, key: PeerId, p: PeerId)
    requires
        distinct(entries),
        has_key(entries, key),
        p != key,
    ensures
        has_key(touched(entries, key), p) <==> has_key(entries, p),
        has_key(entries, p) ==> position(touched(entries, key), p) == (if position(entries, p)
            < position(entries, key) {
            position(entries, p) + 1
        } else {
            position(entries, p)
        }),
{
    let after = touched(entries, key);
    let at = position(entries, key);
    assert(distinct(after)) by {
        lemma_touched(entries, key);
    }
    lemma_places_after_lookup(entries, key);
    if has_key(entries, p) {
        let i = position(entries, p);
        assert(entries[i].0 == p);
        let j = if i < at {
            i + 1
        } else {
            i
        };
        assert(after[j] == entries[i]);
        lemma_lookup(after, j);
    } else if has_key(after, p) {
        let i = position(after, p);
        assert(after[i].0 == p);
        assert(i != 0);
        let j = if i <= at {
            i - 1
        } else {
            i
        };
        assert(entries[j] == after[i]);
    }
}

proof fn lemma_order_after_lookup(entries: Seq<(PeerId, usize)>, key: PeerId, aside: Seq<PeerId>)
    requires
        distinct(entries),
        aside.contains(key),
    ensures
        keeps_order(entries, touched(entries, key), aside),
{
    let after = touched(entries, key);
    if has_key(entries, key) {
        assert forall|p: PeerId| !aside.contains(p) && #[trigger] has_key(after, p) implies has_key(
            entries,
            p,
        ) by {
            lemma_position_after_lookup(entries, key, p);
        }
        assert forall|p: PeerId, q: PeerId|
            !aside.contains(p) && !aside.contains(q) && #[trigger] has_key(entries, p)
                && #[trigger] has_key(entries, q) && position(entries, p) < position(entries, q)
                && has_key(after, q) implies has_key(after, p) && position(after, p) < position(
            after,
            q,
        ) by {
            lemma_position_after_lookup(entries, key, p);
            lemma_position_after_lookup(entries, key, q);
            assert(entries[position(entries, p)].0 == p);
            assert(entries[position(entries, key)].0 == key);
        }
    }
}

proof fn lemma_order_composes(
    a: Seq<(PeerId, usize)>,
    b: Seq<(PeerId, usize)>,
    c: Seq<(PeerId, usize)>,
    aside: Seq<PeerId>,
)
    requires
        keeps_order(a, b, aside),
        keeps_order(b, c, aside),
    ensures
        keeps_order(a, c, aside),
{
    assert forall|p: PeerId, q: PeerId|
        !aside.contains(p) && !aside.contains(q) && #[trigger] has_key(a, p) && #[trigger] has_key(
            a,
            q,
        ) && position(a, p) < position(a, q) && has_key(c, q) implies has_key(c, p) && position(c, p)
        < position(c, q) by {
        assert(has_key(b, q));
        assert(has_key(b, p));
    }
}

proof fn lemma_order_after_lookups(
    entries: Seq<(PeerId, usize)>,
    keys: Seq<PeerId>,
    aside: Seq<PeerId>,
)
    requires
        distinct(entries),
        forall|k: PeerId| #[trigger] keys.contains(k) ==> aside.contains(k),
    ensures
        keeps_order(entries, touched_all(entries, keys), aside),
        stand_first(touched_all(entries, keys), keys),
    decreases keys.len(),
{
    if keys.len() > 0 {
        let fewer = keys.drop_last();
        let key = keys.last();
        assert(keys =~= fewer.push(key));
        assert forall|k: PeerId| #[trigger] keys.contains(k) <==> fewer.contains(k) || k == key by {
            lemma_push_contains(fewer, key, k);
        }
        assert(keys.contains(key));
        assert forall|k: PeerId| #[trigger] fewer.contains(k) implies aside.contains(k) by {
            assert(keys.contains(k));
        }
        lemma_order_after_lookups(entries, fewer, aside);
        lemma_touched_all(entries, fewer);
        let before = touched_all(entries, fewer);
        let after = touched_all(entries, keys);
        lemma_order_after_lookup(before, key, aside);
        lemma_order_composes(entries, before, after, aside);
        lemma_touched(before, key);
        assert forall|i: int, j: int|
            0 <= i < j < after.len() && keys.contains((#[trigger] after[j]).0) implies keys.contains(
            (#[trigger] after[i]).0,
        ) by {
            if has_key(before, key) {
                let at = position(before, key);
                assert(before[at].0 == key);
                if i > 0 {
                    let x = if i <= at {
                        i - 1
                    } else {
                        i
                    };
                    let y = if j <= at {
                        j - 1
                    } else {
                        j
                    };
                    assert(after[i] == before[x]);
                    assert(after[j] == before[y]);
                    assert(y != at);
                    assert(before[y].0 != key);
                    assert(fewer.contains(before[y].0));
                    assert(fewer.contains(before[x].0));
                } else {
                    assert(after[0] == before[at]);
                }
            } else {
                assert(before[j].0 != key);
                assert(fewer.contains(before[j].0));
                assert(fewer.contains(before[i].0));
            }
        }
    } else {
        assert(touched_all(entries, keys) == entries);
        assert forall|i: int| 0 <= i < entries.len() implies !keys.contains(
            (#[trigger] entries[i]).0,
        ) by {}
    }
}

proof fn lemma_order_after_store(
    entries: Seq<(PeerId, usize)>,
    limit: nat,
    key: PeerId,
    value: usize,
    aside: Seq<PeerId>,
)
    requires
        bounded(entries, limit),
        aside.contains(key),
        stand_first(entries, aside),
    ensures
        keeps_order(entries, stored(entries, limit, key, value), aside),
        stand_first(stored(entries, limit, key, value), aside),
{
    let rest = evicted(entries, limit);
    let after = stored(entries, limit, key, value);
    lemma_evicted(entries, limit);
    lemma_stored(entries, limit, key, value);
    assert forall|i: int| 0 <= i < rest.len() implies #[trigger] rest[i] == entries[i] by {}
    let shift: int = if has_key(rest, key) {
        0
    } else {
        1
    };
    if has_key(rest, key) {
        assert(rest[position(rest, key)].0 == key);
    }
    assert forall|i: int| 0 <= i < rest.len() implies (#[trigger] rest[i]).0 == after[i + shift].0 by {}
    assert forall|p: PeerId| p != key && #[trigger] has_key(after, p) implies has_key(entries, p)
        && position(after, p) == position(entries, p) + shift by {
        let i = position(after, p);
        assert(after[i].0 == p);
        assert(rest[i - shift].0 == p);
        assert(entries[i - shift].0 == p);
        lemma_lookup(entries, i - shift);
    }
    assert forall|p: PeerId, q: PeerId|
        !aside.contains(p) && !aside.contains(q) && #[trigger] has_key(entries, p)
            && #[trigger] has_key(entries, q) && position(entries, p) < position(entries, q)
            && has_key(after, q) implies has_key(after, p) && position(after, p) < position(
        after,
        q,
    ) by {
        let i = position(entries, p);
        assert(entries[i].0 == p);
        assert(after[position(after, q)].0 == q);
        assert(i < rest.len());
        assert(rest[i].0 == p);
        assert(after[i + shift].0 == p);
        lemma_lookup(after, i + shift);
    }
    assert forall|i: int, j: int|
        0 <= i < j < after.len() && aside.contains((#[trigger] after[j]).0) implies aside.contains(
        (#[trigger] after[i]).0,
    ) by {
        if i >= shift {
            assert(rest[i - shift].0 == after[i].0);
            assert(rest[j - shift].0 == after[j].0);
            assert(entries[i - shift].0 == after[i].0);
            assert(entries[j - shift].0 == after[j].0);
        }
    }
}

/// One use of a route makes the neighbors on the way the most recently used ones: their counts stand
/// first. The others keep their order, and what a full cache gives up are the last of them.
pub proof fn law_counts_on_the_way_come_first(table: TableState, peer: PeerId)
    requires
        table.valid(),
        table.forwarding.contains_key(peer),
        table.forwarding[peer].len() > 0,
    ensures
        keeps_order(
            table.nonces,
            table.with_route_to(peer).nonces,
            table.forwarding[peer],
        ),
        stand_first(table.with_route_to(peer).nonces, table.forwarding[peer]),
{
    let limit = ROUND_ROBIN_NONCE_CACHE_SIZE as nat;
    let hops = table.forwarding[peer];
    let one = lemma_least_used_exists(table, hops);
    let hop = table.least_used(hops);
    assert(table.is_least_used(hops, hop));
    let most = table.most_uses(hops);
    let seen = touched_all(table.nonces, hops);
    let nonces = table.nonces_caught_up(hops);
    lemma_touched_all(table.nonces, hops);
    lemma_order_after_lookups(table.nonces, hops, hops);
    if table.uses(hop) + ROUND_ROBIN_MAX_NONCE_DIFFERENCE_ALLOWED < most {
        let value = (most - ROUND_ROBIN_MAX_NONCE_DIFFERENCE_ALLOWED) as usize;
        lemma_order_after_store(seen, limit, hop, value, hops);
        lemma_stored(seen, limit, hop, value);
        lemma_order_composes(table.nonces, seen, nonces, hops);
    }
    let front = touched(nonces, hop);
    lemma_touched(nonces, hop);
    lemma_order_after_lookup(nonces, hop, hops);
    lemma_first_after_lookup(nonces, hop, hops);
    lemma_order_composes(table.nonces, nonces, front, hops);
    let next = match lookup(nonces, hop) {
        Some(nonce) => (nonce + 1) as usize,
        None => 1usize,
    };
    lemma_order_after_store(front, limit, hop, next, hops);
    lemma_order_composes(table.nonces, front, stored(front, limit, hop, next), hops);
}

} // verus!
