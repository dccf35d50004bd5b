//! The table of routes.
use crate::laws::network::law_added_link_is_there;
use crate::sequences::lemma_push_contains;
use crate::state::TableState;
use crate::topology::{
    lemma_reaches_back, lemma_reaches_basics, lemma_reaches_start, lemma_reaches_step, Topology,
    MAX_NUM_PEERS,
};
use crate::types::{FindRouteError, PeerId, Time};
use vstd::prelude::*;

verus! {

/// First hops are neighbors of the source, each listed once.
proof fn lemma_first_hops(g: Topology)
    requires
        g.valid(),
    ensures
        g.first_hops().no_duplicates(),
        g.first_hops().len() <= MAX_NUM_PEERS,
        forall|hop: PeerId| #[trigger]
            g.first_hops().contains(hop) ==> g.contains_edge(g.source, hop) && hop != g.source,
        g.neighbors(g.source).len() <= MAX_NUM_PEERS ==> forall|hop: PeerId| #[trigger]
            g.contains_edge(g.source, hop) ==> g.first_hops().contains(hop),
{
    let all = g.neighbors(g.source);
    let hops = g.first_hops();
    assert(g.links.contains_key(g.source));
    assert forall|hop: PeerId| #[trigger] hops.contains(hop) implies g.contains_edge(g.source, hop)
        && hop != g.source by {
        let i = choose|i: int| 0 <= i < hops.len() && hops[i] == hop;
        assert(all[i] == hop);
        assert(g.contains_edge(g.source, hop));
    }
}

/// A peer that can be reached can be reached in a least number of hops.
proof fn lemma_least_length(g: Topology, hop: PeerId, target: PeerId, length: nat) -> (least: (
    PeerId,
    nat,
))
    requires
        g.first_hops().contains(hop),
        g.reaches(hop, target, length),
    ensures
        g.first_hops().contains(least.0),
        g.reaches(least.0, target, least.1),
        g.starts_shortest(least.0, target),
    decreases length,
{
    if exists|other: PeerId, n: nat|
        g.first_hops().contains(other) && #[trigger] g.reaches(other, target, n) && n < length {
        let (other, n) = choose|other: PeerId, n: nat|
            g.first_hops().contains(other) && #[trigger] g.reaches(other, target, n) && n < length;
        lemma_least_length(g, other, target, n)
    } else {
        assert(g.starts_shortest(hop, target));
        (hop, length)
    }
}

/// What a filter keeps.
proof fn lemma_routes_contain(g: Topology, target: PeerId, hop: PeerId)
    ensures
        g.first_hops().filter(g.serves(target)).contains(hop) <==> g.first_hops().contains(hop)
            && g.starts_shortest(hop, target),
{
    let keep = g.serves(target);
    let hops = g.first_hops();
    let kept = hops.filter(keep);
    if kept.contains(hop) {
        hops.lemma_filter_contains_rev(keep, hop);
        let i = choose|i: int| 0 <= i < kept.len() && kept[i] == hop;
        hops.lemma_filter_pred(keep, i);
    }
    if hops.contains(hop) && g.starts_shortest(hop, target) {
        let i = choose|i: int| 0 <= i < hops.len() && hops[i] == hop;
        assert(keep(hops[i]));
        hops.lemma_filter_contains(keep, i);
    }
}

/// Every route leads through at least one neighbor, and through each of them once. The source has
/// no route to itself.
pub proof fn law_routes_have_hops(g: Topology, target: PeerId)
    requires
        g.valid(),
        g.routes().contains_key(target),
    ensures
        g.routes()[target].len() > 0,
        g.routes()[target].len() <= MAX_NUM_PEERS,
        g.routes()[target].no_duplicates(),
        forall|hop: PeerId| #[trigger]
            g.routes()[target].contains(hop) ==> g.contains_edge(g.source, hop),
        target != g.source,
        g.links.contains_key(target),
{
    lemma_first_hops(g);
    let (hop, length) = choose|hop: PeerId, length: nat|
        g.first_hops().contains(hop) && #[trigger] g.reaches(hop, target, length);
    lemma_reaches_basics(g, hop, target, length);
    let least = lemma_least_length(g, hop, target, length);
    lemma_routes_contain(g, target, least.0);
    assert(g.routes()[target].contains(least.0));
    g.first_hops().lemma_filter_len(g.serves(target));
    lemma_filter_no_duplicates(g.first_hops(), g.serves(target));
    assert forall|h: PeerId| #[trigger] g.routes()[target].contains(h) implies g.contains_edge(
        g.source,
        h,
    ) by {
        lemma_routes_contain(g, target, h);
    }
    if length == 1 {
        assert(g.contains_edge(g.source, target));
        assert(g.contains_edge(target, g.source));
    } else {
        let via = lemma_reaches_back(g, hop, target, length);
        assert(g.contains_edge(target, via));
    }
}

proof fn lemma_filter_no_duplicates(s: Seq<PeerId>, keep: spec_fn(PeerId) -> bool)
    requires
        s.no_duplicates(),
    ensures
        s.filter(keep).no_duplicates(),
    decreases s.len(),
{
    reveal(Seq::filter);
    if s.len() > 0 {
        let rest = s.drop_last();
        assert(rest.no_duplicates());
        lemma_filter_no_duplicates(rest, keep);
        if rest.filter(keep).contains(s.last()) {
            rest.lemma_filter_contains_rev(keep, s.last());
            let i = choose|i: int| 0 <= i < rest.len() && rest[i] == s.last();
            assert(s[i] == s[s.len() - 1]);
        }
    }
}

/// The only next hop on the way to a neighbor is the neighbor itself.
pub proof fn law_neighbors_are_reached_directly(g: Topology, neighbor: PeerId)
    requires
        g.valid(),
        g.first_hops().contains(neighbor),
    ensures
        g.routes().contains_key(neighbor),
        g.routes()[neighbor] == seq![neighbor],
{
    lemma_first_hops(g);
    lemma_reaches_start(g, neighbor);
    assert(g.reachable(neighbor));
    assert forall|other: PeerId, n: nat|
        g.first_hops().contains(other) && #[trigger] g.reaches(other, neighbor, n) implies 1 <= n by {
        lemma_reaches_basics(g, other, neighbor, n);
    }
    assert(g.starts_shortest(neighbor, neighbor));
    law_routes_have_hops(g, neighbor);
    let ways = g.routes()[neighbor];
    lemma_routes_contain(g, neighbor, neighbor);
    assert forall|i: int| 0 <= i < ways.len() implies ways[i] == neighbor by {
        let hop = ways[i];
        lemma_routes_contain(g, neighbor, hop);
        let length = choose|length: nat|
            {
                &&& #[trigger] g.reaches(hop, neighbor, length)
                &&& forall|other: PeerId, other_length: nat|
                    g.first_hops().contains(other) && #[trigger] g.reaches(
                        other,
                        neighbor,
                        other_length,
                    ) ==> length <= other_length
            };
        lemma_reaches_basics(g, hop, neighbor, length);
        assert(length <= 1);
    }
    if ways.len() > 1 {
        assert(ways[0] == ways[1]);
    }
    assert(ways =~= seq![neighbor]);
}

/// The way of a trail, from the source on.
proof fn lemma_trail_to_path(g: Topology, hop: PeerId, target: PeerId, length: nat) -> (path: Seq<PeerId>)
    requires
        g.valid(),
        g.contains_edge(g.source, hop),
        g.reaches(hop, target, length),
    ensures
        g.is_path(path),
        path.last() == target,
        path.len() == length + 1,
        path.len() > 1,
        path[1] == hop,
{
    let trail = choose|trail: Seq<PeerId>|
        {
            &&& #[trigger] g.is_trail(trail)
            &&& trail.first() == hop
            &&& trail.last() == target
            &&& trail.len() == length
        };
    let path = seq![g.source] + trail;
    assert forall|i: int, j: int| 0 <= i && j == i + 1 && j < path.len() implies g.contains_edge(
        #[trigger] path[i],
        #[trigger] path[j],
    ) by {
        if i > 0 {
            assert(g.contains_edge(trail[i - 1], trail[j - 1]));
        }
    }
    path
}

/// A path to another peer is at least as long as some trail, and if it does not come back to the
/// source it is one.
proof fn lemma_path_to_trail(g: Topology, path: Seq<PeerId>) -> (way: (PeerId, nat))
    requires
        g.valid(),
        g.is_path(path),
        path.last() != g.source,
    ensures
        g.contains_edge(g.source, way.0),
        g.reaches(way.0, path.last(), way.1),
        way.1 < path.len(),
        way.1 + 1 == path.len() ==> way.0 == path[1],
        path.len() > 1,
    decreases path.len(),
{
    if exists|i: int| 0 < i < path.len() && #[trigger] path[i] == g.source {
        let i = choose|i: int| 0 < i < path.len() && #[trigger] path[i] == g.source;
        let rest = path.skip(i);
        assert forall|a: int, b: int| 0 <= a && b == a + 1 && b < rest.len() implies g.contains_edge(
            #[trigger] rest[a],
            #[trigger] rest[b],
        ) by {
            assert(g.contains_edge(path[a + i], path[b + i]));
        }
        assert(g.is_path(rest));
        lemma_path_to_trail(g, rest)
    } else {
        let trail = path.skip(1);
        assert(path.len() > 1);
        assert(g.contains_edge(path[0], path[1]));
        assert forall|i: int| 0 <= i < trail.len() implies #[trigger] trail[i] != g.source by {
            assert(path[i + 1] != g.source);
        }
        assert forall|a: int, b: int| 0 <= a && b == a + 1 && b < trail.len() implies g.contains_edge(
            #[trigger] trail[a],
            #[trigger] trail[b],
        ) by {
            assert(g.contains_edge(path[a + 1], path[b + 1]));
        }
        assert(g.is_trail(trail));
        (path[1], trail.len())
    }
}

/// While the source has no more neighbors than a route mask has bits, the routes are those of all
/// shortest paths: a peer has a route exactly when some path leads to it, and its next hops are
/// exactly the first peers on its shortest paths.
pub proof fn law_routes_are_shortest_paths(g: Topology, target: PeerId)
    requires
        g.valid(),
        g.neighbors(g.source).len() <= MAX_NUM_PEERS,
        target != g.source,
    ensures
        g.routes().contains_key(target) <==> g.connected(target),
        g.routes().contains_key(target) ==> forall|hop: PeerId| #[trigger]
            g.routes()[target].contains(hop) <==> g.on_shortest_path(hop, target),
{
    lemma_first_hops(g);
    if g.routes().contains_key(target) {
        let (hop, length) = choose|hop: PeerId, length: nat|
            g.first_hops().contains(hop) && #[trigger] g.reaches(hop, target, length);
        let path = lemma_trail_to_path(g, hop, target, length);
        assert(g.connected(target));
        assert forall|hop: PeerId| #[trigger] g.routes()[target].contains(hop)
            <==> g.on_shortest_path(hop, target) by {
            lemma_routes_contain(g, target, hop);
            if g.routes()[target].contains(hop) {
                lemma_starts_shortest_path(g, hop, target);
            }
            if g.on_shortest_path(hop, target) {
                lemma_shortest_path_starts(g, hop, target);
            }
        }
    }
    if g.connected(target) {
        let path = choose|path: Seq<PeerId>| #[trigger] g.is_path(path) && path.last() == target;
        let way = lemma_path_to_trail(g, path);
        assert(g.first_hops().contains(way.0));
        assert(g.reachable(target));
    }
}

proof fn lemma_starts_shortest_path(g: Topology, hop: PeerId, target: PeerId)
    requires
        g.valid(),
        g.neighbors(g.source).len() <= MAX_NUM_PEERS,
        target != g.source,
        g.first_hops().contains(hop),
        g.starts_shortest(hop, target),
    ensures
        g.on_shortest_path(hop, target),
{
    lemma_first_hops(g);
    let length = choose|length: nat|
        {
            &&& #[trigger] g.reaches(hop, target, length)
            &&& forall|other: PeerId, other_length: nat|
                g.first_hops().contains(other) && #[trigger] g.reaches(other, target, other_length)
                    ==> length <= other_length
        };
    let path = lemma_trail_to_path(g, hop, target, length);
    assert forall|other: Seq<PeerId>| #[trigger] g.is_path(other) && other.last() == target implies
        path.len() <= other.len() by {
        let way = lemma_path_to_trail(g, other);
        assert(g.first_hops().contains(way.0));
        assert(g.reaches(way.0, target, way.1));
    }
    assert(g.is_shortest_path(path, target));
}

proof fn lemma_shortest_path_starts(g: Topology, hop: PeerId, target: PeerId)
    requires
        g.valid(),
        g.neighbors(g.source).len() <= MAX_NUM_PEERS,
        target != g.source,
        g.on_shortest_path(hop, target),
    ensures
        g.first_hops().contains(hop),
        g.starts_shortest(hop, target),
{
    lemma_first_hops(g);
    let path = choose|path: Seq<PeerId>| #[trigger]
        g.is_shortest_path(path, target) && path.len() > 1 && path[1] == hop;
    let way = lemma_path_to_trail(g, path);
    let back = lemma_trail_to_path(g, way.0, target, way.1);
    assert(path.len() <= back.len());
    assert(way.0 == hop);
    assert forall|other: PeerId, n: nat|
        g.first_hops().contains(other) && #[trigger] g.reaches(other, target, n) implies way.1
        <= n by {
        let there = lemma_trail_to_path(g, other, target, n);
        assert(path.len() <= there.len());
    }
    assert(g.starts_shortest(hop, target));
}

/// After an update a route is found exactly when the peer can be reached, and it starts a shortest
/// way there. No other error comes than that the peer is not found.
pub proof fn law_updated_table_routes(table: TableState, now: Time, peer: PeerId)
    requires
        table.valid(),
    ensures
        ({
            let after = table.with_routes(now);
            let g = table.topology;
            match after.route_to(peer) {
                Ok(hop) => {
                    &&& g.reachable(peer)
                    &&& g.first_hops().contains(hop)
                    &&& g.starts_shortest(hop, peer)
                },
                Err(error) => error == FindRouteError::PeerNotFound && !g.reachable(peer),
            }
        }),
{
    let after = table.with_routes(now);
    let g = table.topology;
    if g.reachable(peer) {
        law_routes_have_hops(g, peer);
        let routes = g.routes()[peer];
        let hop = lemma_least_used_exists(after, routes);
        assert(after.is_least_used(routes, after.least_used(routes)));
        lemma_routes_contain(g, peer, after.least_used(routes));
    }
}

/// Among some hops one was used least.
pub proof fn lemma_least_used_exists(table: TableState, routes: Seq<PeerId>) -> (hop: PeerId)
    requires
        routes.len() > 0,
    ensures
        table.is_least_used(routes, hop),
    decreases routes.len(),
{
    let last = routes.last();
    let rest = routes.drop_last();
    assert(routes =~= rest.push(last));
    assert forall|p: PeerId| #[trigger] routes.contains(p) <==> rest.contains(p) || p == last by {
        lemma_push_contains(rest, last, p);
    }
    if rest.len() == 0 {
        assert(table.is_least_used(routes, last));
        last
    } else {
        let hop = lemma_least_used_exists(table, rest);
        if table.preferred(last, hop) {
            assert(table.is_least_used(routes, last));
            last
        } else {
            assert(table.is_least_used(routes, hop));
            hop
        }
    }
}

/// A shortest path tells the distance of its end from the source, and from its first hop.
proof fn lemma_distances(g: Topology, path: Seq<PeerId>, target: PeerId)
    requires
        g.is_shortest_path(path, target),
        path.len() > 1,
    ensures
        g.distance_is(g.source, target, (path.len() - 1) as nat),
        g.distance_is(path[1], target, (path.len() - 2) as nat),
        g.contains_edge(g.source, path[1]),
{
    let rest = path.skip(1);
    assert(g.contains_edge(path[0], path[1]));
    assert(g.is_walk(path, g.source, target));
    assert forall|walk: Seq<PeerId>| #[trigger] g.is_walk(walk, g.source, target) implies path.len()
        <= walk.len() by {
        assert(g.is_path(walk));
    }
    assert forall|i: int, j: int| 0 <= i && j == i + 1 && j < rest.len() implies g.contains_edge(
        #[trigger] rest[i],
        #[trigger] rest[j],
    ) by {
        assert(g.contains_edge(path[i + 1], path[j + 1]));
    }
    assert(g.is_walk(rest, path[1], target));
    assert forall|walk: Seq<PeerId>| #[trigger] g.is_walk(walk, path[1], target) implies path.len()
        - 1 <= walk.len() by {
        let longer = seq![g.source] + walk;
        assert forall|i: int, j: int| 0 <= i && j == i + 1 && j < longer.len() implies g.contains_edge(
            #[trigger] longer[i],
            #[trigger] longer[j],
        ) by {
            if i > 0 {
                assert(g.contains_edge(walk[i - 1], walk[j - 1]));
            }
        }
        assert(g.is_path(longer));
        assert(longer.last() == target);
    }
}

/// After an update, and while the source has no more neighbors than a route mask has bits, a route is
/// found exactly if the peer is another one and connected. The next hop is then a neighbor that is
/// one link closer to the peer than the source is. Otherwise the peer is not found.
pub proof fn law_next_hop_is_closer(table: TableState, now: Time, peer: PeerId)
    requires
        table.valid(),
        table.topology.neighbors(table.topology.source).len() <= MAX_NUM_PEERS,
    ensures
        ({
            let g = table.topology;
            match table.with_routes(now).route_to(peer) {
                Ok(hop) => {
                    &&& peer != g.source
                    &&& g.connected(peer)
                    &&& g.contains_edge(g.source, hop)
                    &&& exists|n: nat| #[trigger]
                        g.distance_is(hop, peer, n) && g.distance_is(g.source, peer, n + 1)
                },
                Err(error) => error == FindRouteError::PeerNotFound && (peer == g.source
                    || !g.connected(peer)),
            }
        }),
{
    let g = table.topology;
    law_updated_table_routes(table, now, peer);
    if peer == g.source {
        if g.reachable(peer) {
            law_routes_have_hops(g, peer);
        }
    } else {
        law_routes_are_shortest_paths(g, peer);
        if let Ok(hop) = table.with_routes(now).route_to(peer) {
            lemma_routes_contain(g, peer, hop);
            assert(g.routes()[peer].contains(hop));
            let path = choose|path: Seq<PeerId>| #[trigger]
                g.is_shortest_path(path, peer) && path.len() > 1 && path[1] == hop;
            lemma_distances(g, path, peer);
            let n = (path.len() - 2) as nat;
            assert(g.distance_is(hop, peer, n) && g.distance_is(g.source, peer, n + 1));
        }
    }
}

/// Whatever reaches `u` in some hops, something reaches `v` in as many or fewer.
spec fn no_farther(g: Topology, u: PeerId, v: PeerId) -> bool {
    forall|hop: PeerId, n: nat|
        g.first_hops().contains(hop) && #[trigger] g.reaches(hop, u, n) ==> reached_within(g, v, n)
}

/// Some first hop reaches `p` in at most `n` hops.
spec fn reached_within(g: Topology, p: PeerId, n: nat) -> bool {
    exists|hop: PeerId, m: nat|
        g.first_hops().contains(hop) && #[trigger] g.reaches(hop, p, m) && m <= n
}

proof fn lemma_no_farther(g: Topology, u: PeerId, v: PeerId)
    requires
        g.valid(),
        g.neighbors(g.source).len() <= MAX_NUM_PEERS,
        u != g.source,
        v != g.source,
        forall|n: nat| #[trigger]
            g.distance_is(g.source, u, n) ==> g.distance_is(g.source, v, n),
    ensures
        no_farther(g, u, v),
{
    lemma_first_hops(g);
    assert forall|hop: PeerId, n: nat|
        g.first_hops().contains(hop) && #[trigger] g.reaches(hop, u, n) implies reached_within(
        g,
        v,
        n,
    ) by {
        let least = lemma_least_length(g, hop, u, n);
        lemma_starts_shortest_path(g, least.0, u);
        let path = choose|path: Seq<PeerId>| #[trigger]
            g.is_shortest_path(path, u) && path.len() > 1 && path[1] == least.0;
        lemma_distances(g, path, u);
        let here = lemma_trail_to_path(g, hop, u, n);
        assert(path.len() <= here.len());
        let far = (path.len() - 1) as nat;
        assert(g.distance_is(g.source, v, far));
        let walk = choose|walk: Seq<PeerId>| #[trigger]
            g.is_walk(walk, g.source, v) && walk.len() == far + 1;
        assert(g.is_path(walk));
        let way = lemma_path_to_trail(g, walk);
        assert(g.first_hops().contains(way.0));
        assert(g.reaches(way.0, v, way.1) && way.1 <= n);
    }
}

/// What can be reached stays within reach when a link is added elsewhere.
proof fn lemma_reaches_more(g: Topology, u: PeerId, v: PeerId, hop: PeerId, p: PeerId, n: nat)
    requires
        g.valid(),
        u != v,
        g.reaches(hop, p, n),
    ensures
        g.add_edge(u, v).reaches(hop, p, n),
{
    law_added_link_is_there(g, u, v);
    let h = g.add_edge(u, v);
    let trail = choose|trail: Seq<PeerId>|
        {
            &&& #[trigger] g.is_trail(trail)
            &&& trail.first() == hop
            &&& trail.last() == p
            &&& trail.len() == n
        };
    assert forall|i: int, j: int| 0 <= i && j == i + 1 && j < trail.len() implies h.contains_edge(
        #[trigger] trail[i],
        #[trigger] trail[j],
    ) by {
        assert(g.contains_edge(trail[i], trail[j]));
    }
    assert(h.is_trail(trail));
}

/// A way over a link within one level is a way without it, or there is a shorter one without it.
proof fn lemma_reaches_without(g: Topology, u: PeerId, v: PeerId, hop: PeerId, p: PeerId, n: nat)
    requires
        g.valid(),
        u != v,
        u != g.source,
        v != g.source,
        no_farther(g, u, v),
        no_farther(g, v, u),
        g.first_hops().contains(hop),
        g.add_edge(u, v).reaches(hop, p, n),
    ensures
        g.reaches(hop, p, n) || (n > 1 && reached_within(g, p, (n - 1) as nat)),
    decreases n,
{
    let h = g.add_edge(u, v);
    lemma_first_hops(g);
    law_added_link_is_there(g, u, v);
    lemma_reaches_basics(h, hop, p, n);
    if n == 1 {
        lemma_reaches_start(g, hop);
    } else {
        let via = lemma_reaches_back(h, hop, p, n);
        let m = (n - 1) as nat;
        lemma_reaches_without(g, u, v, hop, via, m);
        if g.reaches(hop, via, m) {
            if g.contains_edge(via, p) {
                lemma_reaches_step(g, hop, via, p, m);
            } else {
                assert(reached_within(g, p, m));
            }
        } else {
            let (other, k) = choose|other: PeerId, k: nat|
                g.first_hops().contains(other) && #[trigger] g.reaches(other, via, k) && k <= m - 1;
            if g.contains_edge(via, p) {
                lemma_reaches_step(g, other, via, p, k);
                assert(g.reaches(other, p, k + 1) && k + 1 <= m);
            } else {
                assert(reached_within(g, p, k));
                let (third, l) = choose|third: PeerId, l: nat|
                    g.first_hops().contains(third) && #[trigger] g.reaches(third, p, l) && l <= k;
                assert(g.reaches(third, p, l) && l <= m);
            }
        }
    }
}

/// A link between two peers that are equally far from the source, or both not connected to it, lies
/// on no shortest path: adding it changes no route.
pub proof fn law_link_within_a_level_changes_no_route(g: Topology, u: PeerId, v: PeerId)
    requires
        g.valid(),
        g.neighbors(g.source).len() <= MAX_NUM_PEERS,
        u != v,
        forall|n: nat| #[trigger]
            g.distance_is(g.source, u, n) <==> g.distance_is(g.source, v, n),
    ensures
        g.add_edge(u, v).routes() == g.routes(),
{
    let h = g.add_edge(u, v);
    let here = seq![g.source];
    assert(g.is_walk(here, g.source, g.source));
    assert(g.distance_is(g.source, g.source, 0));
    assert forall|p: PeerId| #[trigger] g.distance_is(g.source, p, 0) implies p == g.source by {
        let walk = choose|walk: Seq<PeerId>| #[trigger]
            g.is_walk(walk, g.source, p) && walk.len() == 0 + 1;
        assert(walk[0] == walk.last());
    }
    assert(g.distance_is(g.source, u, 0) <==> g.distance_is(g.source, v, 0));
    assert(u != g.source && v != g.source);
    assert forall|n: nat| #[trigger] g.distance_is(g.source, v, n) implies g.distance_is(
        g.source,
        u,
        n,
    ) by {
        assert(g.distance_is(g.source, u, n) <==> g.distance_is(g.source, v, n));
    }
    lemma_no_farther(g, u, v);
    lemma_no_farther(g, v, u);
    law_added_link_is_there(g, u, v);
    assert(h.neighbors(g.source) == g.neighbors(g.source));
    assert(h.first_hops() == g.first_hops());
    assert forall|p: PeerId| #[trigger] h.reachable(p) <==> g.reachable(p) by {
        if g.reachable(p) {
            let (hop, n) = choose|hop: PeerId, n: nat|
                g.first_hops().contains(hop) && #[trigger] g.reaches(hop, p, n);
            lemma_reaches_more(g, u, v, hop, p, n);
        }
        if h.reachable(p) {
            let (hop, n) = choose|hop: PeerId, n: nat|
                h.first_hops().contains(hop) && #[trigger] h.reaches(hop, p, n);
            lemma_reaches_without(g, u, v, hop, p, n);
        }
    }
    assert forall|p: PeerId| #[trigger] g.reachable(p) implies h.routes()[p] == g.routes()[p] by {
        lemma_same_hops(g, u, v, p);
        let one = h.serves(p);
        let other = g.serves(p);
        lemma_filter_alike(g.first_hops(), one, other);
    }
    assert(h.routes() =~= g.routes());
}

/// The same first hops start a shortest way with the link and without it.
proof fn lemma_same_hops(g: Topology, u: PeerId, v: PeerId, p: PeerId)
    requires
        g.valid(),
        u != v,
        u != g.source,
        v != g.source,
        no_farther(g, u, v),
        no_farther(g, v, u),
        g.add_edge(u, v).first_hops() == g.first_hops(),
    ensures
        forall|hop: PeerId|
            g.first_hops().contains(hop) ==> (#[trigger] g.add_edge(u, v).starts_shortest(hop, p)
                <==> g.starts_shortest(hop, p)),
{
    let h = g.add_edge(u, v);
    assert forall|hop: PeerId| g.first_hops().contains(hop) implies (#[trigger] h.starts_shortest(
        hop,
        p,
    ) <==> g.starts_shortest(hop, p)) by {
        if g.starts_shortest(hop, p) {
            let n = choose|n: nat|
                {
                    &&& #[trigger] g.reaches(hop, p, n)
                    &&& forall|other: PeerId, m: nat|
                        g.first_hops().contains(other) && #[trigger] g.reaches(other, p, m) ==> n <= m
                };
            lemma_reaches_more(g, u, v, hop, p, n);
            assert forall|other: PeerId, m: nat|
                h.first_hops().contains(other) && #[trigger] h.reaches(other, p, m) implies n <= m by {
                lemma_reaches_without(g, u, v, other, p, m);
            }
        }
        if h.starts_shortest(hop, p) {
            let n = choose|n: nat|
                {
                    &&& #[trigger] h.reaches(hop, p, n)
                    &&& forall|other: PeerId, m: nat|
                        h.first_hops().contains(other) && #[trigger] h.reaches(other, p, m) ==> n <= m
                };
            lemma_reaches_without(g, u, v, hop, p, n);
            assert forall|other: PeerId, m: nat|
                g.first_hops().contains(other) && #[trigger] g.reaches(other, p, m) implies n <= m by {
                lemma_reaches_more(g, u, v, other, p, m);
            }
            if !g.reaches(hop, p, n) {
                let (other, m) = choose|other: PeerId, m: nat|
                    g.first_hops().contains(other) && #[trigger] g.reaches(other, p, m) && m <= n - 1;
                lemma_reaches_more(g, u, v, other, p, m);
            }
        }
    }
}

/// Two conditions that agree on a sequence keep the same elements of it.
proof fn lemma_filter_alike(
    s: Seq<PeerId>,
    one: spec_fn(PeerId) -> bool,
    other: spec_fn(PeerId) -> bool,
)
    requires
        forall|p: PeerId| #[trigger] s.contains(p) ==> one(p) == other(p),
    ensures
        s.filter(one) == s.filter(other),
    decreases s.len(),
{
    reveal(Seq::filter);
    if s.len() > 0 {
        let rest = s.drop_last();
        assert forall|p: PeerId| #[trigger] rest.contains(p) implies one(p) == other(p) by {
            let i = choose|i: int| 0 <= i < rest.len() && rest[i] == p;
            assert(s[i] == p);
            assert(s.contains(p));
        }
        lemma_filter_alike(rest, one, other);
        assert(s.contains(s.last()));
    }
}

/// `path` starts at the source, goes on to one of the source's first 128 neighbors, and does not come
/// back to the source.
pub open spec fn is_usable(g: Topology, path: Seq<PeerId>) -> bool {
    &&& g.is_path(path)
    &&& path.len() > 1
    &&& exists|i: int|
        0 <= i < 128 && i < g.links[g.source].len() && #[trigger] g.links[g.source][i] == path[1]
    &&& forall|i: int| 0 < i < path.len() ==> #[trigger] path[i] != g.source
}

/// No usable path to `target` is shorter than `path`.
pub open spec fn is_least_usable(g: Topology, path: Seq<PeerId>, target: PeerId) -> bool {
    &&& is_usable(g, path)
    &&& path.last() == target
    &&& forall|other: Seq<PeerId>| #[trigger]
        is_usable(g, other) && other.last() == target ==> path.len() <= other.len()
}

/// A trail from a first hop on is a usable path.
proof fn lemma_usable(g: Topology, hop: PeerId, target: PeerId, length: nat) -> (path: Seq<PeerId>)
    requires
        g.valid(),
        g.first_hops().contains(hop),
        g.reaches(hop, target, length),
    ensures
        is_usable(g, path),
        path.last() == target,
        path[1] == hop,
        path.len() == length + 1,
{
    lemma_first_hops(g);
    let hops = g.first_hops();
    let at = choose|i: int| 0 <= i < hops.len() && hops[i] == hop;
    assert(g.links[g.source][at] == hop);
    let trail = choose|trail: Seq<PeerId>|
        {
            &&& #[trigger] g.is_trail(trail)
            &&& trail.first() == hop
            &&& trail.last() == target
            &&& trail.len() == length
        };
    let path = seq![g.source] + trail;
    assert forall|i: int, j: int| 0 <= i && j == i + 1 && j < path.len() implies g.contains_edge(
        #[trigger] path[i],
        #[trigger] path[j],
    ) by {
        if i > 0 {
            assert(g.contains_edge(trail[i - 1], trail[j - 1]));
        }
    }
    assert forall|i: int| 0 < i < path.len() implies #[trigger] path[i] != g.source by {
        assert(trail[i - 1] != g.source);
    }
    path
}

/// A usable path is a trail from a first hop on.
proof fn lemma_usable_reaches(g: Topology, path: Seq<PeerId>)
    requires
        g.valid(),
        is_usable(g, path),
    ensures
        g.first_hops().contains(path[1]),
        g.reaches(path[1], path.last(), (path.len() - 1) as nat),
{
    let at = choose|i: int|
        0 <= i < 128 && i < g.links[g.source].len() && #[trigger] g.links[g.source][i] == path[1];
    assert(g.first_hops()[at] == path[1]);
    let trail = path.skip(1);
    assert forall|i: int| 0 <= i < trail.len() implies #[trigger] trail[i] != g.source by {
        assert(path[i + 1] != g.source);
    }
    assert forall|a: int, b: int| 0 <= a && b == a + 1 && b < trail.len() implies g.contains_edge(
        #[trigger] trail[a],
        #[trigger] trail[b],
    ) by {
        assert(g.contains_edge(path[a + 1], path[b + 1]));
    }
    assert(g.is_trail(trail));
}

/// A filter keeps the order.
proof fn lemma_filter_places(s: Seq<PeerId>, keep: spec_fn(PeerId) -> bool) -> (places: Seq<int>)
    ensures
        places.len() == s.filter(keep).len(),
        forall|i: int|
            0 <= i < places.len() ==> 0 <= #[trigger] places[i] < s.len() && s[places[i]]
                == s.filter(keep)[i],
        forall|i: int, j: int|
            0 <= i < j < places.len() ==> #[trigger] places[i] < #[trigger] places[j],
    decreases s.len(),
{
    reveal(Seq::filter);
    if s.len() == 0 {
        Seq::empty()
    } else {
        let rest = s.drop_last();
        let places = lemma_filter_places(rest, keep);
        if keep(s.last()) {
            let more = places.push(s.len() - 1);
            assert forall|i: int| 0 <= i < more.len() implies 0 <= #[trigger] more[i] < s.len()
                && s[more[i]] == s.filter(keep)[i] by {
                if i < places.len() {
                    assert(0 <= places[i] < rest.len());
                    assert(rest[places[i]] == rest.filter(keep)[i]);
                }
            }
            assert forall|i: int, j: int| 0 <= i < j < more.len() implies #[trigger] more[i]
                < #[trigger] more[j] by {
                assert(0 <= places[i] < rest.len());
                if j < places.len() {
                    assert(places[i] < places[j]);
                }
            }
            more
        } else {
            assert forall|i: int| 0 <= i < places.len() implies 0 <= #[trigger] places[i] < s.len()
                && s[places[i]] == s.filter(keep)[i] by {
                assert(0 <= places[i] < rest.len());
                assert(rest[places[i]] == rest.filter(keep)[i]);
            }
            places
        }
    }
}

/// The next hops stand in the order of the source's neighbors.
pub open spec fn stand_at(hops: Seq<PeerId>, neighbors: Seq<PeerId>, places: Seq<int>) -> bool {
    &&& places.len() == hops.len()
    &&& forall|i: int|
        0 <= i < places.len() ==> 0 <= #[trigger] places[i] < neighbors.len()
            && neighbors[places[i]] == hops[i]
    &&& forall|i: int, j: int|
        0 <= i < j < places.len() ==> #[trigger] places[i] < #[trigger] places[j]
}

/// After an update the table has a peer exactly if a usable path leads to it. Its next hops are then
/// exactly the peers that a shortest usable path to it goes on to, each listed once, in the order of
/// the source's neighbors.
pub proof fn law_updated_table_lists_every_next_hop(
    table: TableState,
    now: Time,
    target: PeerId,
    hop: PeerId,
)
    requires
        table.valid(),
    ensures
        ({
            let g = table.topology;
            let after = table.with_routes(now);
            &&& after.forwarding.contains_key(target) <==> exists|path: Seq<PeerId>| #[trigger]
                is_usable(g, path) && path.last() == target
            &&& after.forwarding.contains_key(target) ==> {
                &&& after.forwarding[target].contains(hop) <==> exists|path: Seq<PeerId>| #[trigger]
                    is_least_usable(g, path, target) && path[1] == hop
                &&& after.forwarding[target].len() > 0
                &&& after.forwarding[target].no_duplicates()
                &&& exists|places: Seq<int>| #[trigger]
                    stand_at(after.forwarding[target], g.links[g.source], places)
            }
        }),
{
    let g = table.topology;
    let after = table.with_routes(now);
    lemma_first_hops(g);
    if g.reachable(target) {
        let (h, n) = choose|h: PeerId, n: nat|
            g.first_hops().contains(h) && #[trigger] g.reaches(h, target, n);
        let path = lemma_usable(g, h, target, n);
        assert(is_usable(g, path) && path.last() == target);
        law_routes_have_hops(g, target);
        lemma_routes_contain(g, target, hop);
        if after.forwarding[target].contains(hop) {
            let n = choose|n: nat|
                {
                    &&& #[trigger] g.reaches(hop, target, n)
                    &&& forall|other: PeerId, m: nat|
                        g.first_hops().contains(other) && #[trigger] g.reaches(other, target, m) ==> n
                            <= m
                };
            let least = lemma_usable(g, hop, target, n);
            assert forall|other: Seq<PeerId>| #[trigger]
                is_usable(g, other) && other.last() == target implies least.len() <= other.len() by {
                lemma_usable_reaches(g, other);
            }
            assert(is_least_usable(g, least, target));
        }
        if exists|path: Seq<PeerId>| #[trigger] is_least_usable(g, path, target) && path[1] == hop {
            let least = choose|path: Seq<PeerId>| #[trigger]
                is_least_usable(g, path, target) && path[1] == hop;
            lemma_usable_reaches(g, least);
            assert forall|other: PeerId, m: nat|
                g.first_hops().contains(other) && #[trigger] g.reaches(other, target, m) implies
                least.len() - 1 <= m by {
                let there = lemma_usable(g, other, target, m);
                assert(is_usable(g, there));
            }
            assert(g.starts_shortest(hop, target));
        }
        let places = lemma_filter_places(g.first_hops(), g.serves(target));
        assert forall|i: int| 0 <= i < places.len() implies 0 <= #[trigger] places[i]
            < g.links[g.source].len() && g.links[g.source][places[i]]
            == after.forwarding[target][i] by {
            assert(0 <= places[i] < g.first_hops().len());
        }
        assert(stand_at(after.forwarding[target], g.links[g.source], places));
    }
    if exists|path: Seq<PeerId>| #[trigger] is_usable(g, path) && path.last() == target {
        let path = choose|path: Seq<PeerId>| #[trigger] is_usable(g, path) && path.last() == target;
        lemma_usable_reaches(g, path);
        assert(g.reachable(target));
    }
}

/// After an update, and while the source has at most 128 neighbors, the table has exactly the other
/// peers that some path leads to, each with exactly the peers that its shortest paths start with.
pub proof fn law_updated_table_lists_shortest_paths(
    table: TableState,
    now: Time,
    target: PeerId,
    hop: PeerId,
)
    requires
        table.valid(),
        table.topology.links[table.topology.source].len() <= 128,
    ensures
        ({
            let g = table.topology;
            let after = table.with_routes(now);
            &&& after.forwarding.contains_key(target) <==> target != g.source && g.connected(target)
            &&& after.forwarding.contains_key(target) ==> (after.forwarding[target].contains(hop)
                <==> g.on_shortest_path(hop, target))
        }),
{
    let g = table.topology;
    if target == g.source {
        if g.routes().contains_key(target) {
            law_routes_have_hops(g, target);
        }
    } else {
        law_routes_are_shortest_paths(g, target);
    }
}

/// An update renews the time of exactly the peers that it has a route to.
pub proof fn law_update_renews_times(table: TableState, now: Time, peer: PeerId)
    ensures
        ({
            let after = table.with_routes(now);
            &&& after.times.contains_key(peer) <==> table.times.contains_key(peer)
                || after.forwarding.contains_key(peer)
            &&& after.forwarding.contains_key(peer) ==> after.times[peer] == now
            &&& table.times.contains_key(peer) && !after.forwarding.contains_key(peer)
                ==> after.times[peer] == table.times[peer]
        }),
{
}

/// The peers that count as out of reach are the known ones, other than the source, without a route.
pub proof fn law_unrouted_peers_have_no_route(table: TableState, peer: PeerId)
    ensures
        table.topology.unrouted(table.forwarding).contains(peer) <==> table.topology.links.contains_key(
            peer,
        ) && peer != table.topology.source && !table.forwarding.contains_key(peer),
{
}

} // verus!
