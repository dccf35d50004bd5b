//! Next hops, and the way back.
use super::{Internals, RoutingTable};
use crate::caches::{counter_entries, counter_limit, counters_get, counters_set};
use crate::lru::{
    bounded, lemma_stored, lemma_touched, lemma_touched_all, lookup, touched, touched_all,
};
use crate::sequences::lemma_push_contains;
use crate::state::{
    TableState, ROUND_ROBIN_MAX_NONCE_DIFFERENCE_ALLOWED, ROUND_ROBIN_NONCE_CACHE_SIZE,
};
use crate::types::{key_less, same_key, CryptoHash, FindRouteError, PeerId, PeerIdOrHash};
use vstd::prelude::*;

verus! {

broadcast use {vstd::laws_cmp::group_laws_cmp, vstd::std_specs::btree::group_btree_axioms};

/// The neighbors among which a next hop is chosen.
struct Candidates {
    /// The one that was used least, and how often.
    hop: PeerId,
    least: usize,
    /// How often the one was used that was used most.
    most: usize,
}

impl Candidates {
    spec fn are_those_of(self, table: TableState, routes: Seq<PeerId>) -> bool {
        &&& self.hop == table.least_used(routes)
        &&& table.is_least_used(routes, self.hop)
        &&& self.least == table.uses(self.hop)
        &&& self.most == table.most_uses(routes)
        &&& table.is_most_uses(routes, self.most)
    }
}

/// There is one least used hop and one greatest number of uses.
proof fn lemma_choice(table: TableState, routes: Seq<PeerId>, hop: PeerId, most: usize)
    requires
        table.is_least_used(routes, hop),
        table.is_most_uses(routes, most),
    ensures
        table.least_used(routes) == hop,
        table.most_uses(routes) == most,
{
    let other = table.least_used(routes);
    assert(table.is_least_used(routes, other));
    assert(routes.contains(other) && routes.contains(hop));
    let uses = table.most_uses(routes);
    assert(table.is_most_uses(routes, uses));
}

impl RoutingTable {
    /// Looks up how often each neighbor on a shortest way to `peer` was used.
    fn candidates(&mut self, peer: &PeerId) -> (res: Candidates)
        requires
            old(self).wf(),
            old(self)@.forwarding.contains_key(*peer),
            old(self)@.forwarding[*peer].len() > 0,
        ensures
            final(self).wf(),
            final(self)@ == (TableState {
                nonces: touched_all(old(self)@.nonces, old(self)@.forwarding[*peer]),
                ..old(self)@
            }),
            res.are_those_of(old(self)@, old(self)@.forwarding[*peer]),
    {
        let ghost table = self@;
        let ghost ways = self@.forwarding[*peer];
        let routes = self.peer_forwarding.get(peer).unwrap();
        assert(routes@ == ways);
        let mut hop: PeerId = routes[0];
        let mut least: usize = 0;
        let mut most: usize = 0;
        let mut i: usize = 0;
        assert(ways.take(0) =~= Seq::empty());
        while i < routes.len()
            invariant
                i <= routes@.len(),
                routes@.len() > 0,
                bounded(table.nonces, ROUND_ROBIN_NONCE_CACHE_SIZE as nat),
                counter_entries(self.internals.route_nonce) == touched_all(
                    table.nonces,
                    routes@.take(i as int),
                ),
                counter_limit(self.internals.route_nonce) == ROUND_ROBIN_NONCE_CACHE_SIZE,
                *self == (RoutingTable {
                    internals: Internals {
                        route_nonce: self.internals.route_nonce,
                        ..old(self).internals
                    },
                    ..*old(self)
                }),
                i > 0 ==> table.is_least_used(routes@.take(i as int), hop),
                i > 0 ==> least == table.uses(hop),
                i > 0 ==> table.is_most_uses(routes@.take(i as int), most),
            decreases routes.len() - i,
        {
            let next: PeerId = routes[i];
            let ghost seen = routes@.take(i as int);
            let ghost seen_next = routes@.take(i + 1);
            proof {
                assert(seen_next.drop_last() =~= seen);
                assert(seen_next.last() == next);
                lemma_touched_all(table.nonces, seen);
            }
            let uses: usize = match counters_get(&mut self.internals.route_nonce, &next) {
                Some(nonce) => nonce,
                None => 0,
            };
            assert(uses == table.uses(next));
            let ghost old_hop = hop;
            let ghost old_most = most;
            if i == 0 || uses < least || (uses == least && key_less(&next, &hop)) {
                hop = next;
                least = uses;
            }
            if i == 0 || uses > most {
                most = uses;
            }
            proof {
                assert forall|p: PeerId| #[trigger] seen_next.contains(p) <==> seen.contains(p) || p
                    == next by {
                    assert(seen_next =~= seen.push(next));
                    lemma_push_contains(seen, next, p);
                }
                if i == 0 {
                    assert(forall|p: PeerId| !seen.contains(p));
                }
                assert(table.is_least_used(seen_next, hop));
                assert(seen_next.contains(next));
                if i > 0 && most == old_most {
                    let top = choose|p: PeerId| #[trigger]
                        seen.contains(p) && table.uses(p) == old_most;
                    assert(seen_next.contains(top));
                }
                assert(table.is_most_uses(seen_next, most));
            }
            i += 1;
        }
        proof {
            assert(routes@.take(i as int) =~= ways);
            lemma_choice(table, ways, hop, most);
            lemma_touched_all(table.nonces, ways);
        }
        Candidates { hop, least, most }
    }

    /// Counts one more use of the chosen next hop. If the difference between the highest and the
    /// lowest count is greater than some threshold, the lowest is first increased to the highest
    /// less the threshold.
    fn count_use(&mut self, choice: Candidates, Ghost(table): Ghost<TableState>, Ghost(routes): Ghost<Seq<PeerId>>)
        requires
            old(self).wf(),
            choice.are_those_of(table, routes),
            choice.least < usize::MAX,
            bounded(table.nonces, ROUND_ROBIN_NONCE_CACHE_SIZE as nat),
            old(self)@ == (TableState { nonces: touched_all(table.nonces, routes), ..table }),
        ensures
            final(self).wf(),
            final(self)@ == (TableState { nonces: table.nonces_counted(routes), ..table }),
    {
        let ghost limit = ROUND_ROBIN_NONCE_CACHE_SIZE as nat;
        let ghost seen = self@.nonces;
        proof {
            lemma_touched_all(table.nonces, routes);
            assert(lookup(seen, choice.hop) == lookup(table.nonces, choice.hop));
        }
        if choice.most - choice.least > ROUND_ROBIN_MAX_NONCE_DIFFERENCE_ALLOWED {
            let caught_up: usize = choice.most - ROUND_ROBIN_MAX_NONCE_DIFFERENCE_ALLOWED;
            proof {
                lemma_stored(seen, limit, choice.hop, caught_up);
            }
            counters_set(&mut self.internals.route_nonce, choice.hop, caught_up);
        }
        let ghost nonces = table.nonces_caught_up(routes);
        assert(counter_entries(self.internals.route_nonce) == nonces);
        let nonce = counters_get(&mut self.internals.route_nonce, &choice.hop);
        let next: usize = match nonce {
            Some(nonce) => nonce + 1,
            None => 1,
        };
        proof {
            lemma_touched(nonces, choice.hop);
            lemma_stored(touched(nonces, choice.hop), limit, choice.hop, next);
        }
        counters_set(&mut self.internals.route_nonce, choice.hop, next);
    }

    /// Find peer that is connected to the source and belongs to a shortest path from the source to
    /// `peer_id`.
    ///
    /// Strategy similar to Round Robin. The neighbor with the least nonce is selected, and its nonce
    /// is increased by one.
    pub fn find_route_from_peer_id(&mut self, peer_id: &PeerId) -> (res: Result<
        PeerId,
        FindRouteError,
    >)
        requires
            old(self).wf(),
            old(self)@.can_count_use(*peer_id),
        ensures
            final(self).wf(),
            res == old(self)@.route_to(*peer_id),
            final(self)@ == old(self)@.with_route_to(*peer_id),
    {
        let ghost table = self@;
        if let Some(routes) = self.peer_forwarding.get(peer_id) {
            if routes.len() == 0 {
                return Err(FindRouteError::Disconnected);
            }
            let choice = self.candidates(peer_id);
            let next_hop: PeerId = choice.hop;
            proof {
                let spare = choose|hop: PeerId| #[trigger]
                    table.forwarding[*peer_id].contains(hop) && table.uses(hop) < usize::MAX;
                assert(spare == next_hop || table.preferred(next_hop, spare));
            }
            self.count_use(choice, Ghost(table), Ghost(table.forwarding[*peer_id]));
            Ok(next_hop)
        } else {
            Err(FindRouteError::PeerNotFound)
        }
    }

    /// Like [`RoutingTable::find_route_from_peer_id`], for a caller that does not know whether one
    /// more use can be counted. `None` if it cannot; the counts then stay as they are.
    pub fn try_find_route_from_peer_id(&mut self, peer_id: &PeerId) -> (res: Option<
        Result<PeerId, FindRouteError>,
    >)
        requires
            old(self).wf(),
        ensures
            final(self).wf(),
            match res {
                Some(route) => {
                    &&& old(self)@.can_count_use(*peer_id)
                    &&& route == old(self)@.route_to(*peer_id)
                    &&& final(self)@ == old(self)@.with_route_to(*peer_id)
                },
                None => {
                    &&& !old(self)@.can_count_use(*peer_id)
                    &&& final(self)@ == (TableState {
                        nonces: touched_all(old(self)@.nonces, old(self)@.forwarding[*peer_id]),
                        ..old(self)@
                    })
                },
            },
    {
        let ghost table = self@;
        if let Some(routes) = self.peer_forwarding.get(peer_id) {
            if routes.len() == 0 {
                return Some(Err(FindRouteError::Disconnected));
            }
            let choice = self.candidates(peer_id);
            let next_hop: PeerId = choice.hop;
            if choice.least == usize::MAX {
                assert forall|hop: PeerId| #[trigger]
                    table.forwarding[*peer_id].contains(hop) implies table.uses(hop) == usize::MAX by {
                    assert(hop == next_hop || table.preferred(next_hop, hop));
                }
                return None;
            }
            assert(table.forwarding[*peer_id].contains(next_hop));
            self.count_use(choice, Ghost(table), Ghost(table.forwarding[*peer_id]));
            Some(Ok(next_hop))
        } else {
            Some(Err(FindRouteError::PeerNotFound))
        }
    }

    /// The next hop on the way to a peer, or on the way back to where a message came from.
    pub fn find_route(&mut self, target: &PeerIdOrHash, now: u64) -> (res: Result<
        PeerId,
        FindRouteError,
    >)
        requires
            old(self).wf(),
            *target matches PeerIdOrHash::PeerId(peer_id) ==> old(self)@.can_count_use(peer_id),
        ensures
            final(self).wf(),
            res == old(self)@.route(*target, now),
            final(self)@ == old(self)@.with_route(*target, now),
    {
        match target {
            PeerIdOrHash::PeerId(peer_id) => self.find_route_from_peer_id(peer_id),
            PeerIdOrHash::Hash(hash) => match self.fetch_route_back(*hash, now) {
                Some(peer_id) => Ok(peer_id),
                None => Err(FindRouteError::RouteBackNotFound),
            },
        }
    }

    /// Like [`RoutingTable::find_route`], for a caller that does not know whether one more use can
    /// be counted. `None` if it cannot; the counts then stay as they are.
    pub fn try_find_route(&mut self, target: &PeerIdOrHash, now: u64) -> (res: Option<
        Result<PeerId, FindRouteError>,
    >)
        requires
            old(self).wf(),
        ensures
            final(self).wf(),
            match res {
                Some(route) => {
                    &&& *target matches PeerIdOrHash::PeerId(peer_id) ==> old(self)@.can_count_use(
                        peer_id,
                    )
                    &&& route == old(self)@.route(*target, now)
                    &&& final(self)@ == old(self)@.with_route(*target, now)
                },
                None => {
                    &&& *target matches PeerIdOrHash::PeerId(peer_id)
                    &&& !old(self)@.can_count_use(peer_id)
                    &&& final(self)@ == (TableState {
                        nonces: touched_all(old(self)@.nonces, old(self)@.forwarding[peer_id]),
                        ..old(self)@
                    })
                },
            },
    {
        match target {
            PeerIdOrHash::PeerId(peer_id) => self.try_find_route_from_peer_id(peer_id),
            PeerIdOrHash::Hash(_) => Some(self.find_route(target, now)),
        }
    }
}

/// The way back.
impl RoutingTable {
    /// Remembers that the message with a hash came from `peer_id`. Times are in milliseconds.
    pub fn add_route_back(&mut self, hash: CryptoHash, peer_id: PeerId, now: u64)
        requires
            old(self).wf(),
        ensures
            final(self).wf(),
            final(self)@ == (TableState {
                route_back: old(self)@.route_back.inserted(hash, peer_id, now),
                ..old(self)@
            }),
    {
        self.route_back.insert(hash, peer_id, now);
    }

    /// Find route back with given hash and remove it from the cache.
    pub fn fetch_route_back(&mut self, hash: CryptoHash, now: u64) -> (res: Option<PeerId>)
        requires
            old(self).wf(),
        ensures
            final(self).wf(),
            res == old(self)@.route_back.without_expired(now).target(hash),
            final(self)@ == (TableState {
                route_back: old(self)@.route_back.removed(hash, now),
                ..old(self)@
            }),
    {
        self.route_back.remove(&hash, now)
    }

    /// Whether the message with a hash came from `peer_id`.
    pub fn compare_route_back(&mut self, hash: CryptoHash, peer_id: &PeerId) -> (res: bool)
        ensures
            *final(self) == *old(self),
            res == (old(self)@.route_back.target(hash) == Some(*peer_id)),
            res == (old(self)@.route_back.records.contains_key(hash)
                && old(self)@.route_back.records[hash].1 == *peer_id),
    {
        match self.route_back.get(&hash) {
            Some(value) => same_key(value, peer_id),
            None => false,
        }
    }
}

} // verus!
