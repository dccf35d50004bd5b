//! Shortest ways from the source to every peer, by breadth-first search.
use super::{names_of, Graph};
use crate::sets::lemma_numbered_len;
use crate::topology::{
    lemma_reaches_back, lemma_reaches_basics, lemma_reaches_start, lemma_reaches_step, MAX_NUM_PEERS,
};
use crate::types::PeerId;
use std::collections::{BTreeMap, VecDeque};
use vstd::prelude::*;
use vstd::relations::injective_on;

verus! {

broadcast use {vstd::laws_cmp::group_laws_cmp, vstd::std_specs::btree::group_btree_axioms};

/// Bit `i` of a route mask.
spec fn bit(mask: u128, i: int) -> bool {
    mask & (1u128 << (i as u128)) != 0
}

proof fn lemma_bit_zero(i: int)
    requires
        0 <= i < 128,
    ensures
        !bit(0, i),
{
    let b = i as u128;
    assert(0u128 & (1u128 << b) == 0) by (bit_vector);
}

proof fn lemma_bit_or(x: u128, y: u128, i: int)
    requires
        0 <= i < 128,
    ensures
        bit(x | y, i) <==> bit(x, i) || bit(y, i),
{
    let b = i as u128;
    assert(((x | y) & (1u128 << b) != 0) <==> (x & (1u128 << b) != 0) || (y & (1u128 << b) != 0))
        by (bit_vector);
}

proof fn lemma_bit_single(i: int, j: int)
    requires
        0 <= i < 128,
        0 <= j < 128,
    ensures
        bit(1u128 << (i as u128), j) <==> i == j,
{
    let a = i as u128;
    let b = j as u128;
    assert(((1u128 << a) & (1u128 << b) != 0) <==> a == b) by (bit_vector)
        requires
            a < 128,
            b < 128,
    ;
}

/// The lists of a table of routes.
pub open spec fn lists(m: Map<PeerId, Vec<PeerId>>) -> Map<PeerId, Seq<PeerId>> {
    m.map_values(|v: Vec<PeerId>| v@)
}

impl Graph {
    /// The ids of the first hops.
    spec fn hop_ids(self) -> Seq<u32> {
        let all = self.ids.adjacency@[0]@;
        if all.len() <= MAX_NUM_PEERS {
            all
        } else {
            all.take(MAX_NUM_PEERS as int)
        }
    }

    /// `seen` lists the ids that have a distance, the source left out, in the order in which they
    /// were found, and that is the order of their distances.
    spec fn order_ok(self, distance: Seq<i64>, seen: Seq<u32>) -> bool {
        &&& distance.len() == self.slots()
        &&& distance[0] == 0
        &&& seen.no_duplicates()
        &&& forall|j: int|
            0 <= j < seen.len() ==> 0 < (#[trigger] seen[j]) < self.slots() && self.ids.used@[seen[j] as int]
        &&& forall|i: u32|
            0 < i < self.slots() ==> (#[trigger] distance[i as int] == -1 <==> !seen.contains(i))
        &&& forall|j: int|
            0 <= j < seen.len() ==> 1 <= distance[(#[trigger] seen[j]) as int] <= j + 1
        &&& forall|j: int, k: int|
            0 <= j <= k < seen.len() ==> distance[(#[trigger] seen[j]) as int] <= distance[(
            #[trigger] seen[k]) as int]
    }

    /// A mask holds only hops that get there in the distance found, and at least one of them.
    spec fn masks_ok(self, distance: Seq<i64>, routes: Seq<u128>, seen: Seq<u32>) -> bool {
        &&& routes.len() == self.slots()
        &&& forall|i: int| 0 < i < self.slots() && distance[i] == -1 ==> #[trigger] routes[i] == 0
        &&& forall|j: int, i: int|
            0 <= j < seen.len() && 0 <= i < self.hop_ids().len() && #[trigger] bit(
                routes[seen[j] as int],
                i,
            ) ==> self@.reaches(
                self@.first_hops()[i],
                self.ids.id2p@[seen[j] as int],
                distance[seen[j] as int] as nat,
            )
        &&& forall|j: int|
            0 <= j < seen.len() ==> self.has_hop(routes[(#[trigger] seen[j]) as int])
    }

    /// A mask holds a first hop.
    spec fn has_hop(self, mask: u128) -> bool {
        exists|i: int| 0 <= i < self.hop_ids().len() && bit(mask, i)
    }

    /// The first hops were found, each with its own bit.
    spec fn hops_ok(self, distance: Seq<i64>, routes: Seq<u128>, seen: Seq<u32>) -> bool {
        forall|i: int|
            0 <= i < self.hop_ids().len() ==> {
                let hop = #[trigger] self.hop_ids()[i];
                &&& seen.contains(hop)
                &&& distance[hop as int] == 1
                &&& bit(routes[hop as int], i)
            }
    }

    /// The neighbor `w` of `v` is not further than one hop more, and if it is that far, every hop
    /// that serves `v` serves it too.
    spec fn served(self, distance: Seq<i64>, routes: Seq<u128>, seen: Seq<u32>, v: u32, w: u32) -> bool {
        w != 0 ==> {
            &&& seen.contains(w)
            &&& distance[w as int] <= distance[v as int] + 1
            &&& distance[w as int] == distance[v as int] + 1 ==> forall|i: int|
                0 <= i < self.hop_ids().len() && #[trigger] bit(routes[v as int], i) ==> bit(
                    routes[w as int],
                    i,
                )
        }
    }

    /// The first `upto` neighbors of `v` are served.
    spec fn explored(
        self,
        distance: Seq<i64>,
        routes: Seq<u128>,
        seen: Seq<u32>,
        v: u32,
        upto: int,
    ) -> bool {
        forall|m: int|
            0 <= m < upto ==> self.served(
                distance,
                routes,
                seen,
                v,
                #[trigger] self.ids.adjacency@[v as int]@[m],
            )
    }

    spec fn all_explored(self, distance: Seq<i64>, routes: Seq<u128>, seen: Seq<u32>, head: int) -> bool {
        forall|j: int|
            0 <= j < head ==> self.explored(
                distance,
                routes,
                seen,
                #[trigger] seen[j],
                self.ids.adjacency@[seen[j] as int]@.len() as int,
            )
    }

    /// What was found so far is at most one hop further than what is looked at now.
    spec fn frontier_ok(self, distance: Seq<i64>, seen: Seq<u32>, head: int) -> bool {
        head < seen.len() ==> forall|j: int|
            0 <= j < seen.len() ==> distance[(#[trigger] seen[j]) as int] <= distance[
            seen[head] as int] + 1
    }

    proof fn lemma_hops(self)
        requires
            self.wf(),
        ensures
            self.hop_ids().len() <= 128,
            self.hop_ids().len() == self@.first_hops().len(),
            self.hop_ids().len() <= self.ids.adjacency@[0]@.len(),
            forall|i: int|
                0 <= i < self.hop_ids().len() ==> {
                    let hop = #[trigger] self.hop_ids()[i];
                    &&& hop == self.ids.adjacency@[0]@[i]
                    &&& 0 < hop < self.slots()
                    &&& self.ids.used@[hop as int]
                    &&& self@.first_hops()[i] == self.ids.id2p@[hop as int]
                    &&& self.ids.id2p@[hop as int] != self.source
                },
            self.hop_ids().no_duplicates(),
            self@.neighbors(self.source) == names_of(self.ids.id2p@, self.ids.adjacency@[0]@),
    {
        let names = names_of(self.ids.id2p@, self.ids.adjacency@[0]@);
        assert(self.ids.used@[0]);
        assert(self.ids.p2id@.contains_key(self.source) && self.ids.p2id@[self.source] == 0);
        self.lemma_id_of(self.source);
        assert(self@.links.contains_key(self.source) && self@.links[self.source].no_duplicates());
        assert forall|i: int| 0 <= i < self.hop_ids().len() implies {
            let hop = #[trigger] self.hop_ids()[i];
            &&& hop == self.ids.adjacency@[0]@[i]
            &&& 0 < hop < self.slots()
            &&& self.ids.used@[hop as int]
            &&& self@.first_hops()[i] == self.ids.id2p@[hop as int]
            &&& self.ids.id2p@[hop as int] != self.source
        } by {
            let hop = self.ids.adjacency@[0]@[i];
            assert(hop < self.slots() && self.ids.used@[hop as int]);
            assert(names[i] == self.ids.id2p@[hop as int]);
            assert(self@.contains_edge(self.source, names[i]));
        }
        assert forall|i: int, j: int|
            0 <= i < self.hop_ids().len() && 0 <= j < self.hop_ids().len() && i != j implies
            self.hop_ids()[i] != self.hop_ids()[j] by {
            assert(names[i] != names[j]);
        }
    }

    /// A neighbor in a list, seen as a peer.
    proof fn lemma_neighbor(self, v: u32, m: int)
        requires
            self.wf(),
            v < self.slots(),
            self.ids.used@[v as int],
            0 <= m < self.ids.adjacency@[v as int]@.len(),
        ensures
            ({
                let w = self.ids.adjacency@[v as int]@[m];
                &&& w < self.slots()
                &&& self.ids.used@[w as int]
                &&& w != v
                &&& self@.contains_edge(self.ids.id2p@[v as int], self.ids.id2p@[w as int])
                &&& w != 0 ==> self.ids.id2p@[w as int] != self.source
            }),
    {
        let w = self.ids.adjacency@[v as int]@[m];
        let p = self.ids.id2p@[v as int];
        assert(self.ids.used@[w as int]);
        assert(self.ids.p2id@.contains_key(p) && self.ids.p2id@[p] == v);
        self.lemma_id_of(p);
        assert(self@.links[p][m] == self.ids.id2p@[w as int]);
        assert(self@.contains_edge(p, self.ids.id2p@[w as int]));
        assert(self.ids.used@[0] && self.ids.p2id@[self.ids.id2p@[0]] == 0);
    }

    proof fn lemma_seen_fits(self, distance: Seq<i64>, seen: Seq<u32>)
        requires
            self.order_ok(distance, seen),
        ensures
            seen.len() <= self.slots(),
    {
        let all = seen.to_set();
        seen.unique_seq_to_set();
        let number = |id: u32| id as int;
        assert(injective_on(number, all));
        lemma_numbered_len(all, number, self.slots());
    }

    /// Finding `w` next to `v = seen[head]`.
    proof fn lemma_found(
        self,
        distance: Seq<i64>,
        seen: Seq<u32>,
        head: int,
        w: u32,
    )
        requires
            self.wf(),
            self.order_ok(distance, seen),
            self.frontier_ok(distance, seen, head),
            0 <= head < seen.len(),
            0 < w < self.slots(),
            self.ids.used@[w as int],
            distance[w as int] == -1,
        ensures
            ({
                let d = distance.update(w as int, (distance[seen[head] as int] + 1) as i64);
                let s = seen.push(w);
                &&& self.order_ok(d, s)
                &&& self.frontier_ok(d, s, head)
                &&& s[head] == seen[head]
                &&& d[seen[head] as int] == distance[seen[head] as int]
                &&& forall|i: u32| seen.contains(i) ==> s.contains(i)
                &&& forall|j: int| 0 <= j < seen.len() ==> seen[j] != w
            }),
    {
        let d = distance.update(w as int, (distance[seen[head] as int] + 1) as i64);
        let s = seen.push(w);
        self.lemma_seen_fits(distance, seen);
        assert(!seen.contains(w));
        assert forall|i: u32| seen.contains(i) implies s.contains(i) by {
            let j = choose|j: int| 0 <= j < seen.len() && seen[j] == i;
            assert(s[j] == i);
        }
        assert(s[seen.len() as int] == w);
        assert forall|j: int| 0 <= j < seen.len() implies seen[j] != w by {
            assert(seen.contains(seen[j]));
        }
        assert forall|i: u32| 0 < i < self.slots() implies (#[trigger] d[i as int] == -1
            <==> !s.contains(i)) by {
            if s.contains(i) && i != w {
                let j = choose|j: int| 0 <= j < s.len() && s[j] == i;
                assert(seen[j] == i);
            }
        }
        assert forall|j: int| 0 <= j < s.len() implies 1 <= d[(#[trigger] s[j]) as int] <= j + 1 by {
            if j < seen.len() {
                assert(s[j] == seen[j]);
            } else {
                assert(distance[seen[head] as int] <= head + 1);
            }
        }
        assert forall|j: int, k: int| 0 <= j <= k < s.len() implies d[(#[trigger] s[j]) as int] <= d[(
        #[trigger] s[k]) as int] by {
            if j < seen.len() {
                assert(s[j] == seen[j]);
            }
            if k < seen.len() {
                assert(s[k] == seen[k]);
            }
        }
        assert forall|j: int| 0 <= j < s.len() implies d[(#[trigger] s[j]) as int] <= d[
        s[head] as int] + 1 by {
            if j < seen.len() {
                assert(s[j] == seen[j]);
            }
        }
    }

    /// Everything that holds while the neighbors of `seen[head]` are looked at, the first `upto` of
    /// them done.
    spec fn searching(
        self,
        distance: Seq<i64>,
        routes: Seq<u128>,
        seen: Seq<u32>,
        head: int,
        upto: int,
    ) -> bool {
        &&& 0 <= head < seen.len()
        &&& self.order_ok(distance, seen)
        &&& self.frontier_ok(distance, seen, head)
        &&& self.masks_ok(distance, routes, seen)
        &&& self.hops_ok(distance, routes, seen)
        &&& self.all_explored(distance, routes, seen, head)
        &&& self.explored(distance, routes, seen, seen[head], upto)
    }

    /// Looking at one more neighbor of `seen[head]`.
    proof fn lemma_visit(
        self,
        distance: Seq<i64>,
        routes: Seq<u128>,
        seen: Seq<u32>,
        head: int,
        upto: int,
        d: Seq<i64>,
        r: Seq<u128>,
        s: Seq<u32>,
    )
        requires
            self.wf(),
            self.searching(distance, routes, seen, head, upto),
            0 <= upto < self.ids.adjacency@[seen[head] as int]@.len(),
            ({
                let v = seen[head];
                let w = self.ids.adjacency@[v as int]@[upto];
                let next = distance[v as int] + 1;
                &&& distance[w as int] == -1 ==> d == distance.update(w as int, next as i64) && s
                    == seen.push(w)
                &&& distance[w as int] != -1 ==> d == distance && s == seen
                &&& d[w as int] == next ==> r == routes.update(
                    w as int,
                    routes[w as int] | routes[v as int],
                )
                &&& d[w as int] != next ==> r == routes
            }),
        ensures
            self.searching(d, r, s, head, upto + 1),
            s[head] == seen[head],
            d[seen[head] as int] == distance[seen[head] as int],
    {
        let v = seen[head];
        let w = self.ids.adjacency@[v as int]@[upto];
        let k = self.hop_ids().len();
        self.lemma_hops();
        self.lemma_neighbor(v, upto);
        self.lemma_seen_fits(distance, seen);
        assert(1 <= distance[v as int] <= head + 1);
        if distance[w as int] == -1 {
            self.lemma_found(distance, seen, head, w);
        } else {
            if w != 0 {
                assert(seen.contains(w));
            }
        }
        let grown = d[w as int] == distance[v as int] + 1;
        if grown {
            assert(w != 0);
            // Nothing at or before `head` is as far as `w`.
            assert forall|j: int| 0 <= j <= head implies #[trigger] seen[j] != w by {
                assert(distance[seen[j] as int] <= distance[seen[head] as int]);
            }
            assert forall|i: int| 0 <= i < k implies (#[trigger] bit(r[w as int], i) <==> bit(
                routes[w as int],
                i,
            ) || bit(routes[v as int], i)) by {
                lemma_bit_or(routes[w as int], routes[v as int], i);
            }
        }
        assert forall|x: int, i: int|
            0 <= x < self.slots() && 0 <= i < k && bit(routes[x], i) implies #[trigger] bit(r[x], i) by {
            assert(x != w ==> r[x] == routes[x]);
        }
        // Masks.
        assert(self.masks_ok(d, r, s)) by {
            assert forall|i: int| 0 < i < self.slots() && d[i] == -1 implies #[trigger] r[i] == 0 by {
                assert(distance[i] == -1);
                assert(routes[i] == 0);
            }
            assert forall|j: int, i: int|
                0 <= j < s.len() && 0 <= i < k && #[trigger] bit(r[s[j] as int], i) implies self@.reaches(
                self@.first_hops()[i],
                self.ids.id2p@[s[j] as int],
                d[s[j] as int] as nat,
            ) by {
                let x = s[j];
                if x == w && grown {
                    if bit(routes[v as int], i) {
                        assert(bit(routes[seen[head] as int], i));
                        lemma_reaches_step(
                            self@,
                            self@.first_hops()[i],
                            self.ids.id2p@[v as int],
                            self.ids.id2p@[w as int],
                            distance[v as int] as nat,
                        );
                    } else {
                        assert(bit(routes[w as int], i));
                        if distance[w as int] == -1 {
                            assert(routes[w as int] == 0);
                            lemma_bit_zero(i);
                        } else {
                            assert(bit(routes[seen[j] as int], i));
                        }
                    }
                } else {
                    assert(j < seen.len());
                    assert(seen[j] == x);
                    assert(bit(routes[seen[j] as int], i));
                }
            }
            assert forall|j: int| 0 <= j < s.len() implies self.has_hop(
                r[(#[trigger] s[j]) as int],
            ) by {
                if j < seen.len() {
                    assert(seen[j] == s[j]);
                    assert(self.has_hop(routes[seen[j] as int]));
                    let i = choose|i: int| 0 <= i < k && bit(routes[seen[j] as int], i);
                    assert(bit(r[s[j] as int], i));
                } else {
                    assert(self.has_hop(routes[seen[head] as int]));
                    let i = choose|i: int| 0 <= i < k && bit(routes[seen[head] as int], i);
                    assert(bit(r[w as int], i));
                }
            }
        }
        assert(self.hops_ok(d, r, s)) by {
            assert forall|i: int| 0 <= i < k implies {
                let hop = #[trigger] self.hop_ids()[i];
                &&& s.contains(hop)
                &&& d[hop as int] == 1
                &&& bit(r[hop as int], i)
            } by {
                let hop = self.hop_ids()[i];
                assert(seen.contains(hop));
                assert(bit(routes[hop as int], i));
            }
        }
        // What was served before is still served.
        assert forall|j: int, x: u32|
            0 <= j <= head && x < self.slots() && #[trigger] self.served(
                distance,
                routes,
                seen,
                seen[j],
                x,
            ) implies self.served(d, r, s, seen[j], x) by {
            let y = seen[j];
            assert(y != w || !grown);
            assert(r[y as int] == routes[y as int]);
            if x != 0 {
                assert(seen.contains(x));
                assert(distance[x as int] != -1);
                assert(d[x as int] == distance[x as int]);
                assert(d[y as int] == distance[y as int]);
            }
        }
        assert(self.all_explored(d, r, s, head)) by {
            assert forall|j: int| 0 <= j < head implies self.explored(
                d,
                r,
                s,
                #[trigger] s[j],
                self.ids.adjacency@[s[j] as int]@.len() as int,
            ) by {
                assert(s[j] == seen[j]);
                assert(self.explored(
                    distance,
                    routes,
                    seen,
                    seen[j],
                    self.ids.adjacency@[seen[j] as int]@.len() as int,
                ));
                assert forall|m: int| 0 <= m < self.ids.adjacency@[s[j] as int]@.len() implies self.served(
                    d,
                    r,
                    s,
                    s[j],
                    #[trigger] self.ids.adjacency@[s[j] as int]@[m],
                ) by {
                    assert(self.served(
                        distance,
                        routes,
                        seen,
                        seen[j],
                        self.ids.adjacency@[seen[j] as int]@[m],
                    ));
                }
            }
        }
        assert(self.explored(d, r, s, v, upto + 1)) by {
            assert forall|m: int| 0 <= m < upto + 1 implies self.served(
                d,
                r,
                s,
                v,
                #[trigger] self.ids.adjacency@[v as int]@[m],
            ) by {
                if m < upto {
                    assert(self.served(distance, routes, seen, seen[head], self.ids.adjacency@[v as int]@[m]));
                } else if w != 0 {
                    assert(s.contains(w)) by {
                        if distance[w as int] == -1 {
                            assert(s[seen.len() as int] == w);
                        }
                    }
                    if distance[w as int] != -1 {
                        let j = choose|j: int| 0 <= j < seen.len() && seen[j] == w;
                        assert(distance[seen[j] as int] <= distance[seen[head] as int] + 1);
                    }
                }
            }
        }
    }

    /// Once everything that was found is explored, nothing reachable was missed.
    proof fn lemma_complete(
        self,
        distance: Seq<i64>,
        routes: Seq<u128>,
        seen: Seq<u32>,
        i: int,
        target: PeerId,
        length: nat,
    )
        requires
            self.wf(),
            self.order_ok(distance, seen),
            self.hops_ok(distance, routes, seen),
            self.all_explored(distance, routes, seen, seen.len() as int),
            0 <= i < self.hop_ids().len(),
            self@.reaches(self@.first_hops()[i], target, length),
        ensures
            self.ids.p2id@.contains_key(target),
            seen.contains(self.ids.p2id@[target]),
            distance[self.ids.p2id@[target] as int] <= length,
            distance[self.ids.p2id@[target] as int] == length ==> bit(
                routes[self.ids.p2id@[target] as int],
                i,
            ),
        decreases length,
    {
        let hop = self@.first_hops()[i];
        self.lemma_hops();
        lemma_reaches_basics(self@, hop, target, length);
        if length == 1 {
            let id = self.hop_ids()[i];
            assert(seen.contains(id));
            assert(self.ids.used@[id as int]);
            assert(self.ids.p2id@[self.ids.id2p@[id as int]] == id);
        } else {
            let via = lemma_reaches_back(self@, hop, target, length);
            self.lemma_complete(distance, routes, seen, i, via, (length - 1) as nat);
            let v = self.ids.p2id@[via];
            self.lemma_id_of(via);
            let names = self@.links[via];
            assert(names.contains(target));
            let m = choose|m: int| 0 <= m < names.len() && names[m] == target;
            let w = self.ids.adjacency@[v as int]@[m];
            self.lemma_neighbor(v, m);
            assert(self.ids.used@[w as int]);
            assert(self.ids.p2id@[target] == w);
            assert(w != 0) by {
                assert(self.ids.id2p@[0] == self.source);
            }
            let j = choose|j: int| 0 <= j < seen.len() && seen[j] == v;
            assert(self.explored(
                distance,
                routes,
                seen,
                seen[j],
                self.ids.adjacency@[seen[j] as int]@.len() as int,
            ));
            assert(self.served(distance, routes, seen, v, self.ids.adjacency@[v as int]@[m]));
        }
    }

    /// The search is over: a mask holds the hops that start a shortest way.
    proof fn lemma_found_routes(self, distance: Seq<i64>, routes: Seq<u128>, seen: Seq<u32>)
        requires
            self.wf(),
            self.order_ok(distance, seen),
            self.masks_ok(distance, routes, seen),
            self.hops_ok(distance, routes, seen),
            self.all_explored(distance, routes, seen, seen.len() as int),
        ensures
            self.routes_found(distance, routes),
    {
        self.lemma_hops();
        let hops = self@.first_hops();
        let k = self.hop_ids().len();
        assert forall|p: PeerId| self@.reachable(p) implies #[trigger] self.ids.p2id@.contains_key(p)
            && self.ids.p2id@[p] > 0 && distance[self.ids.p2id@[p] as int] != -1 by {
            let (hop, length) = choose|hop: PeerId, length: nat|
                hops.contains(hop) && #[trigger] self@.reaches(hop, p, length);
            let i = choose|i: int| 0 <= i < hops.len() && hops[i] == hop;
            self.lemma_complete(distance, routes, seen, i, p, length);
            let j = choose|j: int| 0 <= j < seen.len() && seen[j] == self.ids.p2id@[p];
            assert(distance[seen[j] as int] >= 1);
        }
        assert forall|x: u32|
            0 < x < self.slots() && #[trigger] distance[x as int] != -1 implies self.route_found(
            routes[x as int],
            x,
        ) by {
            let p = self.ids.id2p@[x as int];
            let j = choose|j: int| 0 <= j < seen.len() && seen[j] == x;
            assert(seen[j] == x && self.ids.used@[x as int]);
            assert(self.ids.p2id@[p] == x);
            assert(self.has_hop(routes[seen[j] as int]));
            let far = distance[x as int] as nat;
            let first = choose|i: int| 0 <= i < k && bit(routes[seen[j] as int], i);
            assert(bit(routes[seen[j] as int], first));
            assert(self@.reaches(hops[first], p, far));
            assert(hops.contains(hops[first]));
            lemma_bit_zero(first);
            assert forall|other: PeerId, length: nat|
                hops.contains(other) && #[trigger] self@.reaches(other, p, length) implies far
                <= length by {
                let i = choose|i: int| 0 <= i < hops.len() && hops[i] == other;
                self.lemma_complete(distance, routes, seen, i, p, length);
            }
            assert forall|i: int| 0 <= i < k implies (#[trigger] bit(routes[x as int], i)
                <==> self@.starts_shortest(hops[i], p)) by {
                if bit(routes[x as int], i) {
                    assert(bit(routes[seen[j] as int], i));
                    assert(self@.reaches(hops[i], p, far));
                }
                if self@.starts_shortest(hops[i], p) {
                    let length = choose|length: nat|
                        {
                            &&& #[trigger] self@.reaches(hops[i], p, length)
                            &&& forall|other: PeerId, other_length: nat|
                                hops.contains(other) && #[trigger] self@.reaches(
                                    other,
                                    p,
                                    other_length,
                                ) ==> length <= other_length
                        };
                    assert(length <= far);
                    self.lemma_complete(distance, routes, seen, i, p, length);
                }
            }
        }
    }

    /// The mask of an id tells which first hops serve its peer, which is reachable.
    spec fn route_found(self, mask: u128, x: u32) -> bool {
        &&& self.ids.used@[x as int]
        &&& mask != 0
        &&& self@.reachable(self.ids.id2p@[x as int])
        &&& forall|i: int|
            0 <= i < self.hop_ids().len() ==> (#[trigger] bit(mask, i) <==> self@.starts_shortest(
                self@.first_hops()[i],
                self.ids.id2p@[x as int],
            ))
    }

    /// Distances and masks are those of the network.
    spec fn routes_found(self, distance: Seq<i64>, routes: Seq<u128>) -> bool {
        &&& distance.len() == self.slots()
        &&& routes.len() == self.slots()
        &&& forall|p: PeerId|
            self@.reachable(p) ==> #[trigger] self.ids.p2id@.contains_key(p) && self.ids.p2id@[p] > 0
                && distance[self.ids.p2id@[p] as int] != -1
        &&& forall|x: u32|
            0 < x < self.slots() && #[trigger] distance[x as int] != -1 ==> self.route_found(
                routes[x as int],
                x,
            )
    }

    /// The state of the search when the first `count` hops are queued.
    spec fn queued(self, distance: Seq<i64>, routes: Seq<u128>, count: int) -> bool {
        &&& distance.len() == self.slots()
        &&& routes.len() == self.slots()
        &&& distance[0] == 0
        &&& forall|x: u32|
            0 < x < self.slots() ==> (#[trigger] distance[x as int] == (if self.hop_ids().take(
                count,
            ).contains(x) {
                1i64
            } else {
                -1i64
            }))
        &&& forall|x: int| 0 < x < self.slots() && distance[x] == -1 ==> #[trigger] routes[x] == 0
        &&& forall|i: int|
            0 <= i < count ==> routes[(#[trigger] self.hop_ids()[i]) as int] == 1u128 << (i as u128)
    }

    /// Queueing one more hop.
    proof fn lemma_queued(
        self,
        distance: Seq<i64>,
        routes: Seq<u128>,
        count: int,
        d: Seq<i64>,
        r: Seq<u128>,
    )
        requires
            self.wf(),
            self.queued(distance, routes, count),
            0 <= count < self.hop_ids().len(),
            d == distance.update(self.hop_ids()[count] as int, 1),
            r == routes.update(self.hop_ids()[count] as int, 1u128 << (count as u128)),
        ensures
            self.queued(d, r, count + 1),
    {
        self.lemma_hops();
        let hops = self.hop_ids();
        let w = hops[count];
        assert(hops.take(count + 1) =~= hops.take(count).push(w));
        assert forall|x: u32| 0 < x < self.slots() implies (#[trigger] d[x as int] == (
        if hops.take(count + 1).contains(x) {
            1i64
        } else {
            -1i64
        })) by {
            crate::sequences::lemma_push_contains(hops.take(count), w, x);
            assert(distance[x as int] == (if hops.take(count).contains(x) {
                1i64
            } else {
                -1i64
            }));
        }
        assert forall|i: int| 0 <= i < count + 1 implies r[(#[trigger] hops[i]) as int] == 1u128 << (
        i as u128) by {
            if i < count {
                assert(hops[i] != w);
            }
        }
    }

    /// The search may begin when all first hops are queued.
    proof fn lemma_started(self, distance: Seq<i64>, routes: Seq<u128>)
        requires
            self.wf(),
            self.queued(distance, routes, self.hop_ids().len() as int),
        ensures
            self.order_ok(distance, self.hop_ids()),
            self.frontier_ok(distance, self.hop_ids(), 0),
            self.masks_ok(distance, routes, self.hop_ids()),
            self.hops_ok(distance, routes, self.hop_ids()),
            self.all_explored(distance, routes, self.hop_ids(), 0),
    {
        self.lemma_hops();
        let hops = self.hop_ids();
        assert(hops.take(hops.len() as int) =~= hops);
        assert forall|i: int| 0 <= i < hops.len() implies distance[(#[trigger] hops[i]) as int] == 1 by {
            assert(hops.contains(hops[i]));
        }
        assert forall|i: int, j: int| 0 <= i < hops.len() && 0 <= j < hops.len() implies (
        #[trigger] bit(routes[hops[i] as int], j) <==> i == j) by {
            lemma_bit_single(i, j);
        }
        assert forall|j: int, i: int|
            0 <= j < hops.len() && 0 <= i < hops.len() && #[trigger] bit(
                routes[hops[j] as int],
                i,
            ) implies self@.reaches(
            self@.first_hops()[i],
            self.ids.id2p@[hops[j] as int],
            distance[hops[j] as int] as nat,
        ) by {
            lemma_reaches_start(self@, self@.first_hops()[i]);
        }
        assert forall|j: int| 0 <= j < hops.len() implies self.has_hop(
            routes[(#[trigger] hops[j]) as int],
        ) by {
            assert(bit(routes[hops[j] as int], j));
        }
        assert forall|i: int| 0 <= i < hops.len() implies {
            let hop = #[trigger] hops[i];
            &&& hops.contains(hop)
            &&& distance[hop as int] == 1
            &&& bit(routes[hop as int], i)
        } by {
            assert(bit(routes[hops[i] as int], i));
        }
    }

    /// Compute for every node `u` on the graph (other than `source`) which are the neighbors of
    /// `source` that belong to a shortest path from `source` to `u`. Nodes that are not connected
    /// to `source` do not appear in the result. Only the first [`MAX_NUM_PEERS`] neighbors of
    /// `source` are considered.
    pub fn calculate_distance(&self) -> (res: BTreeMap<PeerId, Vec<PeerId>>)
        requires
            self.wf(),
        ensures
            lists(res@) == self@.routes(),
    {
        let nodes: usize = self.ids.id2p.len();
        let mut queue: VecDeque<u32> = VecDeque::new();
        let mut distance: Vec<i64> = vec![-1i64; nodes];
        let mut routes: Vec<u128> = vec![0u128; nodes];
        distance.set(self.ids.source_id as usize, 0);

        let neighbors = &self.ids.adjacency[self.ids.source_id as usize];
        proof {
            self.lemma_hops();
            assert(self.hop_ids().take(0) =~= Seq::empty());
        }
        let mut hop: usize = 0;
        while hop < neighbors.len() && hop < MAX_NUM_PEERS
            invariant
                self.wf(),
                neighbors@ == self.ids.adjacency@[0]@,
                hop <= self.hop_ids().len() <= 128,
                self.hop_ids().len() == (if neighbors@.len() <= MAX_NUM_PEERS {
                    neighbors@.len() as int
                } else {
                    MAX_NUM_PEERS as int
                }),
                queue@ == self.hop_ids().take(hop as int),
                self.queued(distance@, routes@, hop as int),
            decreases neighbors.len() - hop,
        {
            let neighbor: u32 = neighbors[hop];
            proof {
                self.lemma_hops();
                assert(self.hop_ids()[hop as int] == neighbor);
                assert(self.hop_ids().take(hop + 1) =~= self.hop_ids().take(hop as int).push(neighbor));
            }
            let ghost d = distance@;
            let ghost r = routes@;
            queue.push_back(neighbor);
            distance.set(neighbor as usize, 1);
            routes.set(neighbor as usize, 1u128 << (hop as u128));
            proof {
                self.lemma_queued(d, r, hop as int, distance@, routes@);
            }
            hop += 1;
        }

        let ghost mut seen: Seq<u32> = self.hop_ids();
        let ghost mut head: int = 0;
        proof {
            self.lemma_started(distance@, routes@);
            assert(self.hop_ids().take(hop as int) =~= seen.skip(0));
        }
        while queue.len() > 0
            invariant
                self.wf(),
                0 <= head <= seen.len(),
                queue@ == seen.skip(head),
                self.order_ok(distance@, seen),
                self.frontier_ok(distance@, seen, head),
                self.masks_ok(distance@, routes@, seen),
                self.hops_ok(distance@, routes@, seen),
                self.all_explored(distance@, routes@, seen, head),
            decreases self.slots() - head,
        {
            proof {
                self.lemma_seen_fits(distance@, seen);
            }
            let ghost q = queue@;
            let cur_peer: u32 = queue.pop_front().unwrap();
            assert(cur_peer == seen[head]);
            assert(queue@ =~= seen.skip(head + 1));
            let cur_distance: i64 = distance[cur_peer as usize];
            let around = &self.ids.adjacency[cur_peer as usize];
            let mut at: usize = 0;
            while at < around.len()
                invariant
                    self.wf(),
                    around@ == self.ids.adjacency@[cur_peer as int]@,
                    at <= around@.len(),
                    0 <= head < seen.len() <= self.slots(),
                    cur_peer == seen[head],
                    cur_peer < self.slots(),
                    self.ids.used@[cur_peer as int],
                    cur_distance == distance@[cur_peer as int],
                    queue@ == seen.skip(head + 1),
                    self.searching(distance@, routes@, seen, head, at as int),
                decreases around.len() - at,
            {
                let neighbor: u32 = around[at];
                let ghost d = distance@;
                let ghost r = routes@;
                let ghost s = seen;
                proof {
                    self.lemma_neighbor(cur_peer, at as int);
                    assert(1 <= distance@[seen[head] as int] <= head + 1);
                }
                if distance[neighbor as usize] == -1 {
                    distance.set(neighbor as usize, cur_distance + 1);
                    queue.push_back(neighbor);
                    proof {
                        seen = seen.push(neighbor);
                        assert(queue@ =~= seen.skip(head + 1));
                    }
                }
                // If this edge belongs to a shortest path, all paths to the closer node are also
                // valid for the current node.
                if distance[neighbor as usize] == cur_distance + 1 {
                    let merged = routes[neighbor as usize] | routes[cur_peer as usize];
                    routes.set(neighbor as usize, merged);
                }
                proof {
                    self.lemma_visit(d, r, s, head, at as int, distance@, routes@, seen);
                    self.lemma_seen_fits(distance@, seen);
                }
                at += 1;
            }
            proof {
                assert(self.all_explored(distance@, routes@, seen, head + 1));
                assert(self.frontier_ok(distance@, seen, head + 1)) by {
                    if head + 1 < seen.len() {
                        assert forall|j: int| 0 <= j < seen.len() implies distance@[(
                        #[trigger] seen[j]) as int] <= distance@[seen[head + 1] as int] + 1 by {
                            assert(distance@[seen[head] as int] <= distance@[seen[head + 1] as int]);
                        }
                    }
                }
                head = head + 1;
            }
        }
        proof {
            assert(head == seen.len()) by {
                assert(seen.skip(head).len() == 0);
            }
            self.lemma_found_routes(distance@, routes@, seen);
            self.lemma_decoded(distance@, routes@);
        }
        self.compute_result(&routes, &distance)
    }

    /// Distances and masks have a route for `p`.
    spec fn has_route(self, distance: Seq<i64>, routes: Seq<u128>, p: PeerId) -> bool {
        &&& self.ids.p2id@.contains_key(p)
        &&& self.ids.p2id@[p] != self.ids.source_id
        &&& distance[self.ids.p2id@[p] as int] != -1
        &&& routes[self.ids.p2id@[p] as int] != 0
    }

    /// What distances and masks stand for: the peers with a distance and a hop, each with the first
    /// hops whose bits are set, in their order.
    spec fn decoded(self, distance: Seq<i64>, routes: Seq<u128>) -> Map<PeerId, Seq<PeerId>> {
        Map::new(
            |p: PeerId| self.has_route(distance, routes, p),
            |p: PeerId| picked(
                names_of(self.ids.id2p@, self.hop_ids()),
                routes[self.ids.p2id@[p] as int],
            ),
        )
    }

    /// Decoding what a search found gives the routes of the network.
    proof fn lemma_decoded(self, distance: Seq<i64>, routes: Seq<u128>)
        requires
            self.wf(),
            self.routes_found(distance, routes),
        ensures
            self.decoded(distance, routes) == self@.routes(),
    {
        self.lemma_hops();
        let hops = self@.first_hops();
        let found = self.decoded(distance, routes);
        assert(names_of(self.ids.id2p@, self.hop_ids()) =~= hops);
        assert forall|p: PeerId| #[trigger] found.contains_key(p) <==> self@.reachable(p) by {
            if self@.reachable(p) {
                assert(self.ids.p2id@.contains_key(p));
            }
            if self.ids.p2id@.contains_key(p) {
                let x = self.ids.p2id@[p];
                assert(self.ids.id2p@[x as int] == p);
                assert(0 < x && distance[x as int] != -1 ==> self.route_found(
                    routes[x as int],
                    x,
                ));
            }
        }
        assert forall|p: PeerId| #[trigger] found.contains_key(p) implies found[p]
            == self@.routes()[p] by {
            let x = self.ids.p2id@[p];
            assert(self.ids.id2p@[x as int] == p);
            assert(distance[x as int] != -1);
            assert(self.route_found(routes[x as int], x));
            assert forall|i: int| 0 <= i < hops.len() implies (#[trigger] bit(routes[x as int], i)
                <==> self@.serves(p)(hops[i])) by {
                assert(bit(routes[x as int], i) <==> self@.starts_shortest(hops[i], p));
            }
            lemma_picked(hops, routes[x as int], self@.serves(p));
        }
        assert(found =~= self@.routes());
    }

    /// The table of routes that distances and masks stand for.
    fn compute_result(&self, routes: &Vec<u128>, distance: &Vec<i64>) -> (res: BTreeMap<
        PeerId,
        Vec<PeerId>,
    >)
        requires
            self.wf(),
            routes@.len() == self.slots(),
            distance@.len() == self.slots(),
        ensures
            lists(res@) == self.decoded(distance@, routes@),
    {
        let mut res: BTreeMap<PeerId, Vec<PeerId>> = BTreeMap::new();
        let neighbors = &self.ids.adjacency[self.ids.source_id as usize];
        let ghost hops = names_of(self.ids.id2p@, self.hop_ids());
        proof {
            self.lemma_hops();
        }
        let mut key: usize = 0;
        while key < routes.len()
            invariant
                self.wf(),
                neighbors@ == self.ids.adjacency@[0]@,
                key <= routes@.len() == distance@.len() == self.slots() <= 0x1_0000_0000,
                hops == names_of(self.ids.id2p@, self.hop_ids()),
                hops.len() <= 128,
                hops.len() == (if neighbors@.len() <= MAX_NUM_PEERS {
                    neighbors@.len() as int
                } else {
                    MAX_NUM_PEERS as int
                }),
                forall|p: PeerId| #[trigger]
                    res@.contains_key(p) <==> self.has_route(distance@, routes@, p) && self.ids.p2id@[p]
                        < key,
                forall|p: PeerId| #[trigger]
                    res@.contains_key(p) ==> res@[p]@ == picked(
                        hops,
                        routes@[self.ids.p2id@[p] as int],
                    ),
            decreases routes.len() - key,
        {
            let cur_route: u128 = routes[key];
            proof {
                assert(self.ids.used@[key as int] ==> self.ids.p2id@[self.ids.id2p@[key as int]] == key);
                assert forall|q: PeerId|
                    #[trigger] self.ids.p2id@.contains_key(q) && self.ids.p2id@[q] == key implies q
                    == self.ids.id2p@[key as int] && self.ids.used@[key as int] by {}
            }
            if key as u32 == self.ids.source_id || distance[key] == -1 || cur_route == 0u128
                || !self.ids.used[key] {
                key += 1;
                continue ;
            }
            let mut peer_set: Vec<PeerId> = Vec::new();
            let mut hop: usize = 0;
            assert(hops.take(0) =~= Seq::empty());
            while hop < neighbors.len() && hop < MAX_NUM_PEERS
                invariant
                    self.wf(),
                    neighbors@ == self.ids.adjacency@[0]@,
                    hop <= hops.len() <= 128,
                    hops == names_of(self.ids.id2p@, self.hop_ids()),
                    hops.len() == (if neighbors@.len() <= MAX_NUM_PEERS {
                        neighbors@.len() as int
                    } else {
                        MAX_NUM_PEERS as int
                    }),
                    peer_set@ == picked(hops.take(hop as int), cur_route),
                decreases neighbors.len() - hop,
            {
                proof {
                    assert(hops.take(hop + 1).drop_last() =~= hops.take(hop as int));
                    assert(self.hop_ids()[hop as int] == neighbors@[hop as int]);
                    assert(self.ids.adjacency@[0]@[hop as int] < self.ids.id2p@.len());
                }
                if (cur_route & (1u128 << (hop as u128))) != 0 {
                    let neighbor: u32 = neighbors[hop];
                    peer_set.push(self.ids.id2p[neighbor as usize]);
                }
                hop += 1;
            }
            assert(hops.take(hop as int) =~= hops);
            let peer: PeerId = self.ids.id2p[key];
            res.insert(peer, peer_set);
            key += 1;
        }
        assert(lists(res@) =~= self.decoded(distance@, routes@));
        res
    }
}

/// The hops whose bits are set in a mask, in their order.
spec fn picked(hops: Seq<PeerId>, mask: u128) -> Seq<PeerId>
    decreases hops.len(),
{
    if hops.len() == 0 {
        Seq::empty()
    } else {
        let before = picked(hops.drop_last(), mask);
        if bit(mask, hops.len() - 1) {
            before.push(hops.last())
        } else {
            before
        }
    }
}

/// A mask whose bits tell which hops are wanted picks those that are wanted.
proof fn lemma_picked(hops: Seq<PeerId>, mask: u128, wanted: spec_fn(PeerId) -> bool)
    requires
        forall|i: int| 0 <= i < hops.len() ==> (#[trigger] bit(mask, i) <==> wanted(hops[i])),
    ensures
        picked(hops, mask) == hops.filter(wanted),
    decreases hops.len(),
{
    reveal(Seq::filter);
    if hops.len() > 0 {
        let fewer = hops.drop_last();
        assert forall|i: int| 0 <= i < fewer.len() implies (#[trigger] bit(mask, i) <==> wanted(
            fewer[i],
        )) by {
            assert(fewer[i] == hops[i]);
        }
        lemma_picked(fewer, mask, wanted);
        assert(bit(mask, hops.len() - 1) <==> wanted(hops.last()));
    }
}

} // verus!
