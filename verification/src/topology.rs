//! The network as one node sees it: who is linked with whom, and which links start a shortest
//! way to a peer.
use crate::sequences::{
    lemma_push_contains, lemma_without_contains, lemma_without_no_duplicates, without,
};
use crate::types::{key_before, PeerId};
use vstd::prelude::*;

verus! {

/// How many neighbors of the source are used as first hops: one for each bit of a route mask.
pub const MAX_NUM_PEERS: usize = 128;

/// How many peers can be known at once: an id is a `u32`.
pub const MAX_KNOWN_PEERS: u64 = 0x1_0000_0000;

/// An undirected graph of peers. Each peer's neighbors are listed in the order in which the
/// links were added.
#[verifier::ext_equal]
pub struct Topology {
    pub source: PeerId,
    pub links: Map<PeerId, Seq<PeerId>>,
}

impl Topology {
    /// The source alone.
    pub open spec fn alone(source: PeerId) -> Topology {
        Topology { source, links: map![source => Seq::empty()] }
    }

    pub open spec fn neighbors(self, peer: PeerId) -> Seq<PeerId> {
        if self.links.contains_key(peer) {
            self.links[peer]
        } else {
            Seq::empty()
        }
    }

    pub open spec fn contains_edge(self, peer0: PeerId, peer1: PeerId) -> bool {
        self.neighbors(peer0).contains(peer1)
    }

    /// Links are mutual, join two different peers and are listed once, and a peer other than the
    /// source is known only while it has a link.
    pub open spec fn valid(self) -> bool {
        &&& self.links.dom().finite()
        &&& self.links.contains_key(self.source)
        &&& forall|p: PeerId, q: PeerId| #[trigger]
            self.contains_edge(p, q) ==> p != q && self.contains_edge(q, p)
        &&& forall|p: PeerId| #[trigger] self.links.contains_key(p) ==> self.links[p].no_duplicates()
        &&& forall|p: PeerId| #[trigger]
            self.links.contains_key(p) && p != self.source ==> self.links[p].len() > 0
    }

    /// The edges, each as the pair that starts with the smaller peer.
    pub open spec fn edges(self) -> Set<(PeerId, PeerId)> {
        Set::new(|e: (PeerId, PeerId)| key_before(e.0, e.1) && self.contains_edge(e.0, e.1))
    }

    /// `self` with `peer` known, if only with no links.
    pub open spec fn with_peer(self, peer: PeerId) -> Topology {
        if self.links.contains_key(peer) {
            self
        } else {
            Topology { links: self.links.insert(peer, Seq::empty()), ..self }
        }
    }

    pub open spec fn with_neighbors(self, peer: PeerId, list: Seq<PeerId>) -> Topology {
        Topology { links: self.links.insert(peer, list), ..self }
    }

    /// `self` with `peer` forgotten, unless it is the source or still has links.
    pub open spec fn pruned(self, peer: PeerId) -> Topology {
        if peer != self.source && self.neighbors(peer).len() == 0 {
            Topology { links: self.links.remove(peer), ..self }
        } else {
            self
        }
    }

    /// `self` with a new link between two peers, last in both lists.
    pub open spec fn linked(self, peer0: PeerId, peer1: PeerId) -> Topology {
        self.with_neighbors(peer0, self.neighbors(peer0).push(peer1)).with_neighbors(
            peer1,
            self.neighbors(peer1).push(peer0),
        )
    }

    /// `self` without the link between two peers.
    pub open spec fn unlinked(self, peer0: PeerId, peer1: PeerId) -> Topology {
        self.with_neighbors(peer0, without(self.neighbors(peer0), peer1)).with_neighbors(
            peer1,
            without(self.neighbors(peer1), peer0),
        ).pruned(peer0).pruned(peer1)
    }

    /// `self` after the link between two peers was reported up.
    pub open spec fn add_edge(self, peer0: PeerId, peer1: PeerId) -> Topology {
        if self.contains_edge(peer0, peer1) {
            self
        } else {
            self.linked(peer0, peer1)
        }
    }

    /// `self` after the link between two peers was reported down.
    pub open spec fn remove_edge(self, peer0: PeerId, peer1: PeerId) -> Topology {
        if self.contains_edge(peer0, peer1) {
            self.unlinked(peer0, peer1)
        } else {
            self
        }
    }
}

/// Ways through the network.
impl Topology {
    /// The neighbors of the source that are used as first hops.
    pub open spec fn first_hops(self) -> Seq<PeerId> {
        let all = self.neighbors(self.source);
        if all.len() <= MAX_NUM_PEERS {
            all
        } else {
            all.take(MAX_NUM_PEERS as int)
        }
    }

    /// `trail` follows links from peer to peer and stays away from the source.
    pub open spec fn is_trail(self, trail: Seq<PeerId>) -> bool {
        &&& trail.len() > 0
        &&& forall|i: int| 0 <= i < trail.len() ==> #[trigger] trail[i] != self.source
        &&& forall|i: int, j: int|
            0 <= i && j == i + 1 && j < trail.len() ==> self.contains_edge(
                #[trigger] trail[i],
                #[trigger] trail[j],
            )
    }

    /// A message that the source hands to `hop` can be at `target` after `length` hops in all.
    pub open spec fn reaches(self, hop: PeerId, target: PeerId, length: nat) -> bool {
        exists|trail: Seq<PeerId>|
            {
                &&& #[trigger] self.is_trail(trail)
                &&& trail.first() == hop
                &&& trail.last() == target
                &&& trail.len() == length
            }
    }

    /// `target` is connected to the source through one of the first hops.
    pub open spec fn reachable(self, target: PeerId) -> bool {
        exists|hop: PeerId, length: nat|
            self.first_hops().contains(hop) && #[trigger] self.reaches(hop, target, length)
    }

    /// A way through `hop` gets to `target` and no first hop offers a shorter one.
    pub open spec fn starts_shortest(self, hop: PeerId, target: PeerId) -> bool {
        exists|length: nat|
            {
                &&& #[trigger] self.reaches(hop, target, length)
                &&& forall|other: PeerId, other_length: nat|
                    self.first_hops().contains(other) && #[trigger] self.reaches(
                        other,
                        target,
                        other_length,
                    ) ==> length <= other_length
            }
    }

    pub open spec fn serves(self, target: PeerId) -> spec_fn(PeerId) -> bool {
        |hop: PeerId| self.starts_shortest(hop, target)
    }

    /// For each peer that is connected to the source, the first hops on a shortest way to it.
    pub open spec fn routes(self) -> Map<PeerId, Seq<PeerId>> {
        Map::new(
            |target: PeerId| self.reachable(target),
            |target: PeerId| self.first_hops().filter(self.serves(target)),
        )
    }

    /// `path` follows links from the source on.
    pub open spec fn is_path(self, path: Seq<PeerId>) -> bool {
        &&& path.len() > 0
        &&& path.first() == self.source
        &&& forall|i: int, j: int|
            0 <= i && j == i + 1 && j < path.len() ==> self.contains_edge(
                #[trigger] path[i],
                #[trigger] path[j],
            )
    }

    /// `path` ends at `target` and no path to `target` is shorter.
    pub open spec fn is_shortest_path(self, path: Seq<PeerId>, target: PeerId) -> bool {
        &&& self.is_path(path)
        &&& path.last() == target
        &&& forall|other: Seq<PeerId>| #[trigger]
            self.is_path(other) && other.last() == target ==> path.len() <= other.len()
    }

    /// Some path leads to `target`.
    pub open spec fn connected(self, target: PeerId) -> bool {
        exists|path: Seq<PeerId>| #[trigger] self.is_path(path) && path.last() == target
    }

    /// Some shortest path to `target` starts with `hop`.
    pub open spec fn on_shortest_path(self, hop: PeerId, target: PeerId) -> bool {
        exists|path: Seq<PeerId>| #[trigger]
            self.is_shortest_path(path, target) && path.len() > 1 && path[1] == hop
    }

    /// `walk` follows links from one peer to another.
    pub open spec fn is_walk(self, walk: Seq<PeerId>, from: PeerId, to: PeerId) -> bool {
        &&& walk.len() > 0
        &&& walk.first() == from
        &&& walk.last() == to
        &&& forall|i: int, j: int|
            0 <= i && j == i + 1 && j < walk.len() ==> self.contains_edge(
                #[trigger] walk[i],
                #[trigger] walk[j],
            )
    }

    /// The fewest links between two peers are `n`.
    pub open spec fn distance_is(self, from: PeerId, to: PeerId, n: nat) -> bool {
        &&& exists|walk: Seq<PeerId>| #[trigger] self.is_walk(walk, from, to) && walk.len() == n + 1
        &&& forall|walk: Seq<PeerId>| #[trigger] self.is_walk(walk, from, to) ==> n + 1 <= walk.len()
    }

    /// The known peers other than the source that a table of routes does not lead to.
    pub open spec fn unrouted(self, routes: Map<PeerId, Seq<PeerId>>) -> Set<PeerId> {
        self.links.dom().filter(
            |peer: PeerId| peer != self.source && !routes.contains_key(peer),
        )
    }
}

pub proof fn lemma_reaches_start(g: Topology, hop: PeerId)
    requires
        hop != g.source,
    ensures
        g.reaches(hop, hop, 1),
{
    let trail = seq![hop];
    assert(g.is_trail(trail));
}

pub proof fn lemma_reaches_step(g: Topology, hop: PeerId, via: PeerId, target: PeerId, length: nat)
    requires
        g.reaches(hop, via, length),
        g.contains_edge(via, target),
        target != g.source,
    ensures
        g.reaches(hop, target, length + 1),
{
    let trail = choose|trail: Seq<PeerId>|
        {
            &&& #[trigger] g.is_trail(trail)
            &&& trail.first() == hop
            &&& trail.last() == via
            &&& trail.len() == length
        };
    let longer = trail.push(target);
    assert forall|i: int| 0 <= i < longer.len() implies #[trigger] longer[i] != g.source by {
        if i < trail.len() {
            assert(trail[i] != g.source);
        }
    }
    assert forall|i: int, j: int| 0 <= i && j == i + 1 && j < longer.len() implies g.contains_edge(
        #[trigger] longer[i],
        #[trigger] longer[j],
    ) by {
        if j < trail.len() {
            assert(g.contains_edge(trail[i], trail[j]));
        }
    }
    assert(g.is_trail(longer));
}

/// The last hop of a way of at least two hops.
pub proof fn lemma_reaches_back(g: Topology, hop: PeerId, target: PeerId, length: nat) -> (via: PeerId)
    requires
        g.reaches(hop, target, length),
        length > 1,
    ensures
        g.reaches(hop, via, (length - 1) as nat),
        g.contains_edge(via, target),
{
    let trail = choose|trail: Seq<PeerId>|
        {
            &&& #[trigger] g.is_trail(trail)
            &&& trail.first() == hop
            &&& trail.last() == target
            &&& trail.len() == length
        };
    let shorter = trail.drop_last();
    assert forall|i: int| 0 <= i < shorter.len() implies #[trigger] shorter[i] != g.source by {
        assert(trail[i] != g.source);
    }
    assert forall|i: int, j: int| 0 <= i && j == i + 1 && j < shorter.len() implies g.contains_edge(
        #[trigger] shorter[i],
        #[trigger] shorter[j],
    ) by {
        assert(g.contains_edge(trail[i], trail[j]));
    }
    assert(g.is_trail(shorter));
    assert(g.contains_edge(trail[length - 2], trail[length - 1]));
    shorter.last()
}

/// A way has at least one hop, never ends at the source, and a single hop ends where it starts.
pub proof fn lemma_reaches_basics(g: Topology, hop: PeerId, target: PeerId, length: nat)
    requires
        g.reaches(hop, target, length),
    ensures
        length >= 1,
        hop != g.source,
        target != g.source,
        length == 1 ==> hop == target,
{
    let trail = choose|trail: Seq<PeerId>|
        {
            &&& #[trigger] g.is_trail(trail)
            &&& trail.first() == hop
            &&& trail.last() == target
            &&& trail.len() == length
        };
    assert(trail[0] != g.source);
    assert(trail[trail.len() - 1] != g.source);
}

/// The pair of two peers with the smaller one first.
pub open spec fn ordered_pair(a: PeerId, b: PeerId) -> (PeerId, PeerId) {
    if key_before(a, b) {
        (a, b)
    } else {
        (b, a)
    }
}

/// A link that is added brings at most two peers, and one that is removed brings none.
pub proof fn lemma_known_after(g: Topology, a: PeerId, b: PeerId)
    requires
        g.links.dom().finite(),
    ensures
        g.add_edge(a, b).links.len() <= g.links.len() + 2,
        g.contains_edge(a, b) && g.contains_edge(b, a) ==> g.remove_edge(a, b).links.len()
            <= g.links.len(),
        !g.contains_edge(a, b) ==> g.remove_edge(a, b) == g,
{
    let known = g.links.dom();
    assert(g.linked(a, b).links.dom() =~= known.insert(a).insert(b));
    if g.contains_edge(a, b) && g.contains_edge(b, a) {
        assert(g.unlinked(a, b).links.dom().subset_of(known));
        vstd::set_lib::lemma_len_subset(g.unlinked(a, b).links.dom(), known);
    }
}

pub proof fn lemma_linked(g: Topology, a: PeerId, b: PeerId)
    requires
        g.valid(),
        a != b,
        !g.contains_edge(a, b),
    ensures
        g.linked(a, b).valid(),
        forall|p: PeerId, q: PeerId| #[trigger]
            g.linked(a, b).contains_edge(p, q) <==> g.contains_edge(p, q) || (p == a && q == b) || (
            p == b && q == a),
        g.linked(a, b).edges() == g.edges().insert(ordered_pair(a, b)),
        !g.edges().contains(ordered_pair(a, b)),
{
    let h = g.linked(a, b);
    assert forall|p: PeerId, q: PeerId| #[trigger] h.contains_edge(p, q) <==> g.contains_edge(p, q)
        || (p == a && q == b) || (p == b && q == a) by {
        lemma_push_contains(g.neighbors(a), b, q);
        lemma_push_contains(g.neighbors(b), a, q);
    }
    assert(!g.contains_edge(b, a));
    assert forall|p: PeerId| #[trigger] h.links.contains_key(p) implies h.links[p].no_duplicates() by {
        if p != a && p != b {
            assert(g.links.contains_key(p));
        }
        assert(g.links.contains_key(a) ==> g.links[a].no_duplicates());
        assert(g.links.contains_key(b) ==> g.links[b].no_duplicates());
    }
    assert forall|p: PeerId, q: PeerId| #[trigger] h.contains_edge(p, q) implies p != q
        && h.contains_edge(q, p) by {
        assert(g.contains_edge(p, q) ==> p != q && g.contains_edge(q, p));
    }
    assert(h.edges() =~= g.edges().insert(ordered_pair(a, b)));
}

pub proof fn lemma_unlinked(g: Topology, a: PeerId, b: PeerId)
    requires
        g.valid(),
        g.contains_edge(a, b),
    ensures
        a != b,
        g.unlinked(a, b).valid(),
        forall|p: PeerId, q: PeerId| #[trigger]
            g.unlinked(a, b).contains_edge(p, q) <==> g.contains_edge(p, q) && !(p == a && q == b)
                && !(p == b && q == a),
        g.unlinked(a, b).edges() == g.edges().remove(ordered_pair(a, b)),
        g.edges().contains(ordered_pair(a, b)),
{
    let h = g.unlinked(a, b);
    assert(g.contains_edge(b, a));
    assert forall|p: PeerId, q: PeerId| #[trigger] h.contains_edge(p, q) <==> g.contains_edge(p, q)
        && !(p == a && q == b) && !(p == b && q == a) by {
        lemma_without_contains(g.neighbors(a), b, q);
        lemma_without_contains(g.neighbors(b), a, q);
    }
    assert forall|p: PeerId| #[trigger] h.links.contains_key(p) implies h.links[p].no_duplicates() by {
        if p != a && p != b {
            assert(g.links.contains_key(p));
        }
        assert(g.links.contains_key(a) && g.links[a].no_duplicates());
        assert(g.links.contains_key(b) && g.links[b].no_duplicates());
        lemma_without_no_duplicates(g.neighbors(a), b);
        lemma_without_no_duplicates(g.neighbors(b), a);
    }
    assert forall|p: PeerId| #[trigger] h.links.contains_key(p) && p != h.source implies
        h.links[p].len() > 0 by {
        if p != a && p != b {
            assert(g.links.contains_key(p));
        }
    }
    assert forall|p: PeerId, q: PeerId| #[trigger] h.contains_edge(p, q) implies p != q
        && h.contains_edge(q, p) by {
        assert(g.contains_edge(p, q) ==> p != q && g.contains_edge(q, p));
    }
    assert(h.edges() =~= g.edges().remove(ordered_pair(a, b)));
}

} // verus!
