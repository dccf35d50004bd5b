//! The graph of active connections, stored by small integer ids.
mod search;

pub use self::search::lists;

use crate::sequences::{lemma_push_contains, lemma_without_contains, without};
use crate::sets::{lemma_numbered_len, lemma_pairs_len};
use crate::topology::{lemma_linked, lemma_unlinked, Topology, MAX_KNOWN_PEERS};
use crate::types::PeerId;
use std::collections::{BTreeMap, BTreeSet};
use vstd::prelude::*;
use vstd::relations::injective_on;

verus! {

broadcast use {vstd::laws_cmp::group_laws_cmp, vstd::std_specs::btree::group_btree_axioms};

/// The peers that a list of ids stands for.
spec fn names_of(id2p: Seq<PeerId>, ids: Seq<u32>) -> Seq<PeerId> {
    Seq::new(ids.len(), |k: int| id2p[ids[k] as int])
}

/// `n`, or `m` if that is more.
pub open spec fn at_least(n: nat, m: nat) -> nat {
    if n < m {
        m
    } else {
        n
    }
}

/// Current view of the network. Nodes are peers and edges are active connections.
///
/// A peer is known under an id, an index into `id2p`, `used` and `adjacency`. The id of a peer
/// that lost its last connection goes to `unused` and is given to the next new peer.
pub struct Graph {
    pub source: PeerId,
    pub ids: IdTables,
}

/// The peers and their connections, by id.
pub struct IdTables {
    source_id: u32,
    p2id: BTreeMap<PeerId, u32>,
    id2p: Vec<PeerId>,
    used: Vec<bool>,
    unused: Vec<u32>,
    adjacency: Vec<Vec<u32>>,
    total_active_edges: u64,
}

impl View for Graph {
    type V = Topology;

    closed spec fn view(&self) -> Topology {
        Topology {
            source: self.source,
            links: Map::new(
                |p: PeerId| self.ids.p2id@.contains_key(p),
                |p: PeerId| names_of(self.ids.id2p@, self.ids.adjacency@[self.ids.p2id@[p] as int]@),
            ),
        }
    }
}

impl Graph {
    /// How many ids were ever handed out. Ids that are free are handed out first.
    pub closed spec fn slots(self) -> nat {
        self.ids.id2p@.len()
    }

    /// The stored graph is coherent, and its view is a valid network whose edges are counted.
    pub closed spec fn wf(self) -> bool {
        &&& self.tables_ok()
        &&& self.lists_ok()
        &&& self@.valid()
        &&& self@.edges().finite()
        &&& self.ids.total_active_edges == self@.edges().len()
    }

    /// Ids and peers name each other, and an id that is free has no neighbors.
    spec fn tables_ok(self) -> bool {
        &&& 0 < self.ids.id2p@.len() <= MAX_KNOWN_PEERS
        &&& self.ids.used@.len() == self.ids.id2p@.len()
        &&& self.ids.adjacency@.len() == self.ids.id2p@.len()
        &&& self.ids.source_id == 0
        &&& self.ids.used@[0]
        &&& self.ids.id2p@[0] == self.source
        &&& forall|p: PeerId| #[trigger]
            self.ids.p2id@.contains_key(p) ==> {
                &&& self.ids.p2id@[p] < self.ids.id2p@.len()
                &&& self.ids.used@[self.ids.p2id@[p] as int]
                &&& self.ids.id2p@[self.ids.p2id@[p] as int] == p
            }
        &&& forall|i: int|
            0 <= i < self.ids.id2p@.len() && #[trigger] self.ids.used@[i] ==> self.ids.p2id@.contains_key(
                self.ids.id2p@[i],
            ) && self.ids.p2id@[self.ids.id2p@[i]] == i
        &&& self.ids.unused@.no_duplicates()
        &&& forall|j: int|
            0 <= j < self.ids.unused@.len() ==> (#[trigger] self.ids.unused@[j]) < self.ids.id2p@.len()
                && !self.ids.used@[self.ids.unused@[j] as int]
        &&& forall|i: int|
            0 <= i < self.ids.id2p@.len() && !self.ids.used@[i] ==> (#[trigger] self.ids.adjacency@[i])@.len() == 0
        &&& forall|i: int|
            0 <= i < self.ids.id2p@.len() && !#[trigger] self.ids.used@[i] ==> self.ids.unused@.contains(i as u32)
        &&& self.ids.id2p@.len() == self.ids.p2id@.len() + self.ids.unused@.len()
    }

    /// Neighbor lists hold ids that are in use.
    spec fn lists_ok(self) -> bool {
        forall|i: int, k: int|
            0 <= i < self.ids.adjacency@.len() && 0 <= k < self.ids.adjacency@[i]@.len() ==> (
            #[trigger] self.ids.adjacency@[i]@[k]) < self.ids.id2p@.len()
                && self.ids.used@[self.ids.adjacency@[i]@[k] as int]
    }

    /// What holds of the network that a graph stands for.
    pub proof fn lemma_valid(self)
        requires
            self.wf(),
        ensures
            self@.valid(),
            self@.edges().finite(),
            self@.links.len() <= self.slots(),
            self.slots() <= MAX_KNOWN_PEERS,
    {
        self.lemma_ids_counted();
    }

    /// The public field is a part of the view.
    pub proof fn lemma_fields(self)
        ensures
            self@.source == self.source,
    {
    }

    /// The ids that were handed out are those of the known peers and those that are free.
    proof fn lemma_ids_counted(self)
        requires
            self.tables_ok(),
        ensures
            self@.links.dom() == self.ids.p2id@.dom(),
            self@.links.dom().finite(),
            self.slots() == self@.links.len() + self.ids.unused@.len(),
    {
        assert(self@.links.dom() =~= self.ids.p2id@.dom());
    }

    proof fn lemma_id_of(self, p: PeerId)
        requires
            self.tables_ok(),
        ensures
            self.ids.p2id@.contains_key(p) <==> self@.links.contains_key(p),
            self.ids.p2id@.contains_key(p) ==> self@.links[p] == names_of(
                self.ids.id2p@,
                self.ids.adjacency@[self.ids.p2id@[p] as int]@,
            ),
    {
    }

    /// A neighbor list contains an id exactly when the list of names contains the peer.
    proof fn lemma_names_contain(self, i: int, id: u32)
        requires
            self.tables_ok(),
            self.lists_ok(),
            0 <= i < self.ids.id2p@.len(),
            id < self.ids.id2p@.len(),
            self.ids.used@[id as int],
        ensures
            names_of(self.ids.id2p@, self.ids.adjacency@[i]@).contains(self.ids.id2p@[id as int])
                <==> self.ids.adjacency@[i]@.contains(id),
    {
        let list = self.ids.adjacency@[i]@;
        let names = names_of(self.ids.id2p@, list);
        let p = self.ids.id2p@[id as int];
        if names.contains(p) {
            let k = choose|k: int| 0 <= k < names.len() && names[k] == p;
            let other = self.ids.adjacency@[i]@[k];
            assert(self.ids.used@[other as int]);
            assert(self.ids.p2id@[self.ids.id2p@[other as int]] == other);
            assert(list[k] == id);
        }
        if list.contains(id) {
            let k = choose|k: int| 0 <= k < list.len() && list[k] == id;
            assert(names[k] == p);
        }
    }

    pub fn new(source: PeerId) -> (res: Self)
        ensures
            res.wf(),
            res@ == Topology::alone(source),
            res.slots() == 1,
    {
        let mut p2id: BTreeMap<PeerId, u32> = BTreeMap::new();
        p2id.insert(source, 0);
        let id2p: Vec<PeerId> = vec![source];
        let mut adjacency: Vec<Vec<u32>> = Vec::new();
        adjacency.push(Vec::new());
        let res = Graph {
            source,
            ids: IdTables {
                source_id: 0,
                p2id,
                id2p,
                used: vec![true],
                unused: Vec::new(),
                adjacency,
                total_active_edges: 0,
            },
        };
        proof {
            assert(names_of(res.ids.id2p@, res.ids.adjacency@[0]@) =~= Seq::empty());
            assert(res@.links =~= Topology::alone(source).links);
            assert(res@.edges() =~= Set::empty());
        }
        res
    }

    /// The peer whose view this is.
    pub fn source(&self) -> (res: &PeerId)
        ensures
            *res == self@.source,
    {
        &self.source
    }

    /// Whether the two peers are connected.
    pub fn contains_edge(&self, peer0: &PeerId, peer1: &PeerId) -> (res: bool)
        requires
            self.wf(),
        ensures
            res == self@.contains_edge(*peer0, *peer1),
            res == (self@.links.contains_key(*peer0) && self@.links[*peer0].contains(*peer1)),
    {
        proof {
            self.lemma_id_of(*peer0);
        }
        if let Some(id0) = self.ids.p2id.get(peer0) {
            if let Some(id1) = self.ids.p2id.get(peer1) {
                proof {
                    self.lemma_names_contain(*id0 as int, *id1);
                }
                return contains_id(&self.ids.adjacency[*id0 as usize], *id1);
            }
            proof {
                self.lemma_id_of(*peer1);
                assert(self@.contains_edge(*peer0, *peer1) ==> self@.contains_edge(*peer1, *peer0));
            }
        }
        false
    }

    /// Two graphs know the same peers under the same ids.
    spec fn same_ids(self, other: Graph) -> bool {
        &&& self.source == other.source
        &&& self.ids.source_id == other.ids.source_id
        &&& self.ids.p2id@ == other.ids.p2id@
        &&& self.ids.id2p@ == other.ids.id2p@
        &&& self.ids.used@ == other.ids.used@
        &&& self.ids.unused@ == other.ids.unused@
        &&& self.ids.total_active_edges == other.ids.total_active_edges
    }

    /// The id of a peer; one that is not known yet gets an id that is free.
    fn get_id(&mut self, peer: &PeerId) -> (id: u32)
        requires
            old(self).tables_ok(),
            old(self).lists_ok(),
            old(self)@.links.contains_key(*peer) || old(self)@.links.len() < MAX_KNOWN_PEERS,
        ensures
            final(self).tables_ok(),
            final(self).lists_ok(),
            final(self)@ == old(self)@.with_peer(*peer),
            final(self).ids.p2id@.contains_key(*peer),
            final(self).ids.p2id@[*peer] == id,
            forall|p: PeerId| #[trigger]
                old(self).ids.p2id@.contains_key(p) ==> final(self).ids.p2id@.contains_key(p)
                    && final(self).ids.p2id@[p] == old(self).ids.p2id@[p],
            final(self).ids.total_active_edges == old(self).ids.total_active_edges,
            final(self).source == old(self).source,
            old(self)@.links.contains_key(*peer) ==> *final(self) == *old(self),
            !old(self)@.links.contains_key(*peer) ==> {
                if old(self).ids.unused@.len() == 0 {
                    &&& id == old(self).slots()
                    &&& final(self).slots() == old(self).slots() + 1
                    &&& final(self).ids.unused@ == old(self).ids.unused@
                } else {
                    &&& id == old(self).ids.unused@.last()
                    &&& final(self).slots() == old(self).slots()
                    &&& final(self).ids.unused@ == old(self).ids.unused@.drop_last()
                }
            },
            final(self).slots() == at_least(old(self).slots(), final(self)@.links.len()),
    {
        proof {
            self.lemma_id_of(*peer);
            self.lemma_ids_counted();
        }
        if let Some(id) = self.ids.p2id.get(peer) {
            return *id;
        }
        let ghost before = *self;
        let id: u32 = match self.ids.unused.pop() {
            Some(id) => {
                proof {
                    assert(before.ids.unused@[before.ids.unused@.len() - 1] == id);
                    assert(before.ids.adjacency@[id as int]@.len() == 0);
                }
                self.ids.id2p.set(id as usize, *peer);
                self.ids.used.set(id as usize, true);
                id
            },
            None => {
                let id: u32 = self.ids.id2p.len() as u32;
                self.ids.id2p.push(*peer);
                self.ids.used.push(true);
                self.ids.adjacency.push(Vec::new());
                id
            },
        };
        self.ids.p2id.insert(*peer, id);
        proof {
            assert forall|i: int|
                0 <= i < self.ids.id2p@.len() && #[trigger] self.ids.used@[i] implies self.ids.p2id@.contains_key(
                self.ids.id2p@[i],
            ) && self.ids.p2id@[self.ids.id2p@[i]] == i by {
                if i != id {
                    assert(before.ids.used@[i]);
                    assert(before.ids.id2p@[i] != *peer);
                }
            }
            assert forall|i: int|
                0 <= i < self.ids.id2p@.len() && !self.ids.used@[i] implies (#[trigger] self.ids.adjacency@[i])@.len() == 0 by {
                assert(before.ids.adjacency@[i]@.len() == 0);
            }
            assert forall|j: int|
                0 <= j < self.ids.unused@.len() implies (#[trigger] self.ids.unused@[j]) < self.ids.id2p@.len()
                && !self.ids.used@[self.ids.unused@[j] as int] by {
                assert(self.ids.unused@[j] == before.ids.unused@[j]);
            }
            assert forall|i: int|
                0 <= i < self.ids.id2p@.len() && !#[trigger] self.ids.used@[i] implies self.ids.unused@.contains(
                i as u32,
            ) by {
                assert(!before.ids.used@[i] && before.ids.unused@.contains(i as u32));
                let j = choose|j: int|
                    0 <= j < before.ids.unused@.len() && before.ids.unused@[j] == i as u32;
                assert(self.ids.unused@[j] == i as u32);
            }
            assert(self.tables_ok());
            assert forall|i: int, k: int|
                0 <= i < self.ids.adjacency@.len() && 0 <= k < self.ids.adjacency@[i]@.len() implies (
            #[trigger] self.ids.adjacency@[i]@[k]) < self.ids.id2p@.len()
                && self.ids.used@[self.ids.adjacency@[i]@[k] as int] by {
                assert(before.ids.adjacency@[i]@[k] == self.ids.adjacency@[i]@[k]);
            }
            assert forall|p: PeerId| #[trigger] before.ids.p2id@.contains_key(p) implies names_of(
                self.ids.id2p@,
                self.ids.adjacency@[self.ids.p2id@[p] as int]@,
            ) == names_of(before.ids.id2p@, before.ids.adjacency@[before.ids.p2id@[p] as int]@) by {
                let i = before.ids.p2id@[p] as int;
                assert(self.ids.adjacency@[i] == before.ids.adjacency@[i]);
                assert forall|k: int| 0 <= k < before.ids.adjacency@[i]@.len() implies self.ids.id2p@[
                (#[trigger] before.ids.adjacency@[i]@[k]) as int] == before.ids.id2p@[
                before.ids.adjacency@[i]@[k] as int] by {
                    assert(before.ids.used@[before.ids.adjacency@[i]@[k] as int]);
                }
                assert(names_of(self.ids.id2p@, self.ids.adjacency@[i]@) =~= names_of(
                    before.ids.id2p@,
                    before.ids.adjacency@[i]@,
                ));
            }
            assert(names_of(self.ids.id2p@, self.ids.adjacency@[id as int]@) =~= Seq::empty());
            assert(self@.links =~= before@.with_peer(*peer).links);
            self.lemma_ids_counted();
        }
        id
    }

    /// Puts `id1` last in the neighbor list of `id0`.
    fn push_neighbor(&mut self, id0: u32, id1: u32)
        requires
            old(self).tables_ok(),
            old(self).lists_ok(),
            id0 < old(self).slots(),
            id1 < old(self).slots(),
            old(self).ids.used@[id0 as int],
            old(self).ids.used@[id1 as int],
        ensures
            final(self).tables_ok(),
            final(self).lists_ok(),
            final(self).same_ids(*old(self)),
            final(self)@ == old(self)@.with_neighbors(
                old(self).ids.id2p@[id0 as int],
                old(self)@.neighbors(old(self).ids.id2p@[id0 as int]).push(old(self).ids.id2p@[id1 as int]),
            ),
    {
        let ghost before = *self;
        self.ids.adjacency[id0 as usize].push(id1);
        proof {
            assert forall|i: int, k: int|
                0 <= i < self.ids.adjacency@.len() && 0 <= k < self.ids.adjacency@[i]@.len() implies (
            #[trigger] self.ids.adjacency@[i]@[k]) < self.ids.id2p@.len()
                && self.ids.used@[self.ids.adjacency@[i]@[k] as int] by {
                if i != id0 || k < before.ids.adjacency@[i]@.len() {
                    assert(before.ids.adjacency@[i]@[k] == self.ids.adjacency@[i]@[k]);
                }
            }
            self.lemma_list_replaced(before, id0);
            assert(names_of(self.ids.id2p@, self.ids.adjacency@[id0 as int]@) =~= names_of(
                before.ids.id2p@,
                before.ids.adjacency@[id0 as int]@,
            ).push(self.ids.id2p@[id1 as int]));
        }
    }

    /// Takes `id1` out of the neighbor list of `id0`.
    fn drop_neighbor(&mut self, id0: u32, id1: u32)
        requires
            old(self).tables_ok(),
            old(self).lists_ok(),
            id0 < old(self).slots(),
            id1 < old(self).slots(),
            old(self).ids.used@[id0 as int],
            old(self).ids.used@[id1 as int],
        ensures
            final(self).tables_ok(),
            final(self).lists_ok(),
            final(self).same_ids(*old(self)),
            final(self)@ == old(self)@.with_neighbors(
                old(self).ids.id2p@[id0 as int],
                without(
                    old(self)@.neighbors(old(self).ids.id2p@[id0 as int]),
                    old(self).ids.id2p@[id1 as int],
                ),
            ),
    {
        let ghost before = *self;
        let shorter = without_id(&self.ids.adjacency[id0 as usize], id1);
        self.ids.adjacency.set(id0 as usize, shorter);
        proof {
            let list = before.ids.adjacency@[id0 as int]@;
            assert forall|i: int, k: int|
                0 <= i < self.ids.adjacency@.len() && 0 <= k < self.ids.adjacency@[i]@.len() implies (
            #[trigger] self.ids.adjacency@[i]@[k]) < self.ids.id2p@.len()
                && self.ids.used@[self.ids.adjacency@[i]@[k] as int] by {
                if i == id0 {
                    let x = self.ids.adjacency@[i]@[k];
                    lemma_without_contains(list, id1, x);
                    assert(without(list, id1).contains(x));
                    let m = choose|m: int| 0 <= m < list.len() && list[m] == x;
                    assert(before.ids.adjacency@[i]@[m] == x);
                } else {
                    assert(before.ids.adjacency@[i]@[k] == self.ids.adjacency@[i]@[k]);
                }
            }
            self.lemma_list_replaced(before, id0);
            assert forall|k: int|
                0 <= k < list.len() && self.ids.id2p@[(#[trigger] list[k]) as int]
                    == self.ids.id2p@[id1 as int] implies list[k] == id1 by {
                assert(before.ids.adjacency@[id0 as int]@[k] == list[k]);
                assert(self.ids.used@[list[k] as int]);
            }
            lemma_names_without(self.ids.id2p@, list, id1);
        }
    }

    /// Replacing one neighbor list replaces one entry of the view.
    proof fn lemma_list_replaced(self, before: Graph, id: u32)
        requires
            before.tables_ok(),
            self.same_ids(before),
            self.ids.adjacency@.len() == before.ids.adjacency@.len(),
            id < self.ids.id2p@.len(),
            self.ids.used@[id as int],
            forall|i: int|
                0 <= i < self.ids.adjacency@.len() && i != id ==> self.ids.adjacency@[i]
                    == before.ids.adjacency@[i],
        ensures
            self.tables_ok(),
            self@ == before@.with_neighbors(
                self.ids.id2p@[id as int],
                names_of(self.ids.id2p@, self.ids.adjacency@[id as int]@),
            ),
            before@.neighbors(self.ids.id2p@[id as int]) == names_of(
                before.ids.id2p@,
                before.ids.adjacency@[id as int]@,
            ),
    {
        assert forall|i: int|
            0 <= i < self.ids.id2p@.len() && !self.ids.used@[i] implies (#[trigger] self.ids.adjacency@[i])@.len()
            == 0 by {
            assert(before.ids.adjacency@[i]@.len() == 0);
        }
        let p = self.ids.id2p@[id as int];
        assert(self.ids.p2id@.contains_key(p) && self.ids.p2id@[p] == id);
        assert(self@.links =~= before@.with_neighbors(
            p,
            names_of(self.ids.id2p@, self.ids.adjacency@[id as int]@),
        ).links);
    }

    /// Gives back the id of a peer that has no connection left. The source keeps its id.
    fn remove_if_unused(&mut self, id: u32)
        requires
            old(self).tables_ok(),
            old(self).lists_ok(),
            id < old(self).slots(),
            old(self).ids.used@[id as int],
            old(self).ids.adjacency@[id as int]@.len() == 0 ==> forall|i: int|
                0 <= i < old(self).slots() ==> !(#[trigger] old(self).ids.adjacency@[i])@.contains(id),
        ensures
            final(self).tables_ok(),
            final(self).lists_ok(),
            final(self)@ == old(self)@.pruned(old(self).ids.id2p@[id as int]),
            final(self).source == old(self).source,
            final(self).ids.source_id == old(self).ids.source_id,
            final(self).ids.total_active_edges == old(self).ids.total_active_edges,
            final(self).ids.id2p@ == old(self).ids.id2p@,
            final(self).ids.adjacency@ == old(self).ids.adjacency@,
            if old(self).ids.adjacency@[id as int]@.len() == 0 && id != old(self).ids.source_id {
                &&& final(self).ids.used@ == old(self).ids.used@.update(id as int, false)
                &&& final(self).ids.unused@ == old(self).ids.unused@.push(id)
                &&& final(self).ids.p2id@ == old(self).ids.p2id@.remove(old(self).ids.id2p@[id as int])
            } else {
                *final(self) == *old(self)
            },
    {
        let ghost before = *self;
        let ghost p = self.ids.id2p@[id as int];
        proof {
            self.lemma_id_of(p);
        }
        if self.ids.adjacency[id as usize].is_empty() && id != self.ids.source_id {
            self.ids.used.set(id as usize, false);
            self.ids.unused.push(id);
            let peer = self.ids.id2p[id as usize];
            self.ids.p2id.remove(&peer);
            proof {
                assert(p != self.source) by {
                    assert(before.ids.used@[0] && before.ids.p2id@[before.ids.id2p@[0]] == 0);
                }
                assert(!before.ids.unused@.contains(id)) by {
                    if before.ids.unused@.contains(id) {
                        let j = choose|j: int|
                            0 <= j < before.ids.unused@.len() && before.ids.unused@[j] == id;
                        assert(!before.ids.used@[before.ids.unused@[j] as int]);
                    }
                }
                assert forall|j: int|
                    0 <= j < self.ids.unused@.len() implies (#[trigger] self.ids.unused@[j])
                    < self.ids.id2p@.len() && !self.ids.used@[self.ids.unused@[j] as int] by {
                    if j < before.ids.unused@.len() {
                        assert(self.ids.unused@[j] == before.ids.unused@[j]);
                    }
                }
                assert forall|i: int|
                    0 <= i < self.ids.id2p@.len() && #[trigger] self.ids.used@[i] implies self.ids.p2id@.contains_key(
                self.ids.id2p@[i],
                ) && self.ids.p2id@[self.ids.id2p@[i]] == i by {
                    assert(before.ids.used@[i]);
                }
                assert forall|i: int|
                    0 <= i < self.ids.id2p@.len() && !#[trigger] self.ids.used@[i] implies self.ids.unused@.contains(
                    i as u32,
                ) by {
                    lemma_push_contains(before.ids.unused@, id, i as u32);
                    assert(i != id ==> !before.ids.used@[i]);
                }
                assert forall|q: PeerId| #[trigger] self.ids.p2id@.contains_key(q) implies {
                    &&& self.ids.p2id@[q] < self.ids.id2p@.len()
                    &&& self.ids.used@[self.ids.p2id@[q] as int]
                    &&& self.ids.id2p@[self.ids.p2id@[q] as int] == q
                } by {
                    assert(before.ids.p2id@.contains_key(q));
                }
                assert forall|i: int, k: int|
                    0 <= i < self.ids.adjacency@.len() && 0 <= k < self.ids.adjacency@[i]@.len() implies (
                #[trigger] self.ids.adjacency@[i]@[k]) < self.ids.id2p@.len()
                    && self.ids.used@[self.ids.adjacency@[i]@[k] as int] by {
                    assert(before.ids.used@[before.ids.adjacency@[i]@[k] as int]);
                    assert(!before.ids.adjacency@[i]@.contains(id));
                }
                assert(self@.links =~= before@.pruned(p).links);
            }
        } else {
            assert(p == self.source ==> id == 0) by {
                assert(before.ids.p2id@[before.ids.id2p@[0]] == 0);
            }
        }
    }

    /// There is always room for one more edge in the counter.
    proof fn lemma_edge_count_fits(self)
        requires
            self.wf(),
        ensures
            self@.edges().len() < u64::MAX,
    {
        let known = self.ids.p2id@.dom();
        let number = |p: PeerId| self.ids.p2id@[p] as int;
        assert forall|p: PeerId| #[trigger] known.contains(p) implies 0 <= number(p) < self.slots() by {
            assert(self.ids.p2id@.contains_key(p));
        }
        assert(injective_on(number, known)) by {
            assert forall|p: PeerId, q: PeerId|
                known.contains(p) && known.contains(q) && number(p) == number(q) implies p == q by {
                assert(self.ids.p2id@.contains_key(p) && self.ids.p2id@.contains_key(q));
            }
        }
        lemma_numbered_len(known, number, self.slots());
        assert forall|e: (PeerId, PeerId)| #[trigger] self@.edges().contains(e) implies known.contains(
            e.0,
        ) && known.contains(e.1) && e.0 != e.1 by {
            assert(self@.contains_edge(e.0, e.1));
            assert(self@.contains_edge(e.1, e.0));
        }
        lemma_pairs_len(self@.edges(), known, known);
        let n = known.len();
        assert(n * (n - 1) <= 0x1_0000_0000 * 0xffff_ffff) by (nonlinear_arith)
            requires
                0 <= n <= 0x1_0000_0000,
        ;
    }

    /// Records that the two peers are connected.
    pub fn add_edge(&mut self, peer0: PeerId, peer1: PeerId)
        requires
            old(self).wf(),
            peer0 != peer1,
            old(self)@.add_edge(peer0, peer1).links.len() <= MAX_KNOWN_PEERS,
        ensures
            final(self).wf(),
            final(self)@ == old(self)@.add_edge(peer0, peer1),
            final(self).slots() == at_least(old(self).slots(), final(self)@.links.len()),
            old(self).slots() <= final(self).slots(),
            final(self).slots() == old(self).slots() || final(self).slots() == final(self)@.links.len(),
    {
        proof {
            self.lemma_ids_counted();
        }
        if !self.contains_edge(&peer0, &peer1) {
            let ghost before = *self;
            proof {
                self.lemma_edge_count_fits();
                lemma_linked(self@, peer0, peer1);
                let known = self@.links.dom();
                let after = self@.linked(peer0, peer1).links.dom();
                assert(after =~= known.insert(peer0).insert(peer1));
                vstd::set_lib::lemma_len_subset(known.insert(peer0), after);
                assert(self@.with_peer(peer0).links.dom() =~= known.insert(peer0));
                assert(self@.with_peer(peer0).with_peer(peer1).links.dom() =~= after);
            }
            let id0 = self.get_id(&peer0);
            let id1 = self.get_id(&peer1);
            assert(self.ids.p2id@.contains_key(peer0) && self.ids.p2id@[peer0] == id0);
            self.push_neighbor(id0, id1);
            self.push_neighbor(id1, id0);
            self.ids.total_active_edges = self.ids.total_active_edges + 1;
            assert(self@.links =~= before@.linked(peer0, peer1).links);
        }
    }

    /// Records that the two peers are no longer connected.
    pub fn remove_edge(&mut self, peer0: &PeerId, peer1: &PeerId)
        requires
            old(self).wf(),
            *peer0 != *peer1,
        ensures
            final(self).wf(),
            final(self)@ == old(self)@.remove_edge(*peer0, *peer1),
            final(self).slots() == old(self).slots(),
    {
        if self.contains_edge(peer0, peer1) {
            let ghost before = *self;
            proof {
                lemma_unlinked(self@, *peer0, *peer1);
                assert(self@.contains_edge(*peer1, *peer0));
                vstd::set_lib::lemma_set_empty_equivalency_len(self@.edges());
            }
            let id0 = self.get_id(peer0);
            let id1 = self.get_id(peer1);
            assert(self@ == before@);
            assert(self.ids.p2id@.contains_key(*peer0) && self.ids.p2id@[*peer0] == id0);
            self.drop_neighbor(id0, id1);
            self.drop_neighbor(id1, id0);
            proof {
                self.lemma_lonely_id(before@, *peer0, *peer1, id0);
                self.lemma_lonely_id(before@, *peer0, *peer1, id1);
            }
            self.remove_if_unused(id0);
            self.remove_if_unused(id1);
            self.ids.total_active_edges = self.ids.total_active_edges - 1;
            assert(self@.links =~= before@.unlinked(*peer0, *peer1).links);
        }
    }

    /// Once both lists lost the link, an id whose list is empty occurs in no list.
    proof fn lemma_lonely_id(self, g: Topology, a: PeerId, b: PeerId, id: u32)
        requires
            self.tables_ok(),
            self.lists_ok(),
            g.valid(),
            a != b,
            g.links.contains_key(a),
            g.links.contains_key(b),
            id < self.slots(),
            self.ids.used@[id as int],
            self.ids.id2p@[id as int] == a || self.ids.id2p@[id as int] == b,
            self@ == g.with_neighbors(a, without(g.neighbors(a), b)).with_neighbors(
                b,
                without(g.neighbors(b), a),
            ),
        ensures
            self.ids.adjacency@[id as int]@.len() == 0 ==> forall|i: int|
                0 <= i < self.slots() ==> !(#[trigger] self.ids.adjacency@[i])@.contains(id),
    {
        if self.ids.adjacency@[id as int]@.len() == 0 {
            let p = self.ids.id2p@[id as int];
            assert forall|i: int| 0 <= i < self.slots() implies !(
            #[trigger] self.ids.adjacency@[i])@.contains(id) by {
                if self.ids.adjacency@[i]@.contains(id) {
                    assert(self.ids.adjacency@[i]@.len() > 0);
                    assert(self.ids.used@[i]);
                    let q = self.ids.id2p@[i];
                    self.lemma_names_contain(i, id);
                    assert(self@.links.contains_key(q) && self@.links[q].contains(p));
                    assert(g.links.contains_key(q));
                    lemma_without_contains(g.neighbors(a), b, p);
                    lemma_without_contains(g.neighbors(b), a, p);
                    assert(g.contains_edge(q, p));
                    assert(g.contains_edge(p, q));
                    lemma_without_contains(g.neighbors(a), b, q);
                    lemma_without_contains(g.neighbors(b), a, q);
                    assert(self@.links[p].contains(q));
                    assert(self@.links[p].len() == 0);
                }
            }
        }
    }

    /// The neighbors of each peer.
    pub fn neighbor_sets(&self) -> (res: BTreeMap<PeerId, BTreeSet<PeerId>>)
        requires
            self.wf(),
        ensures
            res@.dom() == self@.links.dom(),
            forall|p: PeerId| #[trigger]
                res@.contains_key(p) ==> res@[p]@ == self@.links[p].to_set(),
    {
        let mut res: BTreeMap<PeerId, BTreeSet<PeerId>> = BTreeMap::new();
        let mut key: usize = 0;
        while key < self.ids.adjacency.len()
            invariant
                self.wf(),
                key <= self.slots() == self.ids.adjacency@.len(),
                forall|p: PeerId| #[trigger]
                    res@.contains_key(p) <==> self.ids.p2id@.contains_key(p) && self.ids.p2id@[p] < key,
                forall|p: PeerId| #[trigger]
                    res@.contains_key(p) ==> res@[p]@ == self@.links[p].to_set(),
            decreases self.ids.adjacency.len() - key,
        {
            let ghost before = res@;
            if self.ids.used[key] {
                let list = &self.ids.adjacency[key];
                let mut neighbors: BTreeSet<PeerId> = BTreeSet::new();
                let ghost names = names_of(self.ids.id2p@, list@);
                let mut i: usize = 0;
                assert(names.take(0).to_set() =~= Set::empty());
                while i < list.len()
                    invariant
                        self.wf(),
                        key < self.ids.adjacency@.len(),
                        list@ == self.ids.adjacency@[key as int]@,
                        names == names_of(self.ids.id2p@, list@),
                        i <= list@.len(),
                        neighbors@ == names.take(i as int).to_set(),
                    decreases list.len() - i,
                {
                    proof {
                        assert(self.ids.adjacency@[key as int]@[i as int] < self.ids.id2p@.len());
                        let before = names.take(i as int);
                        let after = names.take(i as int + 1);
                        assert(after =~= before.push(names[i as int]));
                        assert forall|p: PeerId| #[trigger] after.to_set().contains(p)
                            <==> before.to_set().insert(names[i as int]).contains(p) by {
                            lemma_push_contains(before, names[i as int], p);
                        }
                        assert(after.to_set() =~= before.to_set().insert(names[i as int]));
                    }
                    neighbors.insert(self.ids.id2p[list[i] as usize]);
                    i += 1;
                }
                assert(names.take(i as int) =~= names);
                res.insert(self.ids.id2p[key], neighbors);
            }
            proof {
                assert forall|p: PeerId| #[trigger] res@.contains_key(p) <==> self.ids.p2id@.contains_key(p)
                    && self.ids.p2id@[p] < key + 1 by {
                    if self.ids.p2id@.contains_key(p) && self.ids.p2id@[p] == key {
                        assert(self.ids.id2p@[self.ids.p2id@[p] as int] == p);
                    }
                    if self.ids.used@[key as int] {
                        assert(self.ids.p2id@[self.ids.id2p@[key as int]] == key);
                    }
                }
            }
            key += 1;
        }
        proof {
            assert forall|p: PeerId| #[trigger] res@.dom().contains(p)
                <==> self@.links.dom().contains(p) by {
                assert(res@.contains_key(p) <==> self.ids.p2id@.contains_key(p));
            }
            assert(res@.dom() =~= self@.links.dom());
        }
        res
    }

    /// How many peers are known.
    pub fn known_peers(&self) -> (count: u64)
        requires
            self.wf(),
        ensures
            count == self@.links.len(),
            count <= MAX_KNOWN_PEERS,
    {
        proof {
            self.lemma_ids_counted();
        }
        self.ids.p2id.len() as u64
    }

    /// How many ids were ever handed out.
    pub fn handed_out_ids(&self) -> (count: u64)
        requires
            self.wf(),
        ensures
            count == self.slots(),
            count <= MAX_KNOWN_PEERS,
    {
        self.ids.id2p.len() as u64
    }

    /// How many known peers have no route. `routes` is the table of routes.
    pub fn unreachable_nodes(&self, routes: &BTreeMap<PeerId, Vec<PeerId>>) -> (count: usize)
        requires
            self.wf(),
        ensures
            count == self@.unrouted(lists(routes@)).len(),
            self@.unrouted(lists(routes@)).finite(),
    {
        let mut count: usize = 0;
        let mut key: usize = 0;
        let ghost mut found: Set<PeerId> = Set::empty();
        while key < self.ids.id2p.len()
            invariant
                self.wf(),
                key <= self.slots() == self.ids.id2p@.len(),
                found.finite(),
                count == found.len(),
                count <= key,
                forall|p: PeerId| #[trigger]
                    found.contains(p) <==> self.ids.p2id@.contains_key(p) && self.ids.p2id@[p] < key && p
                        != self.source && !routes@.contains_key(p),
            decreases self.ids.id2p.len() - key,
        {
            let ghost before = found;
            if self.ids.used[key] && key != self.ids.source_id as usize && !routes.contains_key(
                &self.ids.id2p[key],
            ) {
                count += 1;
                proof {
                    found = found.insert(self.ids.id2p@[key as int]);
                }
            }
            proof {
                if self.ids.used@[key as int] {
                    assert(self.ids.p2id@[self.ids.id2p@[key as int]] == key);
                }
                assert(self.ids.used@[0]);
                assert forall|p: PeerId| #[trigger] found.contains(p) <==> self.ids.p2id@.contains_key(p)
                    && self.ids.p2id@[p] < key + 1 && p != self.source && !routes@.contains_key(p) by {
                    if self.ids.p2id@.contains_key(p) && self.ids.p2id@[p] == key {
                        assert(self.ids.id2p@[self.ids.p2id@[p] as int] == p);
                    }
                }
            }
            key += 1;
        }
        assert(found =~= self@.unrouted(lists(routes@)));
        count
    }

    /// How many connections are active.
    pub fn active_edges(&self) -> (count: u64)
        requires
            self.wf(),
        ensures
            count == self@.edges().len(),
            self@.edges().finite(),
    {
        self.ids.total_active_edges
    }
}

impl Clone for Graph {
    fn clone(&self) -> (res: Self)
        ensures
            res.slots() == self.slots(),
            self.wf() ==> res.wf() && res@ == self@,
    {
        let mut id2p: Vec<PeerId> = Vec::new();
        let mut i: usize = 0;
        while i < self.ids.id2p.len()
            invariant
                i <= self.ids.id2p@.len(),
                id2p@ == self.ids.id2p@.take(i as int),
            decreases self.ids.id2p.len() - i,
        {
            id2p.push(self.ids.id2p[i]);
            i += 1;
        }
        assert(id2p@ =~= self.ids.id2p@);
        let mut adjacency: Vec<Vec<u32>> = Vec::new();
        let mut j: usize = 0;
        while j < self.ids.adjacency.len()
            invariant
                j <= self.ids.adjacency@.len(),
                adjacency@.len() == j,
                forall|k: int| 0 <= k < j ==> (#[trigger] adjacency@[k])@ == self.ids.adjacency@[k]@,
            decreases self.ids.adjacency.len() - j,
        {
            adjacency.push(self.ids.adjacency[j].clone());
            j += 1;
        }
        let res = Graph {
            source: self.source,
            ids: IdTables {
                source_id: self.ids.source_id,
                p2id: self.ids.p2id.clone(),
                id2p,
                used: self.ids.used.clone(),
                unused: self.ids.unused.clone(),
                adjacency,
                total_active_edges: self.ids.total_active_edges,
            },
        };
        proof {
            assert(res.ids.used@ =~= self.ids.used@);
            assert(res.ids.unused@ =~= self.ids.unused@);
            assert forall|p: PeerId| #[trigger] self.ids.p2id@.contains_key(p) && (self.ids.p2id@[p] as int)
                < self.ids.adjacency@.len() implies names_of(
                res.ids.id2p@,
                res.ids.adjacency@[res.ids.p2id@[p] as int]@,
            ) == names_of(self.ids.id2p@, self.ids.adjacency@[self.ids.p2id@[p] as int]@) by {}
            if self.wf() {
                assert(res@.links =~= self@.links);
                assert(res.tables_ok());
                assert(res.lists_ok());
            }
        }
        res
    }
}

/// Names and ids are taken out of a list alike.
proof fn lemma_names_without(id2p: Seq<PeerId>, list: Seq<u32>, id: u32)
    requires
        forall|k: int|
            0 <= k < list.len() && id2p[(#[trigger] list[k]) as int] == id2p[id as int] ==> list[k]
                == id,
    ensures
        names_of(id2p, without(list, id)) == without(names_of(id2p, list), id2p[id as int]),
    decreases list.len(),
{
    if list.len() == 0 {
        assert(names_of(id2p, list) =~= Seq::empty());
    } else {
        let rest = list.drop_last();
        assert forall|k: int|
            0 <= k < rest.len() && id2p[(#[trigger] rest[k]) as int] == id2p[id as int] implies rest[k]
            == id by {
            assert(rest[k] == list[k]);
        }
        lemma_names_without(id2p, rest, id);
        assert(names_of(id2p, list).drop_last() =~= names_of(id2p, rest));
        assert(list[list.len() - 1] == list.last());
        if list.last() != id {
            assert(names_of(id2p, without(rest, id).push(list.last())) =~= names_of(
                id2p,
                without(rest, id),
            ).push(id2p[list.last() as int]));
        }
    }
}

/// Whether a list of ids holds `id`.
fn contains_id(list: &Vec<u32>, id: u32) -> (res: bool)
    ensures
        res == list@.contains(id),
{
    let mut i: usize = 0;
    while i < list.len()
        invariant
            i <= list.len(),
            forall|k: int| 0 <= k < i ==> list@[k] != id,
        decreases list.len() - i,
    {
        if list[i] == id {
            assert(list@[i as int] == id);
            return true;
        }
        i += 1;
    }
    false
}

/// The list without `id`, in the same order.
fn without_id(list: &Vec<u32>, id: u32) -> (res: Vec<u32>)
    ensures
        res@ == without(list@, id),
{
    let mut res: Vec<u32> = Vec::new();
    let mut i: usize = 0;
    while i < list.len()
        invariant
            i <= list.len(),
            res@ == without(list@.take(i as int), id),
        decreases list.len() - i,
    {
        assert(list@.take(i as int + 1).drop_last() =~= list@.take(i as int));
        if list[i] != id {
            res.push(list[i]);
        }
        i += 1;
    }
    assert(list@.take(list@.len() as int) =~= list@);
    res
}

} // verus!
