//! What the routing table asks of the store on disk, and what it wants written.
use crate::types::{AnnounceAccount, Announcement, Edge, PeerId};
use vstd::prelude::*;

verus! {

/// The answer of the store to a read.
#[derive(Debug, PartialEq, Eq)]
pub enum StoreReply<T> {
    Found(T),
    Missing,
    /// The store could not be read, or what it held could not be understood.
    Failed,
}

/// One change of the store.
#[derive(Debug, PartialEq, Eq)]
pub enum StoreOp {
    /// The last nonce under which a component was stored.
    SetLastComponentNonce(u64),
    /// The component that a peer was stored in.
    SetPeerComponent(PeerId, u64),
    DeletePeerComponent(PeerId),
    /// The edges of a component.
    SetComponentEdges(u64, Vec<Edge>),
    DeleteComponentEdges(u64),
    /// The announcement of an account.
    SetAnnouncement(AnnounceAccount),
}

/// What a [`StoreOp`] does.
#[verifier::ext_equal]
pub enum StoreChange {
    SetLastComponentNonce(u64),
    SetPeerComponent(PeerId, u64),
    DeletePeerComponent(PeerId),
    SetComponentEdges(u64, Seq<Edge>),
    DeleteComponentEdges(u64),
    SetAnnouncement(Announcement),
}

impl View for StoreOp {
    type V = StoreChange;

    open spec fn view(&self) -> StoreChange {
        match *self {
            StoreOp::SetLastComponentNonce(nonce) => StoreChange::SetLastComponentNonce(nonce),
            StoreOp::SetPeerComponent(peer, nonce) => StoreChange::SetPeerComponent(peer, nonce),
            StoreOp::DeletePeerComponent(peer) => StoreChange::DeletePeerComponent(peer),
            StoreOp::SetComponentEdges(nonce, edges) => StoreChange::SetComponentEdges(
                nonce,
                edges@,
            ),
            StoreOp::DeleteComponentEdges(nonce) => StoreChange::DeleteComponentEdges(nonce),
            StoreOp::SetAnnouncement(announce) => StoreChange::SetAnnouncement(announce@),
        }
    }
}

/// Changes that are to be committed together, in this order.
#[derive(Debug, PartialEq, Eq)]
pub struct StoreUpdate {
    pub ops: Vec<StoreOp>,
}

impl View for StoreUpdate {
    type V = Seq<StoreChange>;

    open spec fn view(&self) -> Seq<StoreChange> {
        Seq::new(self.ops@.len(), |i: int| self.ops@[i]@)
    }
}

impl StoreUpdate {
    pub fn new() -> (res: Self)
        ensures
            res@ == Seq::<StoreChange>::empty(),
    {
        let res = StoreUpdate { ops: Vec::new() };
        assert(res@ =~= Seq::empty());
        res
    }

    /// Adds a change after the others.
    pub fn push(&mut self, op: StoreOp)
        ensures
            final(self)@ == old(self)@.push(op@),
    {
        let ghost before = self@;
        self.ops.push(op);
        assert(self@ =~= before.push(op@));
    }
}

/// The columns of the store that belong to the routing table.
#[verifier::ext_equal]
pub struct Disk {
    pub last_component_nonce: Option<u64>,
    pub peer_component: Map<PeerId, u64>,
    pub component_edges: Map<u64, Seq<Edge>>,
    pub announcements: Map<Seq<char>, Announcement>,
}

impl Disk {
    /// A store that nothing was written to.
    pub open spec fn blank() -> Disk {
        Disk {
            last_component_nonce: None,
            peer_component: Map::empty(),
            component_edges: Map::empty(),
            announcements: Map::empty(),
        }
    }

    /// The nonce that a table takes up when it is made from the store.
    pub open spec fn next_component_nonce(self) -> u64 {
        match self.last_component_nonce {
            Some(nonce) => (nonce + 1) as u64,
            None => 0,
        }
    }

    /// The store after one change.
    pub open spec fn changed(self, change: StoreChange) -> Disk {
        match change {
            StoreChange::SetLastComponentNonce(nonce) => Disk {
                last_component_nonce: Some(nonce),
                ..self
            },
            StoreChange::SetPeerComponent(peer, nonce) => Disk {
                peer_component: self.peer_component.insert(peer, nonce),
                ..self
            },
            StoreChange::DeletePeerComponent(peer) => Disk {
                peer_component: self.peer_component.remove(peer),
                ..self
            },
            StoreChange::SetComponentEdges(nonce, edges) => Disk {
                component_edges: self.component_edges.insert(nonce, edges),
                ..self
            },
            StoreChange::DeleteComponentEdges(nonce) => Disk {
                component_edges: self.component_edges.remove(nonce),
                ..self
            },
            StoreChange::SetAnnouncement(announce) => Disk {
                announcements: self.announcements.insert(announce.account_id, announce),
                ..self
            },
        }
    }

    /// The store after an update was committed.
    pub open spec fn updated(self, changes: Seq<StoreChange>) -> Disk
        decreases changes.len(),
    {
        if changes.len() == 0 {
            self
        } else {
            self.updated(changes.drop_last()).changed(changes.last())
        }
    }

    /// Each announcement is stored under its own account.
    pub open spec fn files_by_account(self) -> bool {
        forall|account_id: Seq<char>| #[trigger]
            self.announcements.contains_key(account_id) ==> self.announcements[account_id].account_id
                == account_id
    }

    /// What a working store replies when asked for the component of a peer.
    pub open spec fn peer_component_reply(self, peer: PeerId) -> StoreReply<u64> {
        if self.peer_component.contains_key(peer) {
            StoreReply::Found(self.peer_component[peer])
        } else {
            StoreReply::Missing
        }
    }

    /// What a working store replies when asked for the edges of a component.
    pub open spec fn component_edges_reply(self, nonce: u64) -> StoreReply<Seq<Edge>> {
        if self.component_edges.contains_key(nonce) {
            StoreReply::Found(self.component_edges[nonce])
        } else {
            StoreReply::Missing
        }
    }

    /// What a working store replies when asked for the announcement of an account.
    pub open spec fn announcement_reply(self, account_id: Seq<char>) -> StoreReply<Announcement> {
        if self.announcements.contains_key(account_id) {
            StoreReply::Found(self.announcements[account_id])
        } else {
            StoreReply::Missing
        }
    }
}

} // verus!
