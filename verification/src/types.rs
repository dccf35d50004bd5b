//! Plain data that the routing table works on.
use std::collections::BTreeMap;
use vstd::prelude::*;

verus! {

/// A peer's public key: its 32 bytes read as two big-endian halves, so that the order of two
/// identities is the order of their bytes.
pub type PeerId = (u128, u128);

/// A 32-byte hash, split like a [`PeerId`].
pub type CryptoHash = (u128, u128);

/// The hash that names an epoch.
pub type EpochId = CryptoHash;

/// The human-readable name of an account.
pub type AccountId = String;

/// A detached signature. The routing table carries signatures and never looks inside.
pub type Signature = [u8; 64];

/// A point on the wall clock, in nanoseconds since the Unix epoch.
pub type Time = i64;

/// `a` comes before `b` in the order of identities.
pub open spec fn key_before(a: (u128, u128), b: (u128, u128)) -> bool {
    a.0 < b.0 || (a.0 == b.0 && a.1 < b.1)
}

/// Whether two identities are the same.
pub fn same_key(a: &(u128, u128), b: &(u128, u128)) -> (same: bool)
    ensures
        same == (*a == *b),
{
    a.0 == b.0 && a.1 == b.1
}

/// Whether the first identity comes before the second.
pub fn key_less(a: &(u128, u128), b: &(u128, u128)) -> (less: bool)
    ensures
        less == key_before(*a, *b),
{
    a.0 < b.0 || (a.0 == b.0 && a.1 < b.1)
}

/// Whether a connection was set up or given up.
#[derive(Clone, Copy, Debug, PartialEq, Eq)]
pub enum EdgeType {
    Added,
    Removed,
}

/// What two peers last agreed on about the connection between them.
#[derive(Clone, Copy, Debug, PartialEq, Eq)]
pub struct Edge {
    pub peer0: PeerId,
    pub peer1: PeerId,
    /// Grows with every change. Odd while the connection is up.
    pub nonce: u64,
    pub signature0: Signature,
    pub signature1: Signature,
    /// Who gave the connection up, and the signature on it.
    pub removal_info: Option<(bool, Signature)>,
}

impl Edge {
    /// The peers of the edge as it names them.
    pub open spec fn pair(self) -> (PeerId, PeerId) {
        (self.peer0, self.peer1)
    }

    /// The edge joins two peers, or has never changed and says nothing.
    pub open spec fn is_sound(self) -> bool {
        self.peer0 != self.peer1 || self.nonce == 0
    }

    /// The edge names the smaller peer first.
    pub open spec fn is_ordered(self) -> bool {
        key_before(self.peer0, self.peer1)
    }

    /// The edge reports a connection that is up.
    pub open spec fn is_added(self) -> bool {
        self.nonce % 2 == 1
    }

    /// The pair under which the edge between two peers is known: the smaller peer comes first.
    pub open spec fn spec_key(peer0: PeerId, peer1: PeerId) -> (PeerId, PeerId) {
        if key_before(peer0, peer1) {
            (peer0, peer1)
        } else {
            (peer1, peer0)
        }
    }

    pub fn key(peer0: PeerId, peer1: PeerId) -> (key: (PeerId, PeerId))
        ensures
            key == Edge::spec_key(peer0, peer1),
            key == (peer0, peer1) || key == (peer1, peer0),
    {
        if key_less(&peer0, &peer1) {
            (peer0, peer1)
        } else {
            (peer1, peer0)
        }
    }

    pub fn edge_type(&self) -> (res: EdgeType)
        ensures
            res == (if self.is_added() {
                EdgeType::Added
            } else {
                EdgeType::Removed
            }),
            res is Added <==> self.nonce % 2 == 1,
    {
        if self.nonce % 2 == 1 {
            EdgeType::Added
        } else {
            EdgeType::Removed
        }
    }
}

/// A peer's claim to own an account in an epoch.
#[derive(Debug, PartialEq, Eq)]
pub struct AnnounceAccount {
    pub account_id: AccountId,
    pub peer_id: PeerId,
    pub epoch_id: EpochId,
    pub signature: Signature,
}

/// What an [`AnnounceAccount`] says.
#[verifier::ext_equal]
pub struct Announcement {
    pub account_id: Seq<char>,
    pub peer_id: PeerId,
    pub epoch_id: EpochId,
    pub signature: Signature,
}

impl View for AnnounceAccount {
    type V = Announcement;

    open spec fn view(&self) -> Announcement {
        Announcement {
            account_id: self.account_id@,
            peer_id: self.peer_id,
            epoch_id: self.epoch_id,
            signature: self.signature,
        }
    }
}

impl Clone for AnnounceAccount {
    fn clone(&self) -> (res: Self)
        ensures
            res@ == self@,
    {
        AnnounceAccount {
            account_id: self.account_id.clone(),
            peer_id: self.peer_id,
            epoch_id: self.epoch_id,
            signature: self.signature,
        }
    }
}

/// A question whether a peer can be reached.
#[derive(Clone, Copy, Debug, PartialEq, Eq)]
pub struct Ping {
    pub nonce: u64,
    pub source: PeerId,
}

/// The answer to a [`Ping`].
#[derive(Clone, Copy, Debug, PartialEq, Eq)]
pub struct Pong {
    pub nonce: u64,
    pub source: PeerId,
}

/// Where a message goes: to a peer, or back to where the message with a hash came from.
#[derive(Clone, Copy, Debug, PartialEq, Eq)]
pub enum PeerIdOrHash {
    PeerId(PeerId),
    Hash(CryptoHash),
}

/// Why no route was found.
#[derive(Clone, Copy, Debug, PartialEq, Eq)]
pub enum FindRouteError {
    Disconnected,
    PeerNotFound,
    AccountNotFound,
    RouteBackNotFound,
}

/// What a routing table shows of itself.
#[derive(Debug)]
pub struct RoutingTableInfo {
    /// The peer that owns each account, the most recently used account first.
    pub account_peers: Vec<(AccountId, PeerId)>,
    /// The neighbors on a shortest way to each peer that can be reached.
    pub peer_forwarding: BTreeMap<PeerId, Vec<PeerId>>,
}

/// What came of a batch of edges.
#[derive(Clone, Copy, Debug, PartialEq, Eq)]
pub struct ProcessEdgeResult {
    /// Some edge held information that was new.
    pub new_edge: bool,
}

} // verus!
