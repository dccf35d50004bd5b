//! The order of peers, and under which pair an edge is known.
use crate::state::TableState;
use crate::types::{key_before, Edge, PeerId};
use vstd::prelude::*;

verus! {

/// A key as the number that its bytes stand for, the first byte being the highest.
pub open spec fn number_of(key: (u128, u128)) -> int {
    key.0 * 0x1_0000_0000_0000_0000_0000_0000_0000_0000int + key.1
}

/// Keys are ordered like their bytes. Of two different keys exactly one comes first.
pub proof fn law_keys_are_ordered_by_their_bytes(a: (u128, u128), b: (u128, u128))
    ensures
        key_before(a, b) <==> number_of(a) < number_of(b),
        a == b <==> number_of(a) == number_of(b),
{
}

/// An edge that names the peer with the smaller bytes first is looked up under its own two peers,
/// whichever of them is asked for first.
pub proof fn law_edge_is_looked_up_under_its_own_peers(edge: Edge)
    requires
        number_of(edge.peer0) < number_of(edge.peer1),
    ensures
        edge.is_ordered(),
        Edge::spec_key(edge.peer0, edge.peer1) == (edge.peer0, edge.peer1),
        Edge::spec_key(edge.peer1, edge.peer0) == (edge.peer0, edge.peer1),
{
}

/// The pair under which two peers are looked up is made of these two peers, and does not depend on
/// which of them is asked for first.
pub proof fn law_lookup_does_not_depend_on_the_order(a: PeerId, b: PeerId)
    ensures
        Edge::spec_key(a, b) == Edge::spec_key(b, a),
        Edge::spec_key(a, b) == (a, b) || Edge::spec_key(a, b) == (b, a),
{
}

/// Every known edge is found, whichever of its peers is asked for first: the pair that is looked up
/// is the one that it is known under, and that is the pair of its own peers.
pub proof fn law_known_edge_is_found(table: TableState, a: PeerId, b: PeerId)
    requires
        table.truthful(),
        table.edges.contains_key((a, b)),
    ensures
        Edge::spec_key(a, b) == (a, b),
        Edge::spec_key(b, a) == (a, b),
        (table.edges[(a, b)].peer0, table.edges[(a, b)].peer1) == (a, b),
        number_of(a) < number_of(b),
        table.find_nonce((a, b)) == table.edges[(a, b)].nonce,
{
}

} // verus!
