//! What the plain values that go in and out stand for.
use crate::graph::lists;
use crate::routing::{
    announcement_option, announcement_reply, EdgeStep, RoutingTable, StoredComponent,
};
use crate::state::BatchStep;
use crate::store::{StoreChange, StoreOp, StoreReply, StoreUpdate};
use crate::types::{AnnounceAccount, PeerId};
use vstd::prelude::*;

verus! {

/// An announcement is taken as it is written, field by field.
pub proof fn law_announcement_is_taken_as_written(announce: AnnounceAccount)
    ensures
        announce@.account_id == announce.account_id@,
        announce@.peer_id == announce.peer_id,
        announce@.epoch_id == announce.epoch_id,
        announce@.signature == announce.signature,
{
}

/// A change is what its operation says, with the same values.
pub proof fn law_operation_is_taken_as_written(op: StoreOp)
    ensures
        match op {
            StoreOp::SetLastComponentNonce(nonce) => op@ == StoreChange::SetLastComponentNonce(nonce),
            StoreOp::SetPeerComponent(peer, nonce) => op@ == StoreChange::SetPeerComponent(peer, nonce),
            StoreOp::DeletePeerComponent(peer) => op@ == StoreChange::DeletePeerComponent(peer),
            StoreOp::SetComponentEdges(nonce, edges) => op@ == StoreChange::SetComponentEdges(
                nonce,
                edges@,
            ),
            StoreOp::DeleteComponentEdges(nonce) => op@ == StoreChange::DeleteComponentEdges(nonce),
            StoreOp::SetAnnouncement(announce) => op@ == StoreChange::SetAnnouncement(announce@),
        },
{
}

/// An update is all of its operations, in their order.
pub proof fn law_update_is_all_its_operations(update: StoreUpdate, i: int)
    ensures
        update@.len() == update.ops@.len(),
        0 <= i < update.ops@.len() ==> update@[i] == update.ops@[i]@,
{
}

/// The replies of the store are taken as they come.
pub proof fn law_replies_are_taken_as_they_come(
    stored: StoredComponent,
    reply: StoreReply<AnnounceAccount>,
    answer: Option<AnnounceAccount>,
)
    ensures
        stored@.nonce == stored.nonce,
        stored@.endpoints == stored.endpoints@,
        match stored.edges {
            StoreReply::Found(edges) => stored@.edges == StoreReply::Found(edges@),
            StoreReply::Missing => stored@.edges is Missing,
            StoreReply::Failed => stored@.edges is Failed,
        },
        match reply {
            StoreReply::Found(announce) => announcement_reply(reply) == StoreReply::Found(announce@),
            StoreReply::Missing => announcement_reply(reply) is Missing,
            StoreReply::Failed => announcement_reply(reply) is Failed,
        },
        match answer {
            Some(announce) => announcement_option(answer) == Some(announce@),
            None => announcement_option(answer) is None,
        },
{
}

/// A step of a batch says which peer it asks for and what is left, or whether some edge was news.
pub proof fn law_step_is_taken_as_it_is(step: EdgeStep)
    ensures
        match step {
            EdgeStep::Touch(peer, rest) => step@ == BatchStep::Touch(peer, rest@),
            EdgeStep::Done(result) => step@ == BatchStep::Done(result.new_edge),
        },
{
}

/// A table of routes is taken list by list.
pub proof fn law_routes_are_taken_list_by_list(routes: Map<PeerId, Vec<PeerId>>, p: PeerId)
    ensures
        lists(routes).contains_key(p) <==> routes.contains_key(p),
        routes.contains_key(p) ==> lists(routes)[p] == routes[p]@,
{
}

/// The fields of a table are what is said of it.
pub proof fn law_fields_are_taken_as_they_are(table: RoutingTable, p: PeerId)
    ensures
        table@.edges == table.edges_info@,
        table@.times == table.peer_last_time_reachable@,
        table@.component_nonce == table.component_nonce,
        table@.route_back == table.route_back@,
        table@.forwarding.contains_key(p) <==> table.peer_forwarding@.contains_key(p),
        table.peer_forwarding@.contains_key(p) ==> table@.forwarding[p] == table.peer_forwarding@[p]@,
{
    table.lemma_fields();
}

} // verus!
