//! Adding and removing links.
use crate::laws::keys::{law_keys_are_ordered_by_their_bytes, number_of};
use crate::sequences::{lemma_without_absent, without};
use crate::topology::{lemma_linked, lemma_unlinked, Topology};
use crate::types::PeerId;
use vstd::prelude::*;

verus! {

/// Links are mutual, and no peer is linked with itself.
pub proof fn law_links_are_mutual(g: Topology, a: PeerId, b: PeerId)
    requires
        g.valid(),
    ensures
        g.contains_edge(a, b) == g.contains_edge(b, a),
        !g.contains_edge(a, a),
{
}

/// An added link is there, in both directions, and every other link is as before.
pub proof fn law_added_link_is_there(g: Topology, a: PeerId, b: PeerId)
    requires
        g.valid(),
        a != b,
    ensures
        g.add_edge(a, b).valid(),
        forall|p: PeerId, q: PeerId| #[trigger]
            g.add_edge(a, b).contains_edge(p, q) <==> g.contains_edge(p, q) || (p == a && q == b) || (
            p == b && q == a),
{
    if !g.contains_edge(a, b) {
        lemma_linked(g, a, b);
    } else {
        assert(g.contains_edge(b, a));
    }
}

/// A removed link is gone, in both directions, and every other link is as before.
pub proof fn law_removed_link_is_gone(g: Topology, a: PeerId, b: PeerId)
    requires
        g.valid(),
    ensures
        g.remove_edge(a, b).valid(),
        forall|p: PeerId, q: PeerId| #[trigger]
            g.remove_edge(a, b).contains_edge(p, q) <==> g.contains_edge(p, q) && !(p == a && q == b)
                && !(p == b && q == a),
{
    if g.contains_edge(a, b) {
        lemma_unlinked(g, a, b);
    } else {
        assert(!g.contains_edge(b, a));
    }
}

/// It does not matter which end of a link is named first.
pub proof fn law_ends_are_alike(g: Topology, a: PeerId, b: PeerId)
    requires
        g.valid(),
        a != b,
    ensures
        g.add_edge(a, b) == g.add_edge(b, a),
        g.remove_edge(a, b) == g.remove_edge(b, a),
{
    assert(g.contains_edge(a, b) == g.contains_edge(b, a));
    assert(g.linked(a, b).links =~= g.linked(b, a).links);
    let x = g.with_neighbors(a, without(g.neighbors(a), b)).with_neighbors(
        b,
        without(g.neighbors(b), a),
    );
    let y = g.with_neighbors(b, without(g.neighbors(b), a)).with_neighbors(
        a,
        without(g.neighbors(a), b),
    );
    assert(x =~= y);
    assert(x.pruned(a).pruned(b) =~= x.pruned(b).pruned(a));
}

/// Adding a link twice, or removing it twice, is the same as doing it once.
pub proof fn law_repetition_changes_nothing(g: Topology, a: PeerId, b: PeerId)
    requires
        g.valid(),
        a != b,
    ensures
        g.add_edge(a, b).add_edge(a, b) == g.add_edge(a, b),
        g.remove_edge(a, b).remove_edge(a, b) == g.remove_edge(a, b),
{
    law_added_link_is_there(g, a, b);
    law_removed_link_is_gone(g, a, b);
    assert(g.add_edge(a, b).contains_edge(a, b));
    assert(!g.remove_edge(a, b).contains_edge(a, b));
}

/// Removing a link that was just added gives the network back, down to the order of neighbors.
pub proof fn law_remove_undoes_add(g: Topology, a: PeerId, b: PeerId)
    requires
        g.valid(),
        a != b,
        !g.contains_edge(a, b),
    ensures
        g.add_edge(a, b).remove_edge(a, b) == g,
{
    let h = g.add_edge(a, b);
    law_added_link_is_there(g, a, b);
    assert(h.contains_edge(a, b));
    assert(!g.contains_edge(b, a));
    let na = g.neighbors(a);
    let nb = g.neighbors(b);
    assert(h.neighbors(a) == na.push(b));
    assert(h.neighbors(b) == nb.push(a));
    lemma_without_absent(na, b);
    lemma_without_absent(nb, a);
    assert(na.push(b).drop_last() =~= na);
    assert(nb.push(a).drop_last() =~= nb);
    let back = h.unlinked(a, b);
    assert forall|p: PeerId| #[trigger] back.links.contains_key(p) <==> g.links.contains_key(p) by {
        assert(g.links.contains_key(p) && p != g.source ==> g.links[p].len() > 0);
    }
    assert forall|p: PeerId| #[trigger] g.links.contains_key(p) implies back.links[p]
        == g.links[p] by {}
    assert(back.links =~= g.links);
}

/// Adding a link that was just removed gives every link back.
pub proof fn law_add_undoes_remove(g: Topology, a: PeerId, b: PeerId)
    requires
        g.valid(),
        g.contains_edge(a, b),
    ensures
        forall|p: PeerId, q: PeerId| #[trigger]
            g.remove_edge(a, b).add_edge(a, b).contains_edge(p, q) <==> g.contains_edge(p, q),
        g.remove_edge(a, b).add_edge(a, b).edges() == g.edges(),
{
    law_removed_link_is_gone(g, a, b);
    law_added_link_is_there(g.remove_edge(a, b), a, b);
    let h = g.remove_edge(a, b).add_edge(a, b);
    assert forall|p: PeerId, q: PeerId| #[trigger] h.contains_edge(p, q) <==> g.contains_edge(p, q) by {
        assert(g.remove_edge(a, b).contains_edge(p, q) <==> g.contains_edge(p, q) && !(p == a && q
            == b) && !(p == b && q == a));
        assert(g.contains_edge(b, a));
    }
    assert(h.edges() =~= g.edges());
}

/// A call that adds or removes the link between two peers.
pub struct LinkCall {
    pub adds: bool,
    pub a: PeerId,
    pub b: PeerId,
}

impl LinkCall {
    /// The call is about the link between `x` and `y`.
    pub open spec fn names(self, x: PeerId, y: PeerId) -> bool {
        (self.a == x && self.b == y) || (self.a == y && self.b == x)
    }
}

/// The network after some calls, the source alone at first.
pub open spec fn after_calls(source: PeerId, calls: Seq<LinkCall>) -> Topology
    decreases calls.len(),
{
    if calls.len() == 0 {
        Topology::alone(source)
    } else {
        let before = after_calls(source, calls.drop_last());
        let call = calls.last();
        if call.adds {
            before.add_edge(call.a, call.b)
        } else {
            before.remove_edge(call.a, call.b)
        }
    }
}

/// The last of the calls about the link between `x` and `y` is at `i`, and it adds the link.
pub open spec fn added_last(calls: Seq<LinkCall>, x: PeerId, y: PeerId, i: int) -> bool {
    &&& 0 <= i < calls.len()
    &&& calls[i].names(x, y)
    &&& calls[i].adds
    &&& forall|j: int| i < j < calls.len() ==> !(#[trigger] calls[j]).names(x, y)
}

/// After any calls two peers are linked exactly if the last call about their link added it.
pub proof fn law_last_call_counts(source: PeerId, calls: Seq<LinkCall>, x: PeerId, y: PeerId)
    requires
        forall|i: int| 0 <= i < calls.len() ==> (#[trigger] calls[i]).a != calls[i].b,
    ensures
        after_calls(source, calls).valid(),
        after_calls(source, calls).contains_edge(x, y) <==> exists|i: int| #[trigger]
            added_last(calls, x, y, i),
    decreases calls.len(),
{
    if calls.len() == 0 {
        let g = Topology::alone(source);
        assert forall|p: PeerId, q: PeerId| !#[trigger] g.contains_edge(p, q) by {}
    } else {
        let fewer = calls.drop_last();
        let n = calls.len() - 1;
        assert forall|i: int| 0 <= i < fewer.len() implies (#[trigger] fewer[i]).a != fewer[i].b by {
            assert(fewer[i] == calls[i]);
        }
        law_last_call_counts(source, fewer, x, y);
        let before = after_calls(source, fewer);
        let call = calls[n];
        law_added_link_is_there(before, call.a, call.b);
        law_removed_link_is_gone(before, call.a, call.b);
        if call.names(x, y) {
            if call.adds {
                assert(added_last(calls, x, y, n));
            }
            assert forall|i: int| added_last(calls, x, y, i) implies i == n by {
                assert(i < n ==> !calls[n].names(x, y));
            }
        } else {
            assert forall|i: int| #[trigger] added_last(calls, x, y, i) implies added_last(
                fewer,
                x,
                y,
                i,
            ) by {
                assert(i != n);
                assert(fewer[i] == calls[i]);
                assert forall|j: int| i < j < fewer.len() implies !(#[trigger] fewer[j]).names(
                    x,
                    y,
                ) by {
                    assert(fewer[j] == calls[j]);
                }
            }
            assert forall|i: int| #[trigger] added_last(fewer, x, y, i) implies added_last(
                calls,
                x,
                y,
                i,
            ) by {
                assert(fewer[i] == calls[i]);
                assert forall|j: int| i < j < calls.len() implies !(#[trigger] calls[j]).names(
                    x,
                    y,
                ) by {
                    if j < n {
                        assert(fewer[j] == calls[j]);
                    }
                }
            }
        }
    }
}

/// Two peers are linked if one lists the other. Each link is counted once, as the pair that starts with
/// the smaller peer.
pub proof fn law_links_are_listed(g: Topology, a: PeerId, b: PeerId)
    ensures
        g.contains_edge(a, b) <==> g.links.contains_key(a) && g.links[a].contains(b),
        g.edges().contains((a, b)) <==> number_of(a) < number_of(b) && g.links.contains_key(a)
            && g.links[a].contains(b),
{
    law_keys_are_ordered_by_their_bytes(a, b);
}

/// A new network is the source alone, without links.
pub proof fn law_source_starts_alone(source: PeerId)
    ensures
        Topology::alone(source).source == source,
        forall|p: PeerId| #[trigger]
            Topology::alone(source).links.contains_key(p) <==> p == source,
        Topology::alone(source).links[source].len() == 0,
{
}

/// A peer is known from its first link on until its last link is gone, and the source always is. A new
/// link comes last in the lists of its two peers, and no call touches the lists of other peers.
pub proof fn law_peers_come_and_go(g: Topology, a: PeerId, b: PeerId)
    requires
        g.valid(),
        a != b,
    ensures
        ({
            let more = g.add_edge(a, b);
            let less = g.remove_edge(a, b);
            &&& more.source == g.source && less.source == g.source
            &&& forall|p: PeerId| #[trigger]
                more.links.contains_key(p) <==> g.links.contains_key(p) || p == a || p == b
            &&& forall|p: PeerId| #[trigger]
                less.links.contains_key(p) <==> p == g.source || exists|q: PeerId| #[trigger]
                    g.contains_edge(p, q) && !(p == a && q == b) && !(p == b && q == a)
            &&& forall|p: PeerId|
                p != a && p != b && #[trigger] g.links.contains_key(p) ==> more.links[p] == g.links[p]
                    && less.links[p] == g.links[p]
            &&& !g.contains_edge(a, b) ==> {
                &&& more.links[a].last() == b && more.links[a].drop_last() == (
                if g.links.contains_key(a) {
                    g.links[a]
                } else {
                    Seq::empty()
                })
                &&& more.links[b].last() == a && more.links[b].drop_last() == (
                if g.links.contains_key(b) {
                    g.links[b]
                } else {
                    Seq::empty()
                })
            }
        }),
{
    let more = g.add_edge(a, b);
    let less = g.remove_edge(a, b);
    law_removed_link_is_gone(g, a, b);
    if g.contains_edge(a, b) {
        assert(g.contains_edge(b, a));
    } else {
        assert(more.links[a] =~= g.neighbors(a).push(b));
        assert(more.links[b] =~= g.neighbors(b).push(a));
        assert(g.neighbors(a).push(b).drop_last() =~= g.neighbors(a));
        assert(g.neighbors(b).push(a).drop_last() =~= g.neighbors(b));
    }
    assert forall|p: PeerId| #[trigger] less.links.contains_key(p) <==> p == g.source || exists|
        q: PeerId,
    | #[trigger]
        g.contains_edge(p, q) && !(p == a && q == b) && !(p == b && q == a) by {
        if less.links.contains_key(p) && p != g.source {
            assert(less.links[p].len() > 0);
            let q = less.links[p][0];
            assert(less.contains_edge(p, q));
            assert(g.contains_edge(p, q));
        }
        if exists|q: PeerId| #[trigger]
            g.contains_edge(p, q) && !(p == a && q == b) && !(p == b && q == a) {
            let q = choose|q: PeerId| #[trigger]
                g.contains_edge(p, q) && !(p == a && q == b) && !(p == b && q == a);
            assert(less.contains_edge(p, q));
        }
    }
}

proof fn lemma_without_one(s: Seq<PeerId>, i: int)
    requires
        s.no_duplicates(),
        0 <= i < s.len(),
    ensures
        without(s, s[i]) == s.remove(i),
    decreases s.len(),
{
    let rest = s.drop_last();
    let last = s.len() - 1;
    if i == last {
        assert(!rest.contains(s[i])) by {
            if rest.contains(s[i]) {
                let k = choose|k: int| 0 <= k < rest.len() && rest[k] == s[i];
                assert(s[k] == s[i]);
            }
        }
        lemma_without_absent(rest, s[i]);
        assert(s.remove(i) =~= rest);
    } else {
        assert(rest[i] == s[i]);
        lemma_without_one(rest, i);
        assert(s.remove(i) =~= rest.remove(i).push(s[last]));
    }
}

/// When a link is removed, the other neighbors of its two peers keep their order. Here `b` is at `i`
/// of the neighbors of `a`, and `a` at `j` of those of `b`.
pub proof fn law_neighbors_keep_their_order(g: Topology, a: PeerId, b: PeerId, i: int, j: int)
    requires
        g.valid(),
        g.links.contains_key(a),
        0 <= i < g.links[a].len(),
        g.links[a][i] == b,
        g.links.contains_key(b),
        0 <= j < g.links[b].len(),
        g.links[b][j] == a,
    ensures
        ({
            let less = g.remove_edge(a, b);
            &&& less.links.contains_key(a) ==> less.links[a] == g.links[a].remove(i)
            &&& less.links.contains_key(b) ==> less.links[b] == g.links[b].remove(j)
        }),
{
    assert(g.contains_edge(a, b));
    lemma_without_one(g.links[a], i);
    lemma_without_one(g.links[b], j);
}

} // verus!
