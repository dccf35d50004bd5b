//! Where messages that wait for an answer came from.
use crate::tables::keys_of;
use crate::types::{key_before, key_less, same_key, CryptoHash, PeerId};
use std::collections::BTreeMap;
use vstd::prelude::*;

verus! {

broadcast use {vstd::laws_cmp::group_laws_cmp, vstd::std_specs::btree::group_btree_axioms};

/// What a [`RouteBackCache`] holds.
#[verifier::ext_equal]
pub struct RouteBacks {
    pub capacity: u64,
    pub evict_timeout: u64,
    pub remove_batch: u64,
    /// For each message hash, when it was seen and which peer it came from.
    pub records: Map<CryptoHash, (u64, PeerId)>,
}

/// The hashes of the messages that came from `peer`.
pub open spec fn records_of(records: Map<CryptoHash, (u64, PeerId)>, peer: PeerId) -> Set<CryptoHash> {
    records.dom().filter(|hash: CryptoHash| records[hash].1 == peer)
}

/// The record of `a` is older than that of `b`. Of two that are as old the smaller hash counts as
/// older.
pub open spec fn older(records: Map<CryptoHash, (u64, PeerId)>, a: CryptoHash, b: CryptoHash) -> bool {
    records[a].0 < records[b].0 || (records[a].0 == records[b].0 && key_before(a, b))
}

/// `hash` is the oldest record of `peer`.
pub open spec fn is_oldest(
    records: Map<CryptoHash, (u64, PeerId)>,
    peer: PeerId,
    hash: CryptoHash,
) -> bool {
    &&& records_of(records, peer).contains(hash)
    &&& forall|other: CryptoHash| #[trigger]
        records_of(records, peer).contains(other) && other != hash ==> older(records, hash, other)
}

/// The records without the `count` oldest of `peer`, or without all of them if they are fewer.
pub open spec fn without_oldest(
    records: Map<CryptoHash, (u64, PeerId)>,
    peer: PeerId,
    count: nat,
) -> Map<CryptoHash, (u64, PeerId)>
    decreases count,
{
    if count == 0 || records_of(records, peer).len() == 0 {
        records
    } else {
        let hash = choose|hash: CryptoHash| is_oldest(records, peer, hash);
        without_oldest(records.remove(hash), peer, (count - 1) as nat)
    }
}

/// `peer` has more records than any other. Of two with as many the smaller one counts.
pub open spec fn is_most_frequent(records: Map<CryptoHash, (u64, PeerId)>, peer: PeerId) -> bool {
    forall|other: PeerId|
        other != peer ==> {
            let n = (#[trigger] records_of(records, other)).len();
            ||| n < records_of(records, peer).len()
            ||| n == records_of(records, peer).len() && key_before(peer, other)
        }
}

impl RouteBacks {
    pub open spec fn is_full(self) -> bool {
        self.records.len() == self.capacity
    }

    /// The earliest time of a record that is kept at `now`.
    pub open spec fn keep_from(self, now: u64) -> int {
        if now >= self.evict_timeout {
            now - self.evict_timeout
        } else {
            0
        }
    }

    /// A full cache loses the records that are too old.
    pub open spec fn without_expired(self, now: u64) -> RouteBacks {
        if self.is_full() {
            RouteBacks {
                records: self.records.restrict(
                    self.records.dom().filter(
                        |hash: CryptoHash| self.records[hash].0 >= self.keep_from(now),
                    ),
                ),
                ..self
            }
        } else {
            self
        }
    }

    /// A full cache loses the oldest records of the peer that has the most.
    pub open spec fn without_frequent(self) -> RouteBacks {
        if self.is_full() {
            let peer = choose|peer: PeerId| is_most_frequent(self.records, peer);
            RouteBacks {
                records: without_oldest(self.records, peer, self.remove_batch as nat),
                ..self
            }
        } else {
            self
        }
    }

    /// After a message was seen. One that is known stays as it is.
    pub open spec fn inserted(self, hash: CryptoHash, target: PeerId, now: u64) -> RouteBacks {
        if self.records.contains_key(hash) {
            self
        } else {
            let roomy = self.without_expired(now).without_frequent();
            RouteBacks { records: roomy.records.insert(hash, (now, target)), ..roomy }
        }
    }

    /// After the record of a message was taken.
    pub open spec fn removed(self, hash: CryptoHash, now: u64) -> RouteBacks {
        let kept = self.without_expired(now);
        RouteBacks { records: kept.records.remove(hash), ..kept }
    }

    /// The peer that a message came from.
    pub open spec fn target(self, hash: CryptoHash) -> Option<PeerId> {
        if self.records.contains_key(hash) {
            Some(self.records[hash].1)
        } else {
            None
        }
    }

    pub open spec fn valid(self) -> bool {
        &&& self.records.dom().finite()
        &&& self.records.len() <= self.capacity
        &&& self.capacity > 0
        &&& self.remove_batch > 0
    }
}

/// Remembers which peer a message came from, so that the answer can go back there.
///
/// Records stay until the cache is full. Then those that are older than a timeout go, and if none
/// is, the oldest ones of the peer that sent the most.
pub struct RouteBackCache {
    capacity: u64,
    evict_timeout: u64,
    remove_batch: u64,
    main: BTreeMap<CryptoHash, (u64, PeerId)>,
}

impl View for RouteBackCache {
    type V = RouteBacks;

    closed spec fn view(&self) -> RouteBacks {
        RouteBacks {
            capacity: self.capacity,
            evict_timeout: self.evict_timeout,
            remove_batch: self.remove_batch,
            records: self.main@,
        }
    }
}

impl RouteBackCache {
    /// A cache for `capacity` records. Times are in milliseconds.
    pub fn new(capacity: u64, evict_timeout: u64, remove_batch: u64) -> (res: Self)
        requires
            capacity > 0,
            remove_batch > 0,
        ensures
            res@ == (RouteBacks {
                capacity,
                evict_timeout,
                remove_batch,
                records: Map::empty(),
            }),
            res@.valid(),
    {
        RouteBackCache { capacity, evict_timeout, remove_batch, main: BTreeMap::new() }
    }

    fn is_full(&self) -> (res: bool)
        requires
            self@.valid(),
        ensures
            res == self@.is_full(),
    {
        self.main.len() as u64 == self.capacity
    }

    /// The peer that a message came from.
    pub fn get(&self, hash: &CryptoHash) -> (res: Option<&PeerId>)
        ensures
            match res {
                Some(peer) => self@.target(*hash) == Some(*peer),
                None => self@.target(*hash) is None,
            },
            match res {
                Some(peer) => self@.records.contains_key(*hash) && self@.records[*hash].1 == *peer,
                None => !self@.records.contains_key(*hash),
            },
    {
        match self.main.get(hash) {
            Some(record) => Some(&record.1),
            None => None,
        }
    }

    /// Takes the record of a message out.
    pub fn remove(&mut self, hash: &CryptoHash, now: u64) -> (res: Option<PeerId>)
        requires
            old(self)@.valid(),
        ensures
            final(self)@ == old(self)@.removed(*hash, now),
            final(self)@.valid(),
            res == old(self)@.without_expired(now).target(*hash),
    {
        self.remove_evicted(now);
        match self.main.remove(hash) {
            Some(record) => Some(record.1),
            None => None,
        }
    }

    /// Remembers that a message came from `target`.
    pub fn insert(&mut self, hash: CryptoHash, target: PeerId, now: u64)
        requires
            old(self)@.valid(),
        ensures
            final(self)@ == old(self)@.inserted(hash, target, now),
            final(self)@.valid(),
    {
        if self.main.contains_key(&hash) {
            return ;
        }
        self.remove_evicted(now);
        self.remove_frequent();
        self.main.insert(hash, (now, target));
    }

    /// Makes room by time: a full cache loses what is too old.
    fn remove_evicted(&mut self, now: u64)
        requires
            old(self)@.valid(),
        ensures
            final(self)@ == old(self)@.without_expired(now),
            final(self)@.valid(),
            final(self)@.records.submap_of(old(self)@.records),
    {
        if !self.is_full() {
            return ;
        }
        let keep_from: u64 = now.saturating_sub(self.evict_timeout);
        let keys = keys_of(&self.main);
        let ghost before = *self;
        let mut i: usize = 0;
        while i < keys.len()
            invariant
                i <= keys@.len(),
                keys@.no_duplicates(),
                keys@.to_set() == before.main@.dom(),
                keep_from == before@.keep_from(now),
                self.capacity == before.capacity,
                self.evict_timeout == before.evict_timeout,
                self.remove_batch == before.remove_batch,
                before@.valid(),
                self.main@.submap_of(before.main@),
                self.main@.dom().finite(),
                forall|k: int|
                    0 <= k < i ==> (self.main@.contains_key(#[trigger] keys@[k]) <==> before.main@[
                    keys@[k]].0 >= keep_from),
                forall|k: int| i <= k < keys@.len() ==> self.main@.contains_key(#[trigger] keys@[k]),
            decreases keys.len() - i,
        {
            let hash: CryptoHash = keys[i];
            assert(self.main@.contains_key(keys@[i as int]));
            assert(keys@.to_set().contains(hash));
            assert(before.main@.dom().contains(hash) && self.main@[hash] == before.main@[hash]);
            let time: u64 = self.main.get(&hash).unwrap().0;
            if time < keep_from {
                self.main.remove(&hash);
            }
            i += 1;
        }
        proof {
            let kept = before@.without_expired(now).records;
            assert forall|h: CryptoHash| #[trigger] self.main@.contains_key(h) <==> kept.contains_key(
                h,
            ) by {
                if before.main@.contains_key(h) {
                    assert(keys@.to_set().contains(h));
                    let k = choose|k: int| 0 <= k < keys@.len() && keys@[k] == h;
                    assert(self.main@.contains_key(keys@[k]) <==> before.main@[keys@[k]].0
                        >= keep_from);
                }
            }
            assert(self.main@ =~= kept);
            vstd::set_lib::lemma_len_subset(self.main@.dom(), before.main@.dom());
        }
    }

    /// Makes room by peer: a full cache loses the oldest records of the peer that has the most.
    fn remove_frequent(&mut self)
        requires
            old(self)@.valid(),
        ensures
            final(self)@ == old(self)@.without_frequent(),
            final(self)@.valid(),
            final(self)@.records.len() < final(self)@.capacity,
            final(self)@.records.submap_of(old(self)@.records),
    {
        if !self.is_full() {
            return ;
        }
        let target = self.most_frequent();
        let ghost before = self.main@;
        proof {
            lemma_most_frequent_unique(
                before,
                target,
                choose|peer: PeerId| is_most_frequent(before, peer),
            );
            lemma_most_frequent_nonempty(before, target);
        }
        let mut left: u64 = self.remove_batch;
        while left > 0
            invariant
                left <= self.remove_batch,
                self.remove_batch > 0,
                self.capacity == old(self).capacity,
                self.evict_timeout == old(self).evict_timeout,
                self.remove_batch == old(self).remove_batch,
                before.dom().finite(),
                before.len() == self.capacity,
                self.main@.dom().finite(),
                self.main@.submap_of(before),
                without_oldest(before, target, self.remove_batch as nat) == without_oldest(
                    self.main@,
                    target,
                    left as nat,
                ),
                left == self.remove_batch ==> self.main@ == before,
                left < self.remove_batch ==> self.main@.len() < before.len(),
                records_of(before, target).len() > 0,
            ensures
                self.main@ == without_oldest(before, target, self.remove_batch as nat),
                self.main@.dom().finite(),
                self.main@.submap_of(before),
                self.main@.len() < before.len(),
                self.capacity == old(self).capacity,
                self.evict_timeout == old(self).evict_timeout,
                self.remove_batch == old(self).remove_batch,
            decreases left,
        {
            match self.oldest_of(&target) {
                Some(hash) => {
                    proof {
                        let chosen = choose|hash: CryptoHash| is_oldest(self.main@, target, hash);
                        lemma_oldest_unique(self.main@, target, hash, chosen);
                        assert(records_of(self.main@, target).contains(hash));
                        assert(records_of(self.main@, target).len() > 0) by {
                            lemma_records_finite(self.main@, target);
                            if records_of(self.main@, target).len() == 0 {
                                records_of(self.main@, target).lemma_len0_is_empty();
                            }
                        }
                        assert(self.main@.contains_key(hash));
                    }
                    self.main.remove(&hash);
                    left -= 1;
                },
                None => {
                    proof {
                        assert(self@.records == self.main@);
                        assert(forall|hash: CryptoHash|
                            !records_of(self.main@, target).contains(hash));
                        assert(records_of(self.main@, target) =~= Set::empty());
                    }
                    break ;
                },
            }
        }
    }

    /// The peer that has the most records.
    fn most_frequent(&self) -> (peer: PeerId)
        requires
            self@.valid(),
            self@.records.len() > 0,
        ensures
            is_most_frequent(self@.records, peer),
    {
        let keys = keys_of(&self.main);
        let ghost records = self.main@;
        let mut counts: BTreeMap<PeerId, u64> = BTreeMap::new();
        let mut i: usize = 0;
        proof {
            keys@.unique_seq_to_set();
            assert(keys@.take(0).to_set() =~= Set::empty());
            assert forall|p: PeerId| (#[trigger] counted(records, keys@, 0, p)).len() == 0 by {
                assert(counted(records, keys@, 0, p) =~= Set::empty());
            }
        }
        while i < keys.len()
            invariant
                records == self.main@,
                records.dom().finite(),
                i <= keys@.len(),
                keys@.len() <= u64::MAX,
                keys@.no_duplicates(),
                keys@.to_set() == records.dom(),
                forall|p: PeerId| #[trigger]
                    counts@.contains_key(p) <==> counted(records, keys@, i as int, p).len() > 0,
                forall|p: PeerId| #[trigger]
                    counts@.contains_key(p) ==> counts@[p] == counted(records, keys@, i as int, p).len(),
            decreases keys.len() - i,
        {
            let hash: CryptoHash = keys[i];
            proof {
                assert(keys@.to_set().contains(keys@[i as int]));
                assert(records.contains_key(hash));
            }
            let peer: PeerId = self.main.get(&hash).unwrap().1;
            proof {
                lemma_counted(records, keys@, i as int, peer);
            }
            let count: u64 = match counts.get(&peer) {
                Some(count) => *count + 1,
                None => 1,
            };
            counts.insert(peer, count);
            i += 1;
        }
        proof {
            assert(keys@.take(keys@.len() as int) =~= keys@);
            assert forall|p: PeerId| #[trigger] counted(records, keys@, keys@.len() as int, p)
                == records_of(records, p) by {
                assert(counted(records, keys@, keys@.len() as int, p) =~= records_of(records, p));
            }
        }
        let peers = keys_of(&counts);
        let ghost n = keys@.len() as int;
        proof {
            assert(keys@.len() > 0);
            let h = keys@[0];
            assert(keys@.to_set().contains(h));
            let p = records[h].1;
            assert(records_of(records, p).contains(h));
            assert(records_of(records, p).len() > 0) by {
                lemma_records_finite(records, p);
                if records_of(records, p).len() == 0 {
                    records_of(records, p).lemma_len0_is_empty();
                }
            }
            assert(counted(records, keys@, n, p).len() > 0);
            assert(counts@.contains_key(p));
            assert(peers@.to_set().contains(p));
        }
        let mut best: PeerId = peers[0];
        assert(peers@.to_set().contains(peers@[0]));
        assert(peers@.take(1)[0] == best);
        let mut best_count: u64 = *counts.get(&best).unwrap();
        let mut j: usize = 1;
        while j < peers.len()
            invariant
                1 <= j <= peers@.len(),
                peers@.no_duplicates(),
                peers@.to_set() == counts@.dom(),
                peers@.take(j as int).contains(best),
                counts@.contains_key(best),
                best_count == counts@[best],
                forall|k: int|
                    0 <= k < j && (#[trigger] peers@[k]) != best ==> counts@[peers@[k]] < best_count || (
                    counts@[peers@[k]] == best_count && key_before(best, peers@[k])),
            decreases peers.len() - j,
        {
            let peer: PeerId = peers[j];
            assert(peers@.to_set().contains(peers@[j as int]));
            let count: u64 = *counts.get(&peer).unwrap();
            if count > best_count || (count == best_count && key_less(&peer, &best)) {
                best = peer;
                best_count = count;
            }
            proof {
                assert(peers@.take(j as int + 1) =~= peers@.take(j as int).push(peers@[j as int]));
                crate::sequences::lemma_push_contains(peers@.take(j as int), peers@[j as int], best);
            }
            j += 1;
        }
        proof {
            assert forall|other: PeerId| other != best implies {
                let m = (#[trigger] records_of(records, other)).len();
                ||| m < records_of(records, best).len()
                ||| m == records_of(records, best).len() && key_before(best, other)
            } by {
                assert(counted(records, keys@, n, other) == records_of(records, other));
                assert(counted(records, keys@, n, best) == records_of(records, best));
                if counts@.contains_key(other) {
                    assert(peers@.to_set().contains(other));
                    let k = choose|k: int| 0 <= k < peers@.len() && peers@[k] == other;
                    assert(peers@[k] == other);
                }
            }
        }
        best
    }

    /// The oldest record of a peer.
    fn oldest_of(&self, peer: &PeerId) -> (res: Option<CryptoHash>)
        ensures
            match res {
                Some(hash) => is_oldest(self@.records, *peer, hash),
                None => forall|hash: CryptoHash| !records_of(self@.records, *peer).contains(hash),
            },
    {
        let keys = keys_of(&self.main);
        let ghost records = self.main@;
        let mut best: Option<(u64, CryptoHash)> = None;
        let mut i: usize = 0;
        while i < keys.len()
            invariant
                records == self.main@,
                i <= keys@.len(),
                keys@.to_set() == records.dom(),
                match best {
                    Some(b) => {
                        &&& records_of(records, *peer).contains(b.1)
                        &&& b.0 == records[b.1].0
                        &&& forall|k: int|
                            0 <= k < i && records[#[trigger] keys@[k]].1 == *peer && keys@[k] != b.1
                                ==> older(records, b.1, keys@[k])
                    },
                    None => forall|k: int| 0 <= k < i ==> records[#[trigger] keys@[k]].1 != *peer,
                },
            decreases keys.len() - i,
        {
            let hash: CryptoHash = keys[i];
            assert(keys@.to_set().contains(keys@[i as int]));
            let record: (u64, PeerId) = *self.main.get(&hash).unwrap();
            if same_key(&record.1, peer) {
                let better = match best {
                    Some(b) => record.0 < b.0 || (record.0 == b.0 && key_less(&hash, &b.1)),
                    None => true,
                };
                if better {
                    best = Some((record.0, hash));
                }
            }
            i += 1;
        }
        proof {
            assert forall|h: CryptoHash| #[trigger] records_of(records, *peer).contains(h) implies exists|
                k: int,
            |
                0 <= k < keys@.len() && keys@[k] == h by {
                assert(keys@.to_set().contains(h));
            }
        }
        match best {
            Some(b) => Some(b.1),
            None => None,
        }
    }
}

/// The messages from `peer` among the first `n` of a list.
spec fn counted(
    records: Map<CryptoHash, (u64, PeerId)>,
    keys: Seq<CryptoHash>,
    n: int,
    peer: PeerId,
) -> Set<CryptoHash> {
    keys.take(n).to_set().filter(|hash: CryptoHash| records[hash].1 == peer)
}

/// One message more counts for the peer that it came from.
proof fn lemma_counted(
    records: Map<CryptoHash, (u64, PeerId)>,
    keys: Seq<CryptoHash>,
    n: int,
    peer: PeerId,
)
    requires
        keys.no_duplicates(),
        0 <= n < keys.len(),
        records[keys[n]].1 == peer,
    ensures
        counted(records, keys, n + 1, peer).len() == counted(records, keys, n, peer).len() + 1,
        forall|p: PeerId|
            p != peer ==> #[trigger] counted(records, keys, n + 1, p) == counted(records, keys, n, p),
        counted(records, keys, n, peer).len() <= n,
{
    let h = keys[n];
    let before = keys.take(n);
    let after = keys.take(n + 1);
    assert(after =~= before.push(h));
    assert(!before.contains(h));
    assert forall|x: CryptoHash| #[trigger] after.to_set().contains(x) <==> before.to_set().contains(x)
        || x == h by {
        crate::sequences::lemma_push_contains(before, h, x);
    }
    assert(counted(records, keys, n + 1, peer) =~= counted(records, keys, n, peer).insert(h));
    assert forall|p: PeerId| p != peer implies #[trigger] counted(records, keys, n + 1, p) == counted(
        records,
        keys,
        n,
        p,
    ) by {
        assert(counted(records, keys, n + 1, p) =~= counted(records, keys, n, p));
    }
    before.unique_seq_to_set();
    vstd::seq_lib::seq_to_set_is_finite(before);
    let from_peer = |hash: CryptoHash| records[hash].1 == peer;
    before.to_set().lemma_len_filter(from_peer);
    assert(counted(records, keys, n, peer) =~= before.to_set().filter(from_peer));
}

proof fn lemma_records_finite(records: Map<CryptoHash, (u64, PeerId)>, peer: PeerId)
    requires
        records.dom().finite(),
    ensures
        records_of(records, peer).finite(),
{
    records.dom().lemma_len_filter(|hash: CryptoHash| records[hash].1 == peer);
}

/// Only one peer can have the most records.
pub proof fn lemma_most_frequent_unique(
    records: Map<CryptoHash, (u64, PeerId)>,
    a: PeerId,
    b: PeerId,
)
    requires
        is_most_frequent(records, a),
        is_most_frequent(records, b),
    ensures
        a == b,
{
    if a != b {
        assert(records_of(records, a).len() <= records_of(records, b).len());
        assert(records_of(records, b).len() <= records_of(records, a).len());
    }
}

proof fn lemma_most_frequent_nonempty(records: Map<CryptoHash, (u64, PeerId)>, peer: PeerId)
    requires
        is_most_frequent(records, peer),
        records.dom().finite(),
        records.len() > 0,
    ensures
        records_of(records, peer).len() > 0,
{
    let h = records.dom().choose();
    assert(records.contains_key(h));
    let p = records[h].1;
    assert(records_of(records, p).contains(h));
    lemma_records_finite(records, p);
    if records_of(records, p).len() == 0 {
        records_of(records, p).lemma_len0_is_empty();
    }
}

/// Only one record can be the oldest.
pub proof fn lemma_oldest_unique(
    records: Map<CryptoHash, (u64, PeerId)>,
    peer: PeerId,
    a: CryptoHash,
    b: CryptoHash,
)
    requires
        is_oldest(records, peer, a),
        is_oldest(records, peer, b),
    ensures
        a == b,
{
    if a != b {
        assert(older(records, a, b));
        assert(older(records, b, a));
    }
}

} // verus!
