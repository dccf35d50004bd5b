//! What a bounded cache holds, as a sequence of entries from the most to the least recently used
//! one.
use vstd::prelude::*;

verus! {

pub open spec fn has_key<K, V>(entries: Seq<(K, V)>, key: K) -> bool {
    exists|i: int| 0 <= i < entries.len() && (#[trigger] entries[i]).0 == key
}

/// The place of the entry of `key`.
pub open spec fn position<K, V>(entries: Seq<(K, V)>, key: K) -> int {
    choose|i: int| 0 <= i < entries.len() && (#[trigger] entries[i]).0 == key
}

/// The value under `key`.
pub open spec fn lookup<K, V>(entries: Seq<(K, V)>, key: K) -> Option<V> {
    if has_key(entries, key) {
        Some(entries[position(entries, key)].1)
    } else {
        None
    }
}

/// No two entries have the same key.
pub open spec fn distinct<K, V>(entries: Seq<(K, V)>) -> bool {
    forall|i: int, j: int|
        0 <= i < entries.len() && 0 <= j < entries.len() && (#[trigger] entries[i]).0 == (
        #[trigger] entries[j]).0 ==> i == j
}

/// After a lookup of `key`: its entry comes first.
pub open spec fn touched<K, V>(entries: Seq<(K, V)>, key: K) -> Seq<(K, V)> {
    if has_key(entries, key) {
        let at = position(entries, key);
        seq![entries[at]] + entries.remove(at)
    } else {
        entries
    }
}

/// After a lookup of each key in turn.
pub open spec fn touched_all<K, V>(entries: Seq<(K, V)>, keys: Seq<K>) -> Seq<(K, V)>
    decreases keys.len(),
{
    if keys.len() == 0 {
        entries
    } else {
        touched(touched_all(entries, keys.drop_last()), keys.last())
    }
}

/// Room for one entry more: a cache at its limit gives up the least recently used one.
pub open spec fn evicted<K, V>(entries: Seq<(K, V)>, limit: nat) -> Seq<(K, V)> {
    if entries.len() >= limit {
        entries.drop_last()
    } else {
        entries
    }
}

/// After `value` was stored under `key`. Room is made first, even if the key is there. A key that
/// is still there keeps its place; a new one comes first.
pub open spec fn stored<K, V>(entries: Seq<(K, V)>, limit: nat, key: K, value: V) -> Seq<(K, V)> {
    let rest = evicted(entries, limit);
    if has_key(rest, key) {
        rest.update(position(rest, key), (key, value))
    } else {
        seq![(key, value)] + rest
    }
}

/// After the entry of `key` was taken out.
pub open spec fn deleted<K, V>(entries: Seq<(K, V)>, key: K) -> Seq<(K, V)> {
    if has_key(entries, key) {
        entries.remove(position(entries, key))
    } else {
        entries
    }
}

/// A cache within its limit and with one entry for each key.
pub open spec fn bounded<K, V>(entries: Seq<(K, V)>, limit: nat) -> bool {
    distinct(entries) && entries.len() <= limit && limit > 0
}

/// With distinct keys, an entry is what a lookup of its key finds.
pub proof fn lemma_lookup<K, V>(entries: Seq<(K, V)>, i: int)
    requires
        distinct(entries),
        0 <= i < entries.len(),
    ensures
        has_key(entries, entries[i].0),
        position(entries, entries[i].0) == i,
        lookup(entries, entries[i].0) == Some(entries[i].1),
{
    let at = position(entries, entries[i].0);
    assert(entries[at].0 == entries[i].0);
}

pub proof fn lemma_lookup_is<K, V>(entries: Seq<(K, V)>, key: K, value: V)
    requires
        distinct(entries),
    ensures
        lookup(entries, key) == Some(value) <==> entries.contains((key, value)),
        lookup(entries, key) is None <==> !has_key(entries, key),
{
    if entries.contains((key, value)) {
        let i = choose|i: int| 0 <= i < entries.len() && entries[i] == (key, value);
        lemma_lookup(entries, i);
    }
    if has_key(entries, key) {
        let i = position(entries, key);
        assert(entries[i].0 == key);
        assert(entries[i] == (key, entries[i].1));
    }
}

/// Two caches with distinct keys and the same entries, whatever their order, give the same
/// answers.
proof fn lemma_same_entries<K, V>(a: Seq<(K, V)>, b: Seq<(K, V)>, key: K)
    requires
        distinct(a),
        distinct(b),
        forall|e: (K, V)| e.0 == key ==> (#[trigger] a.contains(e) <==> b.contains(e)),
    ensures
        lookup(a, key) == lookup(b, key),
{
    if has_key(a, key) {
        let e = a[position(a, key)];
        assert(a.contains(e));
        lemma_lookup_is(a, key, e.1);
        assert(e == (key, e.1));
        lemma_lookup_is(b, key, e.1);
    } else if has_key(b, key) {
        let e = b[position(b, key)];
        assert(b.contains(e));
        assert(e == (key, e.1));
        assert(a.contains(e));
        lemma_lookup_is(a, key, e.1);
    }
}

/// A lookup changes the order of the entries, and nothing else.
pub proof fn lemma_touched<K, V>(entries: Seq<(K, V)>, key: K)
    requires
        distinct(entries),
    ensures
        distinct(touched(entries, key)),
        touched(entries, key).len() == entries.len(),
        forall|k: K| #[trigger] lookup(touched(entries, key), k) == lookup(entries, k),
        has_key(entries, key) ==> touched(entries, key)[0] == (key, lookup(entries, key).unwrap()),
{
    let after = touched(entries, key);
    if has_key(entries, key) {
        let at = position(entries, key);
        assert(entries[at].0 == key);
        assert forall|i: int| 0 <= i < after.len() implies #[trigger] after[i] == (if i == 0 {
            entries[at]
        } else if i <= at {
            entries[i - 1]
        } else {
            entries[i]
        }) by {}
        assert forall|e: (K, V)| #[trigger] after.contains(e) <==> entries.contains(e) by {
            if after.contains(e) {
                let i = choose|i: int| 0 <= i < after.len() && after[i] == e;
                if i == 0 {
                    assert(entries[at] == e);
                } else if i <= at {
                    assert(entries[i - 1] == e);
                } else {
                    assert(entries[i] == e);
                }
            }
            if entries.contains(e) {
                let i = choose|i: int| 0 <= i < entries.len() && entries[i] == e;
                if i == at {
                    assert(after[0] == e);
                } else if i < at {
                    assert(after[i + 1] == e);
                } else {
                    assert(after[i] == e);
                }
            }
        }
        assert forall|k: K| #[trigger] lookup(after, k) == lookup(entries, k) by {
            lemma_same_entries(after, entries, k);
        }
    }
}

/// Looking a key up twice is the same as looking it up once.
pub proof fn lemma_touched_twice<K, V>(entries: Seq<(K, V)>, key: K)
    requires
        distinct(entries),
    ensures
        touched(touched(entries, key), key) == touched(entries, key),
{
    lemma_touched(entries, key);
    if has_key(entries, key) {
        let once = touched(entries, key);
        lemma_lookup(once, 0);
        assert(once[0].0 == key);
        assert(seq![once[0]] + once.remove(0) =~= once);
    }
}

pub proof fn lemma_touched_all<K, V>(entries: Seq<(K, V)>, keys: Seq<K>)
    requires
        distinct(entries),
    ensures
        distinct(touched_all(entries, keys)),
        touched_all(entries, keys).len() == entries.len(),
        forall|k: K| #[trigger] lookup(touched_all(entries, keys), k) == lookup(entries, k),
    decreases keys.len(),
{
    if keys.len() > 0 {
        lemma_touched_all(entries, keys.drop_last());
        lemma_touched(touched_all(entries, keys.drop_last()), keys.last());
        assert forall|k: K| #[trigger] lookup(touched_all(entries, keys), k) == lookup(entries, k) by {
            assert(lookup(touched_all(entries, keys), k) == lookup(
                touched_all(entries, keys.drop_last()),
                k,
            ));
        }
    }
}

/// After a lookup of several keys, their entries stand before all others.
pub proof fn lemma_touched_all_first<K, V>(entries: Seq<(K, V)>, keys: Seq<K>)
    requires
        distinct(entries),
    ensures
        forall|i: int|
            0 <= i < entries.len() && keys.contains(
                (#[trigger] touched_all(entries, keys)[i]).0,
            ) ==> i < keys.len(),
    decreases keys.len(),
{
    lemma_touched_all(entries, keys);
    if keys.len() > 0 {
        let fewer = keys.drop_last();
        let key = keys.last();
        let before = touched_all(entries, fewer);
        let after = touched_all(entries, keys);
        lemma_touched_all(entries, fewer);
        lemma_touched_all_first(entries, fewer);
        assert forall|i: int| 0 <= i < entries.len() && keys.contains(
            (#[trigger] after[i]).0,
        ) implies i < keys.len() by {
            let j = choose|j: int| 0 <= j < keys.len() && keys[j] == after[i].0;
            if has_key(before, key) {
                let at = position(before, key);
                assert(before[at].0 == key);
                if i > 0 {
                    let x = if i <= at {
                        i - 1
                    } else {
                        i
                    };
                    assert(after[i] == before[x]);
                    assert(after[i].0 != key);
                    assert(fewer[j] == before[x].0);
                    assert(fewer.contains(before[x].0));
                }
            } else {
                assert(before[i].0 != key);
                assert(fewer[j] == before[i].0);
                assert(fewer.contains(before[i].0));
            }
        }
    }
}

/// A value that is changed where a lookup left it is found again, and the others stay.
pub proof fn lemma_touched_update<K, V>(entries: Seq<(K, V)>, key: K, value: V)
    requires
        distinct(entries),
        has_key(entries, key),
    ensures
        ({
            let after = touched(entries, key).update(0, (key, value));
            &&& distinct(after)
            &&& after.len() == entries.len()
            &&& lookup(after, key) == Some(value)
            &&& forall|k: K| k != key ==> #[trigger] lookup(after, k) == lookup(entries, k)
        }),
{
    lemma_touched(entries, key);
    let seen = touched(entries, key);
    let after = seen.update(0, (key, value));
    assert forall|i: int| 0 <= i < after.len() implies (#[trigger] after[i]).0 == seen[i].0 by {}
    assert(distinct(after));
    lemma_lookup(after, 0);
    assert forall|k: K| k != key implies #[trigger] lookup(after, k) == lookup(entries, k) by {
        assert forall|e: (K, V)| e.0 == k implies (#[trigger] after.contains(e) <==> seen.contains(
            e,
        )) by {
            if after.contains(e) {
                let i = choose|i: int| 0 <= i < after.len() && after[i] == e;
                assert(seen[i] == e);
            }
            if seen.contains(e) {
                let i = choose|i: int| 0 <= i < seen.len() && seen[i] == e;
                assert(after[i] == e);
            }
        }
        lemma_same_entries(after, seen, k);
    }
}

/// Making room costs at most the last entry.
pub proof fn lemma_evicted<K, V>(entries: Seq<(K, V)>, limit: nat)
    requires
        bounded(entries, limit),
    ensures
        distinct(evicted(entries, limit)),
        evicted(entries, limit).len() < limit,
        forall|k: K| #[trigger]
            lookup(evicted(entries, limit), k) == (if entries.len() == limit && entries.last().0 == k {
                None
            } else {
                lookup(entries, k)
            }),
{
    let rest = evicted(entries, limit);
    assert forall|i: int| 0 <= i < rest.len() implies #[trigger] rest[i] == entries[i] by {}
    assert forall|k: K| #[trigger] lookup(rest, k) == (if entries.len() == limit && entries.last().0
        == k {
        None
    } else {
        lookup(entries, k)
    }) by {
        if entries.len() == limit && entries.last().0 == k {
            if has_key(rest, k) {
                let i = position(rest, k);
                assert(rest[i].0 == k);
                assert(entries[i].0 == entries[entries.len() - 1].0);
            }
        } else {
            assert forall|e: (K, V)| e.0 == k implies (#[trigger] rest.contains(e)
                <==> entries.contains(e)) by {
                if rest.contains(e) {
                    let i = choose|i: int| 0 <= i < rest.len() && rest[i] == e;
                    assert(entries[i] == e);
                }
                if entries.contains(e) {
                    let i = choose|i: int| 0 <= i < entries.len() && entries[i] == e;
                    assert(rest[i] == e);
                }
            }
            lemma_same_entries(rest, entries, k);
        }
    }
}

/// A stored value is found again, and of the other keys at most one is lost.
pub proof fn lemma_stored<K, V>(entries: Seq<(K, V)>, limit: nat, key: K, value: V)
    requires
        bounded(entries, limit),
    ensures
        bounded(stored(entries, limit, key, value), limit),
        lookup(stored(entries, limit, key, value), key) == Some(value),
        forall|k: K|
            k != key ==> #[trigger] lookup(stored(entries, limit, key, value), k) == lookup(
                evicted(entries, limit),
                k,
            ),
{
    let rest = evicted(entries, limit);
    let after = stored(entries, limit, key, value);
    lemma_evicted(entries, limit);
    if has_key(rest, key) {
        let at = position(rest, key);
        assert(rest[at].0 == key);
        assert forall|i: int| 0 <= i < after.len() implies (#[trigger] after[i]).0 == rest[i].0 by {}
        assert(distinct(after));
        assert(after[at] == (key, value));
        assert(after.contains((key, value)));
        lemma_lookup_is(after, key, value);
        assert forall|k: K| k != key implies #[trigger] lookup(after, k) == lookup(rest, k) by {
            assert forall|e: (K, V)| e.0 == k implies (#[trigger] after.contains(e) <==> rest.contains(
                e,
            )) by {
                if after.contains(e) {
                    let i = choose|i: int| 0 <= i < after.len() && after[i] == e;
                    assert(rest[i] == e);
                }
                if rest.contains(e) {
                    let i = choose|i: int| 0 <= i < rest.len() && rest[i] == e;
                    assert(after[i] == e);
                }
            }
            lemma_same_entries(after, rest, k);
        }
    } else {
        assert forall|i: int| 0 <= i < after.len() implies #[trigger] after[i] == (if i == 0 {
            (key, value)
        } else {
            rest[i - 1]
        }) by {}
        assert(distinct(after)) by {
            assert forall|i: int, j: int|
                0 <= i < after.len() && 0 <= j < after.len() && (#[trigger] after[i]).0 == (
                #[trigger] after[j]).0 implies i == j by {
                if i == 0 && j > 0 {
                    assert(rest[j - 1].0 == key);
                }
                if j == 0 && i > 0 {
                    assert(rest[i - 1].0 == key);
                }
                if i > 0 && j > 0 {
                    assert(rest[i - 1].0 == rest[j - 1].0);
                }
            }
        }
        assert(after[0] == (key, value));
        assert(after.contains((key, value)));
        lemma_lookup_is(after, key, value);
        assert forall|k: K| k != key implies #[trigger] lookup(after, k) == lookup(rest, k) by {
            assert forall|e: (K, V)| e.0 == k implies (#[trigger] after.contains(e) <==> rest.contains(
                e,
            )) by {
                if after.contains(e) {
                    let i = choose|i: int| 0 <= i < after.len() && after[i] == e;
                    assert(rest[i - 1] == e);
                }
                if rest.contains(e) {
                    let i = choose|i: int| 0 <= i < rest.len() && rest[i] == e;
                    assert(after[i + 1] == e);
                }
            }
            lemma_same_entries(after, rest, k);
        }
    }
}

/// Taking an entry out leaves the others.
pub proof fn lemma_deleted<K, V>(entries: Seq<(K, V)>, key: K)
    requires
        distinct(entries),
    ensures
        distinct(deleted(entries, key)),
        deleted(entries, key).len() <= entries.len(),
        lookup(deleted(entries, key), key) is None,
        forall|k: K| k != key ==> #[trigger] lookup(deleted(entries, key), k) == lookup(entries, k),
{
    let after = deleted(entries, key);
    if has_key(entries, key) {
        let at = position(entries, key);
        assert(entries[at].0 == key);
        assert forall|i: int| 0 <= i < after.len() implies #[trigger] after[i] == (if i < at {
            entries[i]
        } else {
            entries[i + 1]
        }) by {}
        assert(distinct(after)) by {
            assert forall|i: int, j: int|
                0 <= i < after.len() && 0 <= j < after.len() && (#[trigger] after[i]).0 == (
                #[trigger] after[j]).0 implies i == j by {
                let x = if i < at {
                    i
                } else {
                    i + 1
                };
                let y = if j < at {
                    j
                } else {
                    j + 1
                };
                assert(entries[x].0 == entries[y].0);
            }
        }
        if has_key(after, key) {
            let i = position(after, key);
            assert(after[i].0 == key);
            assert(entries[if i < at {
                i
            } else {
                i + 1
            }].0 == entries[at].0);
        }
        assert forall|k: K| k != key implies #[trigger] lookup(after, k) == lookup(entries, k) by {
            assert forall|e: (K, V)| e.0 == k implies (#[trigger] after.contains(e)
                <==> entries.contains(e)) by {
                if after.contains(e) {
                    let i = choose|i: int| 0 <= i < after.len() && after[i] == e;
                    assert(entries[if i < at {
                        i
                    } else {
                        i + 1
                    }] == e);
                }
                if entries.contains(e) {
                    let i = choose|i: int| 0 <= i < entries.len() && entries[i] == e;
                    assert(i != at);
                    assert(after[if i < at {
                        i
                    } else {
                        i - 1
                    }] == e);
                }
            }
            lemma_same_entries(after, entries, k);
        }
    }
}

} // verus!
