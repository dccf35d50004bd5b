//! Walking over maps.
use std::collections::BTreeMap;
use vstd::laws_cmp::obeys_cmp;
use vstd::prelude::*;
use vstd::std_specs::iter::IteratorSpec;

verus! {

broadcast use {vstd::laws_cmp::group_laws_cmp, vstd::std_specs::btree::group_btree_axioms};

/// `list` holds each element of `s` once.
pub open spec fn lists_all<K>(list: Seq<K>, s: Set<K>) -> bool {
    list.no_duplicates() && list.to_set() == s
}

/// The keys of a map.
pub fn keys_of<K: Copy + Ord, V>(m: &BTreeMap<K, V>) -> (res: Vec<K>)
    requires
        obeys_cmp::<K>(),
    ensures
        lists_all(res@, m@.dom()),
{
    let mut res: Vec<K> = Vec::new();
    let keys = m.keys();
    let ghost all = keys.remaining();
    for key in it: keys
        invariant
            it.seq() == all,
            res@.len() == it.index(),
            forall|i: int| 0 <= i < res@.len() ==> res@[i] == *all[i],
    {
        res.push(*key);
    }
    assert(res@ =~= all.unref());
    res
}

} // verus!
