//! Which peer owns an account.
use super::RoutingTable;
use crate::caches::{accounts_get, accounts_keys, accounts_set, accounts_values};
use crate::graph::lists;
use crate::lru::{lemma_stored, lemma_touched, lookup, stored, touched};
use crate::sequences::lemma_push_contains;
use crate::state::{TableState, ANNOUNCE_ACCOUNT_CACHE_SIZE};
use crate::store::{StoreChange, StoreOp, StoreReply, StoreUpdate};
use crate::tables::{keys_of, lists_all};
use crate::types::{
    same_key, AccountId, AnnounceAccount, Announcement, FindRouteError, PeerId, RoutingTableInfo,
};
use std::collections::BTreeMap;
use vstd::prelude::*;

verus! {

broadcast use {vstd::laws_cmp::group_laws_cmp, vstd::std_specs::btree::group_btree_axioms};

/// What the store says of the announcement of an account.
pub open spec fn announcement_reply(reply: StoreReply<AnnounceAccount>) -> StoreReply<Announcement> {
    match reply {
        StoreReply::Found(announce) => StoreReply::Found(announce@),
        StoreReply::Missing => StoreReply::Missing,
        StoreReply::Failed => StoreReply::Failed,
    }
}

/// What an optional announcement says.
pub open spec fn announcement_option(announce: Option<AnnounceAccount>) -> Option<Announcement> {
    match announce {
        Some(announce) => Some(announce@),
        None => None,
    }
}

fn copy_list(list: &Vec<PeerId>) -> (res: Vec<PeerId>)
    ensures
        res@ == list@,
{
    let mut res: Vec<PeerId> = Vec::new();
    let mut i: usize = 0;
    while i < list.len()
        invariant
            i <= list@.len(),
            res@ == list@.take(i as int),
        decreases list.len() - i,
    {
        res.push(list[i]);
        assert(list@.take(i + 1) =~= list@.take(i as int).push(list@[i as int]));
        i += 1;
    }
    assert(list@.take(i as int) =~= list@);
    res
}

fn copy_lists(m: &BTreeMap<PeerId, Vec<PeerId>>) -> (res: BTreeMap<PeerId, Vec<PeerId>>)
    ensures
        lists(res@) == lists(m@),
{
    let keys = keys_of(m);
    let mut res: BTreeMap<PeerId, Vec<PeerId>> = BTreeMap::new();
    let mut i: usize = 0;
    while i < keys.len()
        invariant
            i <= keys@.len(),
            lists_all(keys@, m@.dom()),
            forall|p: PeerId| #[trigger] res@.contains_key(p) <==> keys@.take(i as int).contains(p),
            forall|p: PeerId| #[trigger] res@.contains_key(p) ==> res@[p]@ == m@[p]@,
        decreases keys.len() - i,
    {
        let key: PeerId = keys[i];
        proof {
            assert(keys@.to_set().contains(keys@[i as int]));
            assert(keys@.take(i + 1) =~= keys@.take(i as int).push(key));
            assert forall|p: PeerId| #[trigger] keys@.take(i + 1).contains(p) <==> keys@.take(
                i as int,
            ).contains(p) || p == key by {
                lemma_push_contains(keys@.take(i as int), key, p);
            }
        }
        let list = copy_list(m.get(&key).unwrap());
        res.insert(key, list);
        i += 1;
    }
    proof {
        assert(keys@.take(i as int) =~= keys@);
        assert forall|p: PeerId| #[trigger] res@.contains_key(p) <==> m@.contains_key(p) by {
            assert(keys@.to_set().contains(p) <==> m@.dom().contains(p));
        }
        assert(lists(res@) =~= lists(m@));
    }
    res
}

impl RoutingTable {
    /// Add (account id, peer id) to routing table. Returns what is to be written.
    /// Note: There is at most one peer id per account id.
    pub fn add_account(&mut self, announce_account: AnnounceAccount) -> (update: StoreUpdate)
        requires
            old(self).wf(),
        ensures
            final(self).wf(),
            final(self)@ == old(self)@.with_account(announce_account@),
            update@ == seq![StoreChange::SetAnnouncement(announce_account@)],
    {
        let account_id = announce_account.account_id.clone();
        let ghost before = self@;
        proof {
            lemma_stored(
                before.accounts,
                ANNOUNCE_ACCOUNT_CACHE_SIZE as nat,
                announce_account.account_id@,
                announce_account@,
            );
        }
        accounts_set(&mut self.internals.account_peers, account_id, announce_account.clone());
        proof {
            lemma_keyed(before.accounts, announce_account@);
        }
        let mut update = StoreUpdate::new();
        update.push(StoreOp::SetAnnouncement(announce_account));
        assert(update@ =~= seq![StoreChange::SetAnnouncement(announce_account@)]);
        update
    }

    /// The announcement of an account, as far as it is on cache.
    pub fn announce_on_cache(&mut self, account_id: &AccountId) -> (res: Option<AnnounceAccount>)
        requires
            old(self).wf(),
        ensures
            final(self).wf(),
            announcement_option(res) == lookup(old(self)@.accounts, account_id@),
            final(self)@ == (TableState {
                accounts: touched(old(self)@.accounts, account_id@),
                ..old(self)@
            }),
    {
        let ghost before = self@;
        proof {
            lemma_touched(before.accounts, account_id@);
            lemma_touched_keyed(before.accounts, account_id@);
        }
        match accounts_get(&mut self.internals.account_peers, account_id) {
            Some(announce_account) => Some(announce_account.clone()),
            None => None,
        }
    }

    /// Get the announcement of an account: from the cache, or else from the store, of which `stored`
    /// is the reply. What came from the store goes to the cache. Returns what is to be written, too.
    pub fn get_announce(
        &mut self,
        account_id: &AccountId,
        stored: StoreReply<AnnounceAccount>,
    ) -> (res: (Option<AnnounceAccount>, StoreUpdate))
        requires
            old(self).wf(),
        ensures
            final(self).wf(),
            announcement_option(res.0) == old(self)@.announcement(
                account_id@,
                announcement_reply(stored),
            ),
            final(self)@ == old(self)@.with_lookup(account_id@, announcement_reply(stored)),
            res.1@ == old(self)@.lookup_changes(account_id@, announcement_reply(stored)),
    {
        if let Some(announce_account) = self.announce_on_cache(account_id) {
            return (Some(announce_account), StoreUpdate::new());
        }
        match stored {
            StoreReply::Found(announce_account) => {
                let update = self.add_account(announce_account.clone());
                (Some(announce_account), update)
            },
            _ => (None, StoreUpdate::new()),
        }
    }

    /// Find peer that owns this account. `stored` is what the store says of it.
    pub fn account_owner(&mut self, account_id: &AccountId, stored: StoreReply<AnnounceAccount>) -> (
    res: (Result<PeerId, FindRouteError>, StoreUpdate))
        requires
            old(self).wf(),
        ensures
            final(self).wf(),
            res.0 == match old(self)@.announcement(account_id@, announcement_reply(stored)) {
                Some(announce) => Ok::<PeerId, FindRouteError>(announce.peer_id),
                None => Err(FindRouteError::AccountNotFound),
            },
            final(self)@ == old(self)@.with_lookup(account_id@, announcement_reply(stored)),
            res.1@ == old(self)@.lookup_changes(account_id@, announcement_reply(stored)),
    {
        let (announce, update) = self.get_announce(account_id, stored);
        match announce {
            Some(announce_account) => (Ok(announce_account.peer_id), update),
            None => (Err(FindRouteError::AccountNotFound), update),
        }
    }

    /// Whether the account is known to have been announced for the same epoch. `stored` is what the
    /// store says of the account.
    pub fn contains_account(
        &mut self,
        announce_account: &AnnounceAccount,
        stored: StoreReply<AnnounceAccount>,
    ) -> (res: (bool, StoreUpdate))
        requires
            old(self).wf(),
        ensures
            final(self).wf(),
            res.0 == match old(self)@.announcement(
                announce_account.account_id@,
                announcement_reply(stored),
            ) {
                Some(current) => current.epoch_id == announce_account.epoch_id,
                None => false,
            },
            final(self)@ == old(self)@.with_lookup(
                announce_account.account_id@,
                announcement_reply(stored),
            ),
            res.1@ == old(self)@.lookup_changes(
                announce_account.account_id@,
                announcement_reply(stored),
            ),
    {
        let (announce, update) = self.get_announce(&announce_account.account_id, stored);
        match announce {
            Some(current) => (same_key(&current.epoch_id, &announce_account.epoch_id), update),
            None => (false, update),
        }
    }

    /// Get keys currently on cache, the most recently used one first.
    pub fn get_accounts_keys(&mut self) -> (res: Vec<AccountId>)
        ensures
            *final(self) == *old(self),
            res@.len() == old(self)@.accounts.len(),
            forall|i: int| 0 <= i < res@.len() ==> (#[trigger] res@[i])@ == old(self)@.accounts[i].0,
    {
        let keys = accounts_keys(&self.internals.account_peers);
        let mut res: Vec<AccountId> = Vec::new();
        let mut i: usize = 0;
        while i < keys.len()
            invariant
                *self == *old(self),
                i <= keys@.len(),
                keys@.len() == self@.accounts.len(),
                forall|k: int| 0 <= k < keys@.len() ==> (#[trigger] keys@[k])@ == self@.accounts[k].0,
                res@.len() == i,
                forall|k: int| 0 <= k < i ==> (#[trigger] res@[k])@ == self@.accounts[k].0,
            decreases keys.len() - i,
        {
            assert(keys@[i as int]@ == self@.accounts[i as int].0);
            res.push(keys[i].clone());
            i += 1;
        }
        res
    }

    /// Get announce accounts on cache, the most recently used one first.
    pub fn get_announce_accounts(&mut self) -> (res: Vec<AnnounceAccount>)
        ensures
            *final(self) == *old(self),
            res@.len() == old(self)@.accounts.len(),
            forall|i: int| 0 <= i < res@.len() ==> (#[trigger] res@[i])@ == old(self)@.accounts[i].1,
    {
        let values = accounts_values(&self.internals.account_peers);
        let mut res: Vec<AnnounceAccount> = Vec::new();
        let mut i: usize = 0;
        while i < values.len()
            invariant
                *self == *old(self),
                i <= values@.len(),
                values@.len() == self@.accounts.len(),
                forall|k: int|
                    0 <= k < values@.len() ==> (#[trigger] values@[k])@ == self@.accounts[k].1,
                res@.len() == i,
                forall|k: int| 0 <= k < i ==> (#[trigger] res@[k])@ == self@.accounts[k].1,
            decreases values.len() - i,
        {
            assert(values@[i as int]@ == self@.accounts[i as int].1);
            res.push(values[i].clone());
            i += 1;
        }
        res
    }

    /// The accounts on cache with their owners, and the table of routes.
    pub fn info(&mut self) -> (res: RoutingTableInfo)
        requires
            old(self).wf(),
        ensures
            *final(self) == *old(self),
            res.account_peers@.len() == old(self)@.accounts.len(),
            forall|i: int|
                0 <= i < res.account_peers@.len() ==> (#[trigger] res.account_peers@[i]).0@
                    == old(self)@.accounts[i].0 && res.account_peers@[i].1
                    == old(self)@.accounts[i].1.peer_id,
            lists(res.peer_forwarding@) == old(self)@.forwarding,
    {
        let announces = self.get_announce_accounts();
        let mut account_peers: Vec<(AccountId, PeerId)> = Vec::new();
        let mut i: usize = 0;
        while i < announces.len()
            invariant
                *self == *old(self),
                self.wf(),
                i <= announces@.len(),
                announces@.len() == self@.accounts.len(),
                forall|k: int|
                    0 <= k < announces@.len() ==> (#[trigger] announces@[k])@ == self@.accounts[k].1,
                account_peers@.len() == i,
                forall|k: int|
                    0 <= k < i ==> (#[trigger] account_peers@[k]).0@ == self@.accounts[k].0
                        && account_peers@[k].1 == self@.accounts[k].1.peer_id,
            decreases announces.len() - i,
        {
            assert(announces@[i as int]@ == self@.accounts[i as int].1);
            let announce_account = &announces[i];
            account_peers.push((announce_account.account_id.clone(), announce_account.peer_id));
            i += 1;
        }
        RoutingTableInfo { account_peers, peer_forwarding: copy_lists(&self.peer_forwarding) }
    }
}

/// Storing an announcement under its own account keeps every announcement under its own account.
proof fn lemma_keyed(accounts: Seq<(Seq<char>, Announcement)>, announce: Announcement)
    requires
        forall|i: int| 0 <= i < accounts.len() ==> (#[trigger] accounts[i]).1.account_id == accounts[i].0,
    ensures
        ({
            let after = stored(
                accounts,
                ANNOUNCE_ACCOUNT_CACHE_SIZE as nat,
                announce.account_id,
                announce,
            );
            forall|i: int| 0 <= i < after.len() ==> (#[trigger] after[i]).1.account_id == after[i].0
        }),
{
}

/// So does looking one up.
proof fn lemma_touched_keyed(accounts: Seq<(Seq<char>, Announcement)>, account_id: Seq<char>)
    requires
        forall|i: int| 0 <= i < accounts.len() ==> (#[trigger] accounts[i]).1.account_id == accounts[i].0,
    ensures
        ({
            let after = touched(accounts, account_id);
            forall|i: int| 0 <= i < after.len() ==> (#[trigger] after[i]).1.account_id == after[i].0
        }),
{
}

} // verus!
