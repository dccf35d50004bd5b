//! What the table says of accounts.
use crate::lru::{
    evicted, lemma_evicted, lemma_stored, lemma_touched, lemma_touched_twice, lookup, touched,
};
use crate::state::{TableState, ANNOUNCE_ACCOUNT_CACHE_SIZE};
use crate::store::{Disk, StoreChange, StoreReply};
use crate::types::Announcement;
use vstd::prelude::*;

verus! {

/// An account that was announced is found, with the latest announcement, whatever the store says.
pub proof fn law_announced_account_is_found(
    table: TableState,
    announce: Announcement,
    reply: StoreReply<Announcement>,
)
    requires
        table.valid(),
    ensures
        table.with_account(announce).announcement(announce.account_id, reply) == Some(announce),
{
    lemma_stored(
        table.accounts,
        ANNOUNCE_ACCOUNT_CACHE_SIZE as nat,
        announce.account_id,
        announce,
    );
}

/// Nothing depends on the store for an account on cache, and nothing is written for it.
pub proof fn law_cached_account_needs_no_store(
    table: TableState,
    account_id: Seq<char>,
    one: StoreReply<Announcement>,
    other: StoreReply<Announcement>,
)
    requires
        lookup(table.accounts, account_id) is Some,
    ensures
        table.announcement(account_id, one) == table.announcement(account_id, other),
        table.with_lookup(account_id, one) == table.with_lookup(account_id, other),
        table.lookup_changes(account_id, one) == Seq::<StoreChange>::empty(),
{
}

/// Asking the cache first and then looking the account up is the same as looking it up.
pub proof fn law_asking_the_cache_first_is_harmless(
    table: TableState,
    account_id: Seq<char>,
    reply: StoreReply<Announcement>,
)
    requires
        table.valid(),
    ensures
        ({
            let asked = TableState {
                accounts: touched(table.accounts, account_id),
                ..table
            };
            &&& asked.announcement(account_id, reply) == table.announcement(account_id, reply)
            &&& asked.with_lookup(account_id, reply) == table.with_lookup(account_id, reply)
            &&& asked.lookup_changes(account_id, reply) == table.lookup_changes(account_id, reply)
        }),
{
    lemma_touched(table.accounts, account_id);
    lemma_touched_twice(table.accounts, account_id);
}

proof fn lemma_backed(table: TableState, announce: Announcement, disk: Disk)
    requires
        table.valid(),
        table.is_backed_by(disk),
    ensures
        table.with_account(announce).is_backed_by(
            disk.changed(StoreChange::SetAnnouncement(announce)),
        ),
{
    let limit = ANNOUNCE_ACCOUNT_CACHE_SIZE as nat;
    let after = table.with_account(announce);
    let changed = disk.changed(StoreChange::SetAnnouncement(announce));
    lemma_stored(table.accounts, limit, announce.account_id, announce);
    lemma_evicted(table.accounts, limit);
    assert forall|id: Seq<char>| (#[trigger] lookup(after.accounts, id)) is Some implies
        changed.announcements.contains_key(id) && changed.announcements[id] == lookup(
        after.accounts,
        id,
    ).unwrap() by {
        if id != announce.account_id {
            assert(lookup(after.accounts, id) == lookup(evicted(table.accounts, limit), id));
            assert(lookup(table.accounts, id) is Some);
        }
    }
}

/// An announcement that is written as the table asks is on disk, and so is all that is on cache.
pub proof fn law_announced_account_is_on_disk(table: TableState, announce: Announcement, disk: Disk)
    requires
        table.valid(),
        table.is_backed_by(disk),
        disk.files_by_account(),
    ensures
        ({
            let after = disk.updated(seq![StoreChange::SetAnnouncement(announce)]);
            &&& table.with_account(announce).is_backed_by(after)
            &&& after.files_by_account()
            &&& after.announcement_reply(announce.account_id) == StoreReply::Found(announce)
        }),
{
    let changes = seq![StoreChange::SetAnnouncement(announce)];
    assert(changes.drop_last() =~= Seq::empty());
    assert(disk.updated(changes) == disk.updated(Seq::empty()).changed(changes.last()));
    lemma_backed(table, announce, disk);
}

/// The cache does not show: with a working store, looking an account up gives what is on disk, and
/// leaves the disk as it is. So an announcement is found until the account is announced anew, also
/// when the cache had to give it up in between.
pub proof fn law_lookup_gives_what_is_on_disk(table: TableState, account_id: Seq<char>, disk: Disk)
    requires
        table.valid(),
        table.is_backed_by(disk),
        disk.files_by_account(),
    ensures
        ({
            let reply = disk.announcement_reply(account_id);
            let after = table.with_lookup(account_id, reply);
            &&& table.announcement(account_id, reply) == (if disk.announcements.contains_key(
                account_id,
            ) {
                Some(disk.announcements[account_id])
            } else {
                None
            })
            &&& disk.updated(table.lookup_changes(account_id, reply)) == disk
            &&& after.is_backed_by(disk)
        }),
{
    let reply = disk.announcement_reply(account_id);
    let changes = table.lookup_changes(account_id, reply);
    let found = lookup(table.accounts, account_id);
    let seen = TableState { accounts: touched(table.accounts, account_id), ..table };
    lemma_touched(table.accounts, account_id);
    assert(seen.is_backed_by(disk)) by {
        assert forall|id: Seq<char>| (#[trigger] lookup(seen.accounts, id)) is Some implies
            disk.announcements.contains_key(id) && disk.announcements[id] == lookup(
            seen.accounts,
            id,
        ).unwrap() by {
            assert(lookup(table.accounts, id) == lookup(seen.accounts, id));
        }
    }
    if found is None && disk.announcements.contains_key(account_id) {
        let announce = disk.announcements[account_id];
        assert(seen.accounts == table.accounts);
        lemma_backed(table, announce, disk);
        assert(changes.drop_last() =~= Seq::empty());
        assert(disk.updated(changes) == disk.updated(Seq::empty()).changed(changes.last()));
        assert(disk.announcements.insert(account_id, announce) =~= disk.announcements);
        assert(disk.changed(StoreChange::SetAnnouncement(announce)) == disk);
    }
}

} // verus!
