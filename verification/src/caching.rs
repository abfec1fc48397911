//! The two-tier cache in front of the store of changeset entries.
//!
//! A lookup asks the process-local tier first, then the distributed tier,
//! and the store for what both miss; what it learns on the way it writes to
//! the tiers that missed. The store is the source of truth: with caches full,
//! empty or unreadable, a lookup returns what the store holds.

use crate::changeset_entry::{
    decode_for, serialize_changeset_entry, ChangesetEntry, ChangesetEntryView, ChangesetInsert,
};
use crate::changesets::{Changesets, ChangesetIdPrefix, ChangesetIdsResolvedFromPrefix};
use crate::error::Error;
use crate::mapping::contains_id;
use crate::text::push_digits;
use crate::types::{ChangesetId, RepositoryId};
use vstd::prelude::*;
use vstd::string::StringExecFns;

verus! {

/// The version of the code that writes cache entries.
pub const MC_CODEVER: u32 = 0;

/// The version of the layout in which cache entries are written.
pub const MC_SITEVER: u32 = 0;

/// The key of a changeset in the process-local tier.
pub open spec fn cache_key_text(repo_id: RepositoryId, cs_id: ChangesetId) -> Seq<char> {
    repo_id.prefix_text() + "."@ + cs_id.hex()
}

/// The key of a changeset in the process-local tier: the prefix of its
/// repository, a dot, and the 64 hexadecimal digits of its id.
pub fn get_cache_key(repo_id: RepositoryId, cs_id: &ChangesetId) -> (key: String)
    ensures
        key@ == cache_key_text(repo_id, *cs_id),
{
    let mut key = repo_id.prefix();
    key.append(".");
    let hex = cs_id.to_hex();
    key.append(hex.as_str());
    key
}

/// Makes the keys of the distributed tier: each names the use site and the
/// versions of code and layout, so that entries written by another version
/// are never found.
#[derive(Clone, Debug, PartialEq, Eq)]
pub struct KeyGen {
    prefix: String,
    codever: u32,
    sitever: u32,
}

impl KeyGen {
    pub closed spec fn prefix(&self) -> Seq<char> {
        self.prefix@
    }

    pub closed spec fn codever(&self) -> u32 {
        self.codever
    }

    pub closed spec fn sitever(&self) -> u32 {
        self.sitever
    }

    /// The maker of keys for the use site `prefix` and the versions given.
    pub fn new(prefix: &str, codever: u32, sitever: u32) -> (keygen: Self)
        ensures
            keygen.prefix() == prefix@,
            keygen.codever() == codever,
            keygen.sitever() == sitever,
    {
        KeyGen { prefix: String::from_str(prefix), codever, sitever }
    }

    /// The key in the distributed tier of what the process-local tier holds
    /// under `key`.
    pub open spec fn key_text(&self, key: Seq<char>) -> Seq<char> {
        self.prefix() + ":c"@ + crate::text::decimal(self.codever() as nat) + ":s"@
            + crate::text::decimal(self.sitever() as nat) + ":"@ + key
    }

    /// The key in the distributed tier: the use site, the version of the
    /// code behind a `c`, that of the layout behind an `s`, and `key`, with
    /// colons between them.
    pub fn key(&self, key: &str) -> (text: String)
        ensures
            text@ == self.key_text(key@),
    {
        let mut text = self.prefix.clone();
        text.append(":c");
        push_digits(&mut text, self.codever as u64);
        text.append(":s");
        push_digits(&mut text, self.sitever as u64);
        text.append(":");
        text.append(key);
        text
    }
}

/// The maker of the keys under which changeset entries are cached.
pub fn get_keygen() -> (keygen: KeyGen)
    ensures
        keygen.prefix() == "scm.mononoke.changesets"@,
        keygen.codever() == MC_CODEVER,
        keygen.sitever() == MC_SITEVER,
{
    let key_prefix = "scm.mononoke.changesets";

    KeyGen::new(key_prefix, MC_CODEVER, MC_SITEVER)
}


/// How often a cache tier was written and read, and with what outcome.
#[derive(Clone, Copy, Debug, PartialEq, Eq, Structural)]
pub struct MockStoreStats {
    pub sets: u64,
    pub gets: u64,
    pub hits: u64,
    pub misses: u64,
}

/// One more than `count`, as far as the counter reaches.
pub open spec fn bumped(count: u64) -> u64 {
    if count < u64::MAX {
        (count + 1) as u64
    } else {
        count
    }
}

fn bump(count: u64) -> (next: u64)
    ensures
        next == bumped(count),
{
    if count < u64::MAX {
        count + 1
    } else {
        count
    }
}

/// Why a lookup in the distributed tier gave no value.
#[derive(Clone, Copy, Debug, PartialEq, Eq, Structural)]
pub enum McErrorKind {
    /// The tier could not be reached.
    MemcacheInternal,
    /// The tier holds nothing under the key.
    Missing,
    /// What the tier holds under the key is not the entry asked for.
    Deserialization,
}

/// What the pairs of a tier hold under `key`: what was set last.
pub open spec fn held_in(data: Seq<(String, Vec<u8>)>, key: Seq<char>) -> Option<Seq<u8>>
    decreases data.len(),
{
    if data.len() == 0 {
        None
    } else if data.last().0@ == key {
        Some(data.last().1@)
    } else {
        held_in(data.drop_last(), key)
    }
}

/// One tier of the cache, held in memory: blobs by key. A tier can be made
/// unreachable; it then answers no lookup and takes no blob.
pub struct MockStore {
    data: Vec<(String, Vec<u8>)>,
    stats: MockStoreStats,
    reachable: bool,
}

impl MockStore {
    /// What the tier holds under `key`.
    pub closed spec fn held(&self, key: Seq<char>) -> Option<Seq<u8>> {
        held_in(self.data@, key)
    }

    pub closed spec fn spec_stats(&self) -> MockStoreStats {
        self.stats
    }

    pub closed spec fn reachable(&self) -> bool {
        self.reachable
    }

    /// An empty tier that can be reached.
    pub fn create_mock() -> (store: Self)
        ensures
            store.reachable(),
            store.spec_stats() == (MockStoreStats { sets: 0, gets: 0, hits: 0, misses: 0 }),
            forall|key: Seq<char>| store.held(key) is None,
    {
        MockStore {
            data: Vec::new(),
            stats: MockStoreStats { sets: 0, gets: 0, hits: 0, misses: 0 },
            reachable: true,
        }
    }

    /// How often the tier was written and read.
    pub fn stats(&self) -> (stats: MockStoreStats)
        ensures
            stats == self.spec_stats(),
    {
        self.stats
    }

    /// Makes the tier reachable, or unreachable.
    pub fn set_reachable(&mut self, reachable: bool)
        ensures
            final(self).reachable() == reachable,
            final(self).spec_stats() == old(self).spec_stats(),
            forall|key: Seq<char>| final(self).held(key) == old(self).held(key),
    {
        self.reachable = reachable;
    }

    /// Empties the tier.
    pub fn clear(&mut self)
        ensures
            final(self).reachable() == old(self).reachable(),
            final(self).spec_stats() == old(self).spec_stats(),
            forall|key: Seq<char>| final(self).held(key) is None,
    {
        self.data = Vec::new();
    }

    /// Looks `key` up, and counts the lookup.
    pub fn get(&mut self, key: &String) -> (res: Result<Vec<u8>, McErrorKind>)
        ensures
            final(self).reachable() == old(self).reachable(),
            forall|k: Seq<char>| final(self).held(k) == old(self).held(k),
            !old(self).reachable() ==> res == Err::<Vec<u8>, McErrorKind>(
                McErrorKind::MemcacheInternal,
            ) && final(self).spec_stats() == old(self).spec_stats(),
            old(self).reachable() ==> match old(self).held(key@) {
                Some(blob) => res matches Ok(found) && found@ == blob && final(self).spec_stats() == (
                MockStoreStats {
                    gets: bumped(old(self).spec_stats().gets),
                    hits: bumped(old(self).spec_stats().hits),
                    ..old(self).spec_stats()
                }),
                None => res == Err::<Vec<u8>, McErrorKind>(McErrorKind::Missing)
                    && final(self).spec_stats() == (MockStoreStats {
                    gets: bumped(old(self).spec_stats().gets),
                    misses: bumped(old(self).spec_stats().misses),
                    ..old(self).spec_stats()
                }),
            },
    {
        if !self.reachable {
            return Err(McErrorKind::MemcacheInternal);
        }
        self.stats.gets = bump(self.stats.gets);
        let mut i: usize = self.data.len();
        proof {
            assert(self.data@.take(i as int) =~= self.data@);
        }
        while i > 0
            invariant
                i <= self.data.len(),
                self.data == old(self).data,
                self.reachable == old(self).reachable,
                self.reachable,
                self.stats == (MockStoreStats {
                    gets: bumped(old(self).stats.gets),
                    ..old(self).stats
                }),
                held_in(self.data@, key@) == held_in(self.data@.take(i as int), key@),
            decreases i,
        {
            i -= 1;
            proof {
                assert(self.data@.take(i + 1).drop_last() =~= self.data@.take(i as int));
                assert(self.data@.take(i + 1).last() == self.data@[i as int]);
            }
            if self.data[i].0 == *key {
                let found = self.data[i].1.clone();
                self.stats.hits = bump(self.stats.hits);
                return Ok(found);
            }
        }
        self.stats.misses = bump(self.stats.misses);
        Err(McErrorKind::Missing)
    }

    /// Puts `blob` under `key`, in place of what was there. A tier that
    /// cannot be reached takes nothing.
    pub fn set(&mut self, key: String, blob: Vec<u8>)
        ensures
            final(self).reachable() == old(self).reachable(),
            !old(self).reachable() ==> final(self).spec_stats() == old(self).spec_stats()
                && forall|k: Seq<char>| final(self).held(k) == old(self).held(k),
            old(self).reachable() ==> final(self).spec_stats() == (MockStoreStats {
                sets: bumped(old(self).spec_stats().sets),
                ..old(self).spec_stats()
            }) && forall|k: Seq<char>|
                final(self).held(k) == if k == key@ {
                    Some(blob@)
                } else {
                    old(self).held(k)
                },
    {
        if !self.reachable {
            return ;
        }
        self.stats.sets = bump(self.stats.sets);
        let ghost before = self.data@;
        self.data.push((key, blob));
        proof {
            assert(self.data@.drop_last() =~= before);
        }
    }
}

/// Counts of what the lookups in the distributed tier gave.
#[derive(Clone, Copy, Debug, PartialEq, Eq, Structural)]
pub struct McStats {
    pub memcache_hit: u64,
    pub memcache_miss: u64,
    pub memcache_internal_err: u64,
    pub memcache_deserialize_err: u64,
}

/// `stats` with one more lookup of the outcome `res` counted.
pub open spec fn reported(stats: McStats, res: Result<(), McErrorKind>) -> McStats {
    match res {
        Ok(_) => McStats { memcache_hit: bumped(stats.memcache_hit), ..stats },
        Err(McErrorKind::MemcacheInternal) => McStats {
            memcache_internal_err: bumped(stats.memcache_internal_err),
            ..stats
        },
        Err(McErrorKind::Missing) => McStats { memcache_miss: bumped(stats.memcache_miss), ..stats },
        Err(McErrorKind::Deserialization) => McStats {
            memcache_deserialize_err: bumped(stats.memcache_deserialize_err),
            ..stats
        },
    }
}

/// The lookups counted, over all outcomes.
pub open spec fn lookups(stats: McStats) -> int {
    stats.memcache_hit + stats.memcache_miss + stats.memcache_internal_err
        + stats.memcache_deserialize_err
}

/// Each lookup is counted once, under its outcome: while the counter of the
/// outcome has not reached its end, it goes up by one, the three others
/// stay, and so the lookups counted go up by one.
pub proof fn law_each_lookup_is_counted_once(stats: McStats, res: Result<(), McErrorKind>)
    requires
        match res {
            Ok(_) => stats.memcache_hit < u64::MAX,
            Err(McErrorKind::Missing) => stats.memcache_miss < u64::MAX,
            Err(McErrorKind::MemcacheInternal) => stats.memcache_internal_err < u64::MAX,
            Err(McErrorKind::Deserialization) => stats.memcache_deserialize_err < u64::MAX,
        },
    ensures
        lookups(reported(stats, res)) == lookups(stats) + 1,
        reported(stats, res).memcache_hit == stats.memcache_hit + if res is Ok {
            1int
        } else {
            0int
        },
        reported(stats, res).memcache_miss == stats.memcache_miss + if res == Err::<
            (),
            McErrorKind,
        >(McErrorKind::Missing) {
            1int
        } else {
            0int
        },
        reported(stats, res).memcache_internal_err == stats.memcache_internal_err + if res == Err::<
            (),
            McErrorKind,
        >(McErrorKind::MemcacheInternal) {
            1int
        } else {
            0int
        },
        reported(stats, res).memcache_deserialize_err == stats.memcache_deserialize_err + if res
            == Err::<(), McErrorKind>(McErrorKind::Deserialization) {
            1int
        } else {
            0int
        },
{
}

/// Counts one lookup in the distributed tier by its outcome. A counter
/// that has reached the greatest number it can hold stays there.
pub fn report_mc_result(stats: &mut McStats, res: Result<(), McErrorKind>)
    ensures
        *final(stats) == reported(*old(stats), res),
{
    match res {
        Ok(_) => stats.memcache_hit = bump(stats.memcache_hit),
        Err(McErrorKind::MemcacheInternal) => stats.memcache_internal_err = bump(
            stats.memcache_internal_err,
        ),
        Err(McErrorKind::Missing) => stats.memcache_miss = bump(stats.memcache_miss),
        Err(McErrorKind::Deserialization) => stats.memcache_deserialize_err = bump(
            stats.memcache_deserialize_err,
        ),
    };
}


/// Whether every blob in `store` that is the bytes of an entry is the bytes
/// of an entry that `entries` holds. Blobs that are no entry do no harm.
pub open spec fn coherent(
    store: MockStore,
    entries: Map<(RepositoryId, ChangesetId), ChangesetEntryView>,
) -> bool {
    forall|key: Seq<char>, e: ChangesetEntry|
        #![trigger store.held(key), crate::changeset_entry::encoded(e@)]
        store.held(key) == Some(crate::changeset_entry::encoded(e@)) ==> entries.contains_key(
            (e.repo_id, e.cs_id),
        ) && entries[(e.repo_id, e.cs_id)] == e@
}

/// A tier stays coherent when an entry that the store holds is put into it,
/// and when nothing is.
proof fn lemma_set_coherent(
    before: MockStore,
    after: MockStore,
    key: Seq<char>,
    entry: ChangesetEntry,
    entries: Map<(RepositoryId, ChangesetId), ChangesetEntryView>,
)
    requires
        coherent(before, entries),
        entries.contains_key((entry.repo_id, entry.cs_id)),
        entries[(entry.repo_id, entry.cs_id)] == entry@,
        (forall|k: Seq<char>| after.held(k) == before.held(k)) || (forall|k: Seq<char>|
            after.held(k) == if k == key {
                Some(crate::changeset_entry::encoded(entry@))
            } else {
                before.held(k)
            }),
    ensures
        coherent(after, entries),
{
    assert forall|k: Seq<char>, e: ChangesetEntry|
        #![trigger after.held(k), crate::changeset_entry::encoded(e@)]
        after.held(k) == Some(crate::changeset_entry::encoded(e@)) implies entries.contains_key(
        (e.repo_id, e.cs_id),
    ) && entries[(e.repo_id, e.cs_id)] == e@ by {
        if after.held(k) == before.held(k) {
            assert(before.held(k) == Some(crate::changeset_entry::encoded(e@)));
        } else {
            crate::changeset_entry::lemma_encoded_injective(e, entry);
        }
    }
}

/// A tier stays coherent when the store gets more entries.
proof fn lemma_grown_coherent(
    store: MockStore,
    before: Map<(RepositoryId, ChangesetId), ChangesetEntryView>,
    after: Map<(RepositoryId, ChangesetId), ChangesetEntryView>,
)
    requires
        coherent(store, before),
        before.submap_of(after),
    ensures
        coherent(store, after),
{
    assert forall|k: Seq<char>, e: ChangesetEntry|
        #![trigger store.held(k), crate::changeset_entry::encoded(e@)]
        store.held(k) == Some(crate::changeset_entry::encoded(e@)) implies after.contains_key(
        (e.repo_id, e.cs_id),
    ) && after[(e.repo_id, e.cs_id)] == e@ by {
        assert(before.contains_key((e.repo_id, e.cs_id)));
        assert(before.dom().contains((e.repo_id, e.cs_id)));
    }
}

/// Whether `found` holds an entry of the changeset `cs_id`.
fn has_entry(found: &Vec<ChangesetEntry>, cs_id: ChangesetId) -> (has: bool)
    ensures
        has == exists|k: int| 0 <= k < found@.len() && (#[trigger] found@[k]).cs_id == cs_id,
{
    let mut k: usize = 0;
    while k < found.len()
        invariant
            k <= found.len(),
            forall|m: int| 0 <= m < k ==> (#[trigger] found@[m]).cs_id != cs_id,
        decreases found.len() - k,
    {
        if found[k].cs_id == cs_id {
            return true;
        }
        k += 1;
    }
    false
}

/// Whether `store` can be reached and holds under `key` the bytes of the
/// entry of the changeset `cs_id` of `repo_id`.
pub open spec fn holds_entry_of(
    store: MockStore,
    key: Seq<char>,
    repo_id: RepositoryId,
    cs_id: ChangesetId,
) -> bool {
    store.reachable() && exists|entry: ChangesetEntry|
        store.held(key) == Some(#[trigger] crate::changeset_entry::encoded(entry@)) && entry.repo_id
            == repo_id && entry.cs_id == cs_id
}

/// What a lookup of the entry of a changeset in the distributed tier gives:
/// the entry, or why there is none.
pub open spec fn shared_lookup(
    store: MockStore,
    key: Seq<char>,
    repo_id: RepositoryId,
    cs_id: ChangesetId,
) -> Result<(), McErrorKind> {
    if !store.reachable() {
        Err(McErrorKind::MemcacheInternal)
    } else if store.held(key) is None {
        Err(McErrorKind::Missing)
    } else if holds_entry_of(store, key, repo_id, cs_id) {
        Ok(())
    } else {
        Err(McErrorKind::Deserialization)
    }
}

/// Whether `after` is the tier `before` with `blob` put under `key`: where
/// `before` can be reached `key` has `blob`, and nothing else has changed; a
/// tier that cannot be reached has taken nothing.
pub open spec fn put_into(before: MockStore, after: MockStore, key: Seq<char>, blob: Seq<u8>) -> bool {
    &&& after.reachable() == before.reachable()
    &&& forall|k: Seq<char>|
        after.held(k) == if before.reachable() && k == key {
            Some(blob)
        } else {
            before.held(k)
        }
}

/// Whether the tier `after` holds what `before` holds, and can be reached
/// as `before` can.
pub open spec fn same_content(before: MockStore, after: MockStore) -> bool {
    &&& after.reachable() == before.reachable()
    &&& forall|k: Seq<char>| after.held(k) == before.held(k)
}

/// A tier that holds the entry of a changeset under a key holds it still
/// when an entry is put under a key that is another key, or the key of the
/// same changeset.
pub proof fn lemma_put_keeps_entries(
    before: MockStore,
    after: MockStore,
    put_key: Seq<char>,
    put: ChangesetEntry,
    key: Seq<char>,
    repo_id: RepositoryId,
    cs_id: ChangesetId,
)
    requires
        put_into(before, after, put_key, crate::changeset_entry::encoded(put@)),
        holds_entry_of(before, key, repo_id, cs_id),
        put_key == key ==> put.repo_id == repo_id && put.cs_id == cs_id,
    ensures
        holds_entry_of(after, key, repo_id, cs_id),
{
    if put_key == key {
        assert(after.held(key) == Some(crate::changeset_entry::encoded(put@)));
    } else {
        let entry = choose|entry: ChangesetEntry|
            before.held(key) == Some(#[trigger] crate::changeset_entry::encoded(entry@))
                && entry.repo_id == repo_id && entry.cs_id == cs_id;
        assert(after.held(key) == Some(crate::changeset_entry::encoded(entry@)));
    }
}

/// A tier that can be reached holds an entry under its key once the entry
/// was put there.
pub proof fn lemma_put_is_held(
    before: MockStore,
    after: MockStore,
    key: Seq<char>,
    put: ChangesetEntry,
)
    requires
        put_into(before, after, key, crate::changeset_entry::encoded(put@)),
        after.reachable(),
    ensures
        holds_entry_of(after, key, put.repo_id, put.cs_id),
{
    assert(after.held(key) == Some(crate::changeset_entry::encoded(put@)));
}

/// The process-local tier holds the entry of a changeset still when it
/// stays as it is, and when the entry of a changeset is put under the key of
/// that changeset.
pub proof fn lemma_local_keeps(
    before: MockStore,
    after: MockStore,
    put: ChangesetEntry,
    repo_id: RepositoryId,
    cs_id: ChangesetId,
)
    requires
        same_content(before, after) || put_into(
            before,
            after,
            cache_key_text(put.repo_id, put.cs_id),
            crate::changeset_entry::encoded(put@),
        ),
        holds_entry_of(before, cache_key_text(repo_id, cs_id), repo_id, cs_id),
    ensures
        holds_entry_of(after, cache_key_text(repo_id, cs_id), repo_id, cs_id),
{
    let key = cache_key_text(repo_id, cs_id);
    if same_content(before, after) {
        let entry = choose|entry: ChangesetEntry|
            before.held(key) == Some(#[trigger] crate::changeset_entry::encoded(entry@))
                && entry.repo_id == repo_id && entry.cs_id == cs_id;
        assert(after.held(key) == Some(crate::changeset_entry::encoded(entry@)));
    } else {
        if cache_key_text(put.repo_id, put.cs_id) == key {
            law_keys_tell_changesets_apart(put.repo_id, put.cs_id, repo_id, cs_id);
        }
        lemma_put_keeps_entries(
            before,
            after,
            cache_key_text(put.repo_id, put.cs_id),
            put,
            key,
            repo_id,
            cs_id,
        );
    }
}

/// A tier that holds the entry of a changeset holds it still when it stays
/// as it is.
pub proof fn lemma_same_keeps(
    before: MockStore,
    after: MockStore,
    key: Seq<char>,
    repo_id: RepositoryId,
    cs_id: ChangesetId,
)
    requires
        same_content(before, after),
        holds_entry_of(before, key, repo_id, cs_id),
    ensures
        holds_entry_of(after, key, repo_id, cs_id),
{
    let entry = choose|entry: ChangesetEntry|
        before.held(key) == Some(#[trigger] crate::changeset_entry::encoded(entry@)) && entry.repo_id
            == repo_id && entry.cs_id == cs_id;
    assert(after.held(key) == Some(crate::changeset_entry::encoded(entry@)));
}

/// No two keys of the process-local tier have the same key in the
/// distributed tier.
pub proof fn law_shared_keys_differ(keygen: KeyGen, a: Seq<char>, b: Seq<char>)
    requires
        keygen.key_text(a) == keygen.key_text(b),
    ensures
        a == b,
{
    let head = keygen.prefix() + ":c"@ + crate::text::decimal(keygen.codever() as nat) + ":s"@
        + crate::text::decimal(keygen.sitever() as nat) + ":"@;
    assert(keygen.key_text(a) =~= head + a);
    assert(keygen.key_text(b) =~= head + b);
    assert(a =~= (head + a).subrange(head.len() as int, (head + a).len() as int));
    assert(b =~= (head + b).subrange(head.len() as int, (head + b).len() as int));
}

/// A changeset of which the tiers hold the entry had it there before,
/// where the distributed tier stayed as it was and the process-local tier
/// stayed too, or took a blob under another key.
proof fn lemma_cached_before(
    local_before: MockStore,
    local_after: MockStore,
    shared_before: MockStore,
    shared_after: MockStore,
    put_key: Seq<char>,
    blob: Seq<u8>,
    key: Seq<char>,
    shared_key: Seq<char>,
    repo_id: RepositoryId,
    cs_id: ChangesetId,
)
    requires
        same_content(shared_before, shared_after),
        same_content(local_before, local_after) || (put_into(
            local_before,
            local_after,
            put_key,
            blob,
        ) && put_key != key),
        holds_entry_of(local_after, key, repo_id, cs_id) || holds_entry_of(
            shared_after,
            shared_key,
            repo_id,
            cs_id,
        ),
    ensures
        holds_entry_of(local_before, key, repo_id, cs_id) || holds_entry_of(
            shared_before,
            shared_key,
            repo_id,
            cs_id,
        ),
{
    if holds_entry_of(local_after, key, repo_id, cs_id) {
        let entry = choose|entry: ChangesetEntry|
            local_after.held(key) == Some(#[trigger] crate::changeset_entry::encoded(entry@))
                && entry.repo_id == repo_id && entry.cs_id == cs_id;
        assert(local_before.held(key) == Some(crate::changeset_entry::encoded(entry@)));
    } else {
        let entry = choose|entry: ChangesetEntry|
            shared_after.held(shared_key) == Some(
                #[trigger] crate::changeset_entry::encoded(entry@),
            ) && entry.repo_id == repo_id && entry.cs_id == cs_id;
        assert(shared_before.held(shared_key) == Some(crate::changeset_entry::encoded(entry@)));
    }
}

/// A store of changeset entries behind a two-tier cache.
pub struct CachingChangesets<C> {
    changesets: C,
    cachelib: MockStore,
    memcache: MockStore,
    keygen: KeyGen,
    stats: McStats,
}

impl<C: Changesets> CachingChangesets<C> {
    /// The store behind the cache.
    pub closed spec fn base(&self) -> C {
        self.changesets
    }

    /// The process-local tier.
    pub closed spec fn local_tier(&self) -> MockStore {
        self.cachelib
    }

    /// The distributed tier.
    pub closed spec fn shared_tier(&self) -> MockStore {
        self.memcache
    }

    /// The store with the two tiers given in front of it. What the tiers
    /// hold must come from the store: the cache answers from them without
    /// asking it.
    ///
    /// A tier that holds nothing meets this with every store, so a tier from
    /// `MockStore::create_mock`, or one that was cleared, can always be
    /// given. A tier that holds entries meets it where it was filled by a
    /// cache in front of the same store, as the distributed tier is that
    /// `fork_cachelib` hands on.
    pub fn new(changesets: C, cachelib: MockStore, memcache: MockStore) -> (caching: Self)
        requires
            changesets.wf(),
            coherent(cachelib, changesets.entries()),
            coherent(memcache, changesets.entries()),
        ensures
            caching.wf(),
            caching.base() == changesets,
            caching.local_tier() == cachelib,
            caching.shared_tier() == memcache,
            caching.keygen().prefix() == "scm.mononoke.changesets"@,
            caching.keygen().codever() == MC_CODEVER,
            caching.keygen().sitever() == MC_SITEVER,
            caching.spec_mc_stats() == (McStats {
                memcache_hit: 0,
                memcache_miss: 0,
                memcache_internal_err: 0,
                memcache_deserialize_err: 0,
            }),
    {
        Self {
            changesets,
            cachelib,
            memcache,
            keygen: get_keygen(),
            stats: McStats {
                memcache_hit: 0,
                memcache_miss: 0,
                memcache_internal_err: 0,
                memcache_deserialize_err: 0,
            },
        }
    }

    /// The store with two empty tiers in front of it.
    pub fn mocked(changesets: C) -> (caching: Self)
        requires
            changesets.wf(),
        ensures
            caching.wf(),
            caching.base() == changesets,
            caching.local_tier().reachable(),
            caching.shared_tier().reachable(),
            forall|key: Seq<char>| caching.local_tier().held(key) is None,
            forall|key: Seq<char>| caching.shared_tier().held(key) is None,
            caching.spec_mc_stats() == (McStats {
                memcache_hit: 0,
                memcache_miss: 0,
                memcache_internal_err: 0,
                memcache_deserialize_err: 0,
            }),
    {
        let cachelib = MockStore::create_mock();
        let memcache = MockStore::create_mock();
        Self::new(changesets, cachelib, memcache)
    }

    /// The same store and distributed tier behind a process-local tier that
    /// is empty: what another process sees.
    pub fn fork_cachelib(self) -> (forked: Self)
        requires
            self.wf(),
        ensures
            forked.wf(),
            forked.base() == self.base(),
            forked.shared_tier() == self.shared_tier(),
            forked.keygen() == self.keygen(),
            forked.spec_mc_stats() == self.spec_mc_stats(),
            forked.local_tier().reachable(),
            forall|key: Seq<char>| forked.local_tier().held(key) is None,
    {
        Self {
            changesets: self.changesets,
            cachelib: MockStore::create_mock(),
            memcache: self.memcache,
            keygen: self.keygen,
            stats: self.stats,
        }
    }

    /// How often the process-local tier was written and read.
    pub fn cachelib_stats(&self) -> (stats: MockStoreStats)
        ensures
            stats == self.local_tier().spec_stats(),
    {
        self.cachelib.stats()
    }

    /// How often the distributed tier was written and read.
    pub fn memcache_stats(&self) -> (stats: MockStoreStats)
        ensures
            stats == self.shared_tier().spec_stats(),
    {
        self.memcache.stats()
    }

    /// The counts of what the lookups in the distributed tier gave.
    pub closed spec fn spec_mc_stats(&self) -> McStats {
        self.stats
    }

    /// The maker of the keys of the distributed tier.
    pub closed spec fn keygen(&self) -> KeyGen {
        self.keygen
    }

    /// The counts of what the lookups in the distributed tier gave.
    pub fn mc_stats(&self) -> (stats: McStats)
        ensures
            stats == self.spec_mc_stats(),
    {
        self.stats
    }

    /// The counts after a lookup of one changeset: as they were where the
    /// process-local tier holds the entry, and with the outcome of the
    /// lookup in the distributed tier counted otherwise.
    pub open spec fn counted(&self, repo_id: RepositoryId, cs_id: ChangesetId) -> McStats {
        let key = cache_key_text(repo_id, cs_id);
        if holds_entry_of(self.local_tier(), key, repo_id, cs_id) {
            self.spec_mc_stats()
        } else {
            reported(
                self.spec_mc_stats(),
                shared_lookup(self.shared_tier(), self.keygen().key_text(key), repo_id, cs_id),
            )
        }
    }

    /// The key of a changeset in the distributed tier.
    pub open spec fn shared_key(&self, repo_id: RepositoryId, cs_id: ChangesetId) -> Seq<char> {
        self.keygen().key_text(cache_key_text(repo_id, cs_id))
    }

    /// Whether one of the tiers holds the entry of a changeset, so that a
    /// lookup of the changeset does not reach the store.
    pub open spec fn cached(&self, repo_id: RepositoryId, cs_id: ChangesetId) -> bool {
        holds_entry_of(self.local_tier(), cache_key_text(repo_id, cs_id), repo_id, cs_id)
            || holds_entry_of(self.shared_tier(), self.shared_key(repo_id, cs_id), repo_id, cs_id)
    }

    /// Empties both tiers.
    pub fn clear_caches(&mut self)
        requires
            old(self).wf(),
        ensures
            final(self).wf(),
            final(self).base() == old(self).base(),
            final(self).keygen() == old(self).keygen(),
            final(self).spec_mc_stats() == old(self).spec_mc_stats(),
            forall|key: Seq<char>| final(self).local_tier().held(key) is None,
            forall|key: Seq<char>| final(self).shared_tier().held(key) is None,
    {
        self.cachelib.clear();
        self.memcache.clear();
    }

    /// Makes the distributed tier reachable, or unreachable.
    pub fn set_memcache_reachable(&mut self, reachable: bool)
        requires
            old(self).wf(),
        ensures
            final(self).wf(),
            final(self).base() == old(self).base(),
            final(self).shared_tier().reachable() == reachable,
    {
        self.memcache.set_reachable(reachable);
    }

    /// Replaces what both tiers hold for a changeset by bytes that are no
    /// entry, as a damaged cache would hold them.
    pub fn damage_cached(&mut self, repo_id: RepositoryId, cs_id: ChangesetId)
        requires
            old(self).wf(),
        ensures
            final(self).wf(),
            final(self).base() == old(self).base(),
            final(self).keygen() == old(self).keygen(),
            final(self).spec_mc_stats() == old(self).spec_mc_stats(),
            put_into(
                old(self).local_tier(),
                final(self).local_tier(),
                cache_key_text(repo_id, cs_id),
                Seq::<u8>::empty(),
            ),
            put_into(
                old(self).shared_tier(),
                final(self).shared_tier(),
                old(self).shared_key(repo_id, cs_id),
                Seq::<u8>::empty(),
            ),
    {
        let cache_key = get_cache_key(repo_id, &cs_id);
        let mc_key = self.keygen.key(cache_key.as_str());
        let ghost entries = self.changesets.entries();
        let ghost local = self.cachelib;
        let ghost shared = self.memcache;
        self.cachelib.set(cache_key, Vec::new());
        self.memcache.set(mc_key, Vec::new());
        proof {
            assert forall|k: Seq<char>, e: ChangesetEntry|
                #![trigger self.cachelib.held(k), crate::changeset_entry::encoded(e@)]
                self.cachelib.held(k) == Some(
                    crate::changeset_entry::encoded(e@),
                ) implies entries.contains_key((e.repo_id, e.cs_id)) && entries[(
                e.repo_id,
                e.cs_id,
            )] == e@ by {
                crate::changeset_entry::lemma_encoded_layout(e@);
                assert(local.held(k) == Some(crate::changeset_entry::encoded(e@)));
            }
            assert forall|k: Seq<char>, e: ChangesetEntry|
                #![trigger self.memcache.held(k), crate::changeset_entry::encoded(e@)]
                self.memcache.held(k) == Some(
                    crate::changeset_entry::encoded(e@),
                ) implies entries.contains_key((e.repo_id, e.cs_id)) && entries[(
                e.repo_id,
                e.cs_id,
            )] == e@ by {
                crate::changeset_entry::lemma_encoded_layout(e@);
                assert(shared.held(k) == Some(crate::changeset_entry::encoded(e@)));
            }
        }
    }

    /// Writes an entry that the store holds to both tiers.
    fn fill(&mut self, entry: &ChangesetEntry, local_only: bool)
        requires
            old(self).wf(),
            old(self).changesets.entries().contains_key((entry.repo_id, entry.cs_id)),
            old(self).changesets.entries()[(entry.repo_id, entry.cs_id)] == entry@,
        ensures
            final(self).wf(),
            final(self).changesets == old(self).changesets,
            final(self).keygen == old(self).keygen,
            final(self).stats == old(self).stats,
            put_into(
                old(self).cachelib,
                final(self).cachelib,
                cache_key_text(entry.repo_id, entry.cs_id),
                crate::changeset_entry::encoded(entry@),
            ),
            local_only ==> same_content(old(self).memcache, final(self).memcache),
            !local_only ==> put_into(
                old(self).memcache,
                final(self).memcache,
                old(self).shared_key(entry.repo_id, entry.cs_id),
                crate::changeset_entry::encoded(entry@),
            ),
    {
        let bytes = serialize_changeset_entry(entry);
        let cache_key = get_cache_key(entry.repo_id, &entry.cs_id);
        let ghost entries = self.changesets.entries();
        if !local_only {
            let mc_key = self.keygen.key(cache_key.as_str());
            let ghost shared = self.memcache;
            let ghost k = mc_key@;
            self.memcache.set(mc_key, bytes.clone());
            proof {
                lemma_set_coherent(shared, self.memcache, k, *entry, entries);
            }
        }
        let ghost local = self.cachelib;
        let ghost k = cache_key@;
        self.cachelib.set(cache_key, bytes);
        proof {
            lemma_set_coherent(local, self.cachelib, k, *entry, entries);
        }
    }

    /// Looks one changeset up in the tiers: the process-local one first,
    /// then the distributed one, whose answer is counted and, where it is
    /// the entry, written to the process-local tier.
    fn get_cached(&mut self, repo_id: RepositoryId, cs_id: ChangesetId) -> (res: Option<
        ChangesetEntry,
    >)
        requires
            old(self).wf(),
        ensures
            final(self).wf(),
            final(self).changesets == old(self).changesets,
            final(self).keygen == old(self).keygen,
            final(self).stats == old(self).counted(repo_id, cs_id),
            res matches Some(entry) ==> entry.repo_id == repo_id && entry.cs_id == cs_id
                && old(self).changesets.entries().contains_key((repo_id, cs_id))
                && old(self).changesets.entries()[(repo_id, cs_id)] == entry@,
            res is Some <==> old(self).cached(repo_id, cs_id),
            same_content(old(self).memcache, final(self).memcache),
            holds_entry_of(old(self).cachelib, cache_key_text(repo_id, cs_id), repo_id, cs_id)
                || res is None ==> same_content(old(self).cachelib, final(self).cachelib),
            res matches Some(entry) ==> (!holds_entry_of(
                old(self).cachelib,
                cache_key_text(repo_id, cs_id),
                repo_id,
                cs_id,
            ) ==> put_into(
                old(self).cachelib,
                final(self).cachelib,
                cache_key_text(repo_id, cs_id),
                crate::changeset_entry::encoded(entry@),
            )),
    {
        let cache_key = get_cache_key(repo_id, &cs_id);
        let local = match self.cachelib.get(&cache_key) {
            Ok(blob) => decode_for(&blob, repo_id, cs_id),
            Err(_) => None,
        };
        if local.is_some() {
            return local;
        }
        let mc_key = self.keygen.key(cache_key.as_str());
        let remote: Result<ChangesetEntry, McErrorKind> = match self.memcache.get(&mc_key) {
            Ok(blob) => match decode_for(&blob, repo_id, cs_id) {
                Some(entry) => Ok(entry),
                None => Err(McErrorKind::Deserialization),
            },
            Err(kind) => Err(kind),
        };
        match remote {
            Ok(entry) => {
                report_mc_result(&mut self.stats, Ok(()));
                self.fill(&entry, true);
                Some(entry)
            },
            Err(kind) => {
                report_mc_result(&mut self.stats, Err(kind));
                None
            },
        }
    }

    /// Looks each of `keys` up in the tiers, once: the entries that the
    /// tiers hold, and the changesets of which they hold none, which are
    /// those that the store has to be asked for.
    pub fn misses(&mut self, repo_id: RepositoryId, keys: &Vec<ChangesetId>) -> (parts: (
        Vec<ChangesetEntry>,
        Vec<ChangesetId>,
    ))
        requires
            old(self).wf(),
        ensures
            final(self).wf(),
            final(self).base() == old(self).base(),
            final(self).keygen() == old(self).keygen(),
            final(self).local_tier().reachable() == old(self).local_tier().reachable(),
            final(self).shared_tier().reachable() == old(self).shared_tier().reachable(),
            forall|c: ChangesetId|
                #![trigger parts.1@.contains(c)]
                #![trigger keys@.contains(c)]
                parts.1@.contains(c) <==> keys@.contains(c) && !old(self).cached(repo_id, c),
            parts.1@.no_duplicates(),
            forall|c: ChangesetId|
                #![trigger keys@.contains(c)]
                (exists|k: int| 0 <= k < parts.0@.len() && (#[trigger] parts.0@[k]).cs_id == c)
                    <==> keys@.contains(c) && old(self).cached(repo_id, c),
            forall|k: int|
                0 <= k < parts.0@.len() ==> (#[trigger] parts.0@[k]).repo_id == repo_id && old(self).entries().contains_key((repo_id, parts.0@[k].cs_id)) && old(self).entries()[(
                    repo_id,
                    parts.0@[k].cs_id,
                )] == parts.0@[k]@,
            forall|k: int, m: int|
                0 <= k < m < parts.0@.len() ==> (#[trigger] parts.0@[k]).cs_id != (
                #[trigger] parts.0@[m]).cs_id,
            final(self).local_tier().reachable() ==> forall|k: int|
                0 <= k < parts.0@.len() ==> holds_entry_of(
                    final(self).local_tier(),
                    cache_key_text(repo_id, (#[trigger] parts.0@[k]).cs_id),
                    repo_id,
                    parts.0@[k].cs_id,
                ),
    {
        let ghost entries = self.changesets.entries();
        let mut found: Vec<ChangesetEntry> = Vec::new();
        let mut left: Vec<ChangesetId> = Vec::new();
        let mut i: usize = 0;
        while i < keys.len()
            invariant
                i <= keys.len(),
                self.wf(),
                self.changesets == old(self).changesets,
                self.keygen == old(self).keygen,
                self.cachelib.reachable() == old(self).cachelib.reachable(),
                self.memcache.reachable() == old(self).memcache.reachable(),
                entries == self.changesets.entries(),
                forall|j: int|
                    0 <= j < keys@.len() && old(self).cached(repo_id, #[trigger] keys@[j])
                        ==> self.cached(repo_id, keys@[j]),
                forall|j: int|
                    0 <= j < keys@.len() && self.cached(repo_id, #[trigger] keys@[j]) ==> old(self).cached(repo_id, keys@[j]) || exists|k: int|
                        0 <= k < found@.len() && (#[trigger] found@[k]).cs_id == keys@[j],
                forall|k: int| 0 <= k < left@.len() ==> !old(self).cached(repo_id, #[trigger] left@[k]),
                forall|k: int|
                    0 <= k < found@.len() ==> old(self).cached(repo_id, (#[trigger] found@[k]).cs_id),
                left@.no_duplicates(),
                self.cachelib.reachable() ==> forall|k: int|
                    0 <= k < found@.len() ==> holds_entry_of(
                        self.cachelib,
                        cache_key_text(repo_id, (#[trigger] found@[k]).cs_id),
                        repo_id,
                        found@[k].cs_id,
                    ),
                forall|k: int|
                    0 <= k < found@.len() ==> (#[trigger] found@[k]).repo_id == repo_id
                        && keys@.contains(found@[k].cs_id) && entries.contains_key(
                        (repo_id, found@[k].cs_id),
                    ) && entries[(repo_id, found@[k].cs_id)] == found@[k]@,
                forall|k: int, m: int|
                    0 <= k < m < found@.len() ==> (#[trigger] found@[k]).cs_id != (
                    #[trigger] found@[m]).cs_id,
                forall|k: int| 0 <= k < left@.len() ==> keys@.contains(#[trigger] left@[k]),
                forall|k: int, m: int|
                    0 <= k < left@.len() && 0 <= m < found@.len() ==> #[trigger] left@[k] != (
                    #[trigger] found@[m]).cs_id,
                forall|j: int|
                    0 <= j < i ==> (exists|k: int|
                        0 <= k < found@.len() && (#[trigger] found@[k]).cs_id == keys@[j])
                        || left@.contains(#[trigger] keys@[j]),
            decreases keys.len() - i,
        {
            let key = keys[i];
            let ghost found_before = found@;
            let ghost left_before = left@;
            let ghost local_before = self.cachelib;
            let ghost shared_before = self.memcache;
            let ghost was_cached = self.cached(repo_id, key);
            if !(has_entry(&found, key) || contains_id(&left, key)) {
                match self.get_cached(repo_id, key) {
                    Some(entry) => {
                        found.push(entry);
                        assert(found@[found_before.len() as int].cs_id == key);
                        proof {
                            let local = self.cachelib;
                            assert(was_cached);
                            assert(keys@[i as int] == key);
                            assert(old(self).cached(repo_id, key));
                            assert forall|j: int|
                                0 <= j < keys@.len() && self.cached(
                                    repo_id,
                                    #[trigger] keys@[j],
                                ) implies old(self).cached(repo_id, keys@[j]) || exists|k: int|
                                0 <= k < found@.len() && (#[trigger] found@[k]).cs_id == keys@[j] by {
                                let c = keys@[j];
                                if c == key {
                                    assert(found@[found_before.len() as int].cs_id == c);
                                } else {
                                    if cache_key_text(repo_id, key) == cache_key_text(repo_id, c) {
                                        law_keys_tell_changesets_apart(repo_id, key, repo_id, c);
                                    }
                                    lemma_cached_before(
                                        local_before,
                                        local,
                                        shared_before,
                                        self.memcache,
                                        cache_key_text(repo_id, key),
                                        crate::changeset_entry::encoded(entry@),
                                        cache_key_text(repo_id, c),
                                        self.shared_key(repo_id, c),
                                        repo_id,
                                        c,
                                    );
                                    if !old(self).cached(repo_id, c) {
                                        let k = choose|k: int|
                                            0 <= k < found_before.len() && (
                                            #[trigger] found_before[k]).cs_id == c;
                                        assert(found@[k].cs_id == c);
                                    }
                                }
                            }
                            assert forall|k: int| 0 <= k < found@.len() implies old(self).cached(
                                repo_id,
                                (#[trigger] found@[k]).cs_id,
                            ) by {
                                if k < found_before.len() {
                                    assert(found@[k] == found_before[k]);
                                }
                            }
                            let held = holds_entry_of(
                                local_before,
                                cache_key_text(repo_id, key),
                                repo_id,
                                key,
                            );
                            assert forall|j: int|
                                0 <= j < keys@.len() && old(self).cached(
                                    repo_id,
                                    #[trigger] keys@[j],
                                ) implies self.cached(repo_id, keys@[j]) by {
                                let c = keys@[j];
                                if holds_entry_of(local_before, cache_key_text(repo_id, c), repo_id, c) {
                                    lemma_local_keeps(local_before, local, entry, repo_id, c);
                                } else {
                                    lemma_same_keeps(
                                        shared_before,
                                        self.memcache,
                                        self.shared_key(repo_id, c),
                                        repo_id,
                                        c,
                                    );
                                }
                            }
                            if local.reachable() {
                                assert forall|k: int| 0 <= k < found@.len() implies holds_entry_of(
                                    local,
                                    cache_key_text(repo_id, (#[trigger] found@[k]).cs_id),
                                    repo_id,
                                    found@[k].cs_id,
                                ) by {
                                    if k < found_before.len() {
                                        assert(found@[k] == found_before[k]);
                                        lemma_local_keeps(
                                            local_before,
                                            local,
                                            entry,
                                            repo_id,
                                            found@[k].cs_id,
                                        );
                                    } else if held {
                                        lemma_local_keeps(local_before, local, entry, repo_id, key);
                                    } else {
                                        lemma_put_is_held(
                                            local_before,
                                            local,
                                            cache_key_text(repo_id, key),
                                            entry,
                                        );
                                    }
                                }
                            }
                        }
                    },
                    None => {
                        left.push(key);
                        assert(left@[left_before.len() as int] == key);
                        proof {
                            assert(!was_cached);
                            assert(keys@[i as int] == key);
                            assert(!old(self).cached(repo_id, key));
                            assert forall|j: int|
                                0 <= j < keys@.len() && self.cached(
                                    repo_id,
                                    #[trigger] keys@[j],
                                ) implies old(self).cached(repo_id, keys@[j]) || exists|k: int|
                                0 <= k < found@.len() && (#[trigger] found@[k]).cs_id == keys@[j] by {
                                let c = keys@[j];
                                lemma_cached_before(
                                    local_before,
                                    self.cachelib,
                                    shared_before,
                                    self.memcache,
                                    cache_key_text(repo_id, key),
                                    Seq::<u8>::empty(),
                                    cache_key_text(repo_id, c),
                                    self.shared_key(repo_id, c),
                                    repo_id,
                                    c,
                                );
                            }
                            assert forall|k: int| 0 <= k < left@.len() implies !old(self).cached(
                                repo_id,
                                #[trigger] left@[k],
                            ) by {
                                if k < left_before.len() {
                                    assert(left@[k] == left_before[k]);
                                }
                            }
                            assert(left@.no_duplicates()) by {
                                assert forall|a: int, b: int|
                                    0 <= a < left@.len() && 0 <= b < left@.len() && a != b implies left@[a]
                                    != left@[b] by {
                                    if a < left_before.len() && b < left_before.len() {
                                        assert(left_before[a] != left_before[b]);
                                    } else if a < left_before.len() {
                                        assert(left_before.contains(left_before[a]));
                                    } else {
                                        assert(left_before.contains(left_before[b]));
                                    }
                                }
                            }
                            assert forall|j: int|
                                0 <= j < keys@.len() && old(self).cached(
                                    repo_id,
                                    #[trigger] keys@[j],
                                ) implies self.cached(repo_id, keys@[j]) by {
                                let c = keys@[j];
                                if holds_entry_of(local_before, cache_key_text(repo_id, c), repo_id, c) {
                                    lemma_same_keeps(
                                        local_before,
                                        self.cachelib,
                                        cache_key_text(repo_id, c),
                                        repo_id,
                                        c,
                                    );
                                } else {
                                    lemma_same_keeps(
                                        shared_before,
                                        self.memcache,
                                        self.shared_key(repo_id, c),
                                        repo_id,
                                        c,
                                    );
                                }
                            }
                            if self.cachelib.reachable() {
                                assert forall|k: int| 0 <= k < found@.len() implies holds_entry_of(
                                    self.cachelib,
                                    cache_key_text(repo_id, (#[trigger] found@[k]).cs_id),
                                    repo_id,
                                    found@[k].cs_id,
                                ) by {
                                    lemma_same_keeps(
                                        local_before,
                                        self.cachelib,
                                        cache_key_text(repo_id, found@[k].cs_id),
                                        repo_id,
                                        found@[k].cs_id,
                                    );
                                }
                            }
                        }
                    },
                }
            }
            proof {
                assert forall|j: int| 0 <= j < i + 1 implies (exists|k: int|
                    0 <= k < found@.len() && (#[trigger] found@[k]).cs_id == keys@[j])
                    || left@.contains(#[trigger] keys@[j]) by {
                    if j < i {
                        if left_before.contains(keys@[j]) {
                            let k = choose|k: int| 0 <= k < left_before.len() && left_before[k] == keys@[j];
                            assert(left@[k] == keys@[j]);
                        } else {
                            let k = choose|k: int|
                                0 <= k < found_before.len() && (#[trigger] found_before[k]).cs_id
                                    == keys@[j];
                            assert(found@[k].cs_id == keys@[j]);
                        }
                    } else {
                        if left_before.contains(key) {
                            let k = choose|k: int| 0 <= k < left_before.len() && left_before[k] == key;
                            assert(left@[k] == key);
                        } else if exists|k: int|
                            0 <= k < found_before.len() && (#[trigger] found_before[k]).cs_id == key {
                            let k = choose|k: int|
                                0 <= k < found_before.len() && (#[trigger] found_before[k]).cs_id == key;
                            assert(found@[k].cs_id == key);
                        }
                    }
                }
            }
            i += 1;
        }
        proof {
            assert forall|c: ChangesetId|
                left@.contains(c) <==> keys@.contains(c) && !old(self).cached(repo_id, c) by {
                if left@.contains(c) {
                    let k = choose|k: int| 0 <= k < left@.len() && left@[k] == c;
                    assert(keys@.contains(left@[k]));
                }
                if keys@.contains(c) && !old(self).cached(repo_id, c) {
                    let j = choose|j: int| 0 <= j < keys@.len() && keys@[j] == c;
                    assert((exists|k: int|
                        0 <= k < found@.len() && (#[trigger] found@[k]).cs_id == keys@[j])
                        || left@.contains(keys@[j]));
                }
            }
            assert forall|c: ChangesetId|
                (exists|k: int| 0 <= k < found@.len() && (#[trigger] found@[k]).cs_id == c)
                    <==> keys@.contains(c) && old(self).cached(repo_id, c) by {
                if keys@.contains(c) && old(self).cached(repo_id, c) {
                    let j = choose|j: int| 0 <= j < keys@.len() && keys@[j] == c;
                    assert((exists|k: int|
                        0 <= k < found@.len() && (#[trigger] found@[k]).cs_id == keys@[j])
                        || left@.contains(keys@[j]));
                    if left@.contains(c) {
                        let k = choose|k: int| 0 <= k < left@.len() && left@[k] == c;
                        assert(!old(self).cached(repo_id, left@[k]));
                    }
                }
            }
        }
        (found, left)
    }

    /// Gets the entries of `keys` from the tiers, or fills the tiers with
    /// them from the store.
    pub fn run(&mut self, repo_id: RepositoryId, keys: Vec<ChangesetId>) -> (res: Result<
        Vec<ChangesetEntry>,
        Error,
    >)
        requires
            old(self).wf(),
        ensures
            final(self).wf(),
            final(self).entries() == old(self).entries(),
            final(self).keygen() == old(self).keygen(),
            final(self).local_tier().reachable() == old(self).local_tier().reachable(),
            final(self).shared_tier().reachable() == old(self).shared_tier().reachable(),
            res matches Ok(found) ==> crate::changesets::is_entries_of(
                found@,
                old(self).entries(),
                repo_id,
                keys@,
            ),
            (forall|i: int| 0 <= i < keys@.len() ==> old(self).cached(repo_id, #[trigger] keys@[i]))
                ==> res is Ok,
            res matches Ok(found) ==> final(self).local_tier().reachable() ==> forall|k: int|
                0 <= k < found@.len() ==> holds_entry_of(
                    final(self).local_tier(),
                    cache_key_text(repo_id, (#[trigger] found@[k]).cs_id),
                    repo_id,
                    found@[k].cs_id,
                ),
    {
        let ghost entries = self.changesets.entries();
        let ghost all_cached = forall|i: int|
            0 <= i < keys@.len() ==> old(self).cached(repo_id, #[trigger] keys@[i]);
        let parts = self.misses(repo_id, &keys);
        let mut found = parts.0;
        let left = parts.1;
        proof {
            if all_cached && left@.len() > 0 {
                assert(left@.contains(left@[0]));
                let j = choose|j: int| 0 <= j < keys@.len() && keys@[j] == left@[0];
                assert(old(self).cached(repo_id, keys@[j]));
            }
            assert forall|k: int| 0 <= k < found@.len() implies keys@.contains(
                (#[trigger] found@[k]).cs_id,
            ) by {}
            assert forall|k: int, m: int|
                0 <= k < left@.len() && 0 <= m < found@.len() implies #[trigger] left@[k] != (
            #[trigger] found@[m]).cs_id by {
                assert(left@.contains(left@[k]));
            }
            assert forall|j: int| 0 <= j < keys@.len() implies (exists|k: int|
                0 <= k < found@.len() && (#[trigger] found@[k]).cs_id == keys@[j])
                || left@.contains(#[trigger] keys@[j]) by {
                assert(keys@.contains(keys@[j]));
            }
        }
        if left.len() > 0 {
            let ghost asked = left@;
            let ghost cached = found@;
            let fetched = self.changesets.get_many(repo_id, left)?;
            let mut j: usize = 0;
            while j < fetched.len()
                invariant
                    j <= fetched.len(),
                    self.wf(),
                    self.keygen == old(self).keygen,
                    self.cachelib.reachable() == old(self).cachelib.reachable(),
                    self.memcache.reachable() == old(self).memcache.reachable(),
                    entries == self.changesets.entries(),
                    entries == old(self).changesets.entries(),
                    crate::changesets::is_entries_of(fetched@, entries, repo_id, asked),
                    found@.len() == cached.len() + j,
                    forall|k: int| 0 <= k < cached.len() ==> found@[k] == cached[k],
                    forall|k: int| 0 <= k < j ==> (#[trigger] found@[cached.len() + k])@ == fetched@[k]@,
                    self.cachelib.reachable() ==> forall|k: int|
                        0 <= k < found@.len() ==> holds_entry_of(
                            self.cachelib,
                            cache_key_text(repo_id, (#[trigger] found@[k]).cs_id),
                            repo_id,
                            found@[k].cs_id,
                        ),
                decreases fetched.len() - j,
            {
                let entry = fetched[j].duplicate();
                proof {
                    assert(fetched@[j as int].repo_id == repo_id);
                    assert(entries.contains_key((repo_id, fetched@[j as int].cs_id)));
                }
                let ghost local_before = self.cachelib;
                let ghost found_before = found@;
                self.fill(&entry, false);
                found.push(entry);
                proof {
                    let local = self.cachelib;
                    if local.reachable() {
                        assert forall|k: int| 0 <= k < found@.len() implies holds_entry_of(
                            local,
                            cache_key_text(repo_id, (#[trigger] found@[k]).cs_id),
                            repo_id,
                            found@[k].cs_id,
                        ) by {
                            if k < found_before.len() {
                                assert(found@[k] == found_before[k]);
                                lemma_local_keeps(local_before, local, entry, repo_id, found@[k].cs_id);
                            } else {
                                lemma_put_is_held(
                                    local_before,
                                    local,
                                    cache_key_text(repo_id, entry.cs_id),
                                    entry,
                                );
                            }
                        }
                    }
                }
                j += 1;
            }
            proof {
                assert forall|k: int| 0 <= k < found@.len() implies keys@.contains(
                    (#[trigger] found@[k]).cs_id,
                ) && found@[k].repo_id == repo_id && entries.contains_key((repo_id, found@[k].cs_id))
                    && entries[(repo_id, found@[k].cs_id)] == found@[k]@ by {
                    if k >= cached.len() {
                        let f = fetched@[k - cached.len()];
                        assert(found@[cached.len() + (k - cached.len())]@ == f@);
                        assert(asked.contains(f.cs_id));
                        let a = choose|a: int| 0 <= a < asked.len() && asked[a] == f.cs_id;
                        assert(keys@.contains(asked[a]));
                    } else {
                        assert(found@[k] == cached[k]);
                    }
                }
                assert forall|k: int, m: int| 0 <= k < m < found@.len() implies (
                #[trigger] found@[k]).cs_id != (#[trigger] found@[m]).cs_id by {
                    if m < cached.len() {
                        assert(found@[k] == cached[k] && found@[m] == cached[m]);
                    } else if k < cached.len() {
                        let f = fetched@[m - cached.len()];
                        assert(found@[cached.len() + (m - cached.len())]@ == f@);
                        assert(asked.contains(f.cs_id));
                        let a = choose|a: int| 0 <= a < asked.len() && asked[a] == f.cs_id;
                        assert(found@[k] == cached[k]);
                        assert(asked[a] != cached[k].cs_id);
                    } else {
                        let f = fetched@[k - cached.len()];
                        let g = fetched@[m - cached.len()];
                        assert(found@[cached.len() + (k - cached.len())]@ == f@);
                        assert(found@[cached.len() + (m - cached.len())]@ == g@);
                        assert(f.cs_id != g.cs_id);
                    }
                }
                assert forall|n: int|
                    0 <= n < keys@.len() && entries.contains_key(
                        (repo_id, #[trigger] keys@[n]),
                    ) implies exists|k: int|
                    0 <= k < found@.len() && (#[trigger] found@[k]).cs_id == keys@[n] by {
                    if asked.contains(keys@[n]) {
                        let a = choose|a: int| 0 <= a < asked.len() && asked[a] == keys@[n];
                        assert(entries.contains_key((repo_id, asked[a])));
                        let f = choose|f: int|
                            0 <= f < fetched@.len() && (#[trigger] fetched@[f]).cs_id == asked[a];
                        assert(found@[cached.len() + f]@ == fetched@[f]@);
                    } else {
                        let k = choose|k: int|
                            0 <= k < cached.len() && (#[trigger] cached[k]).cs_id == keys@[n];
                        assert(found@[k] == cached[k]);
                    }
                }
            }
        } else {
            proof {
                assert forall|n: int|
                    0 <= n < keys@.len() && entries.contains_key(
                        (repo_id, #[trigger] keys@[n]),
                    ) implies exists|k: int|
                    0 <= k < found@.len() && (#[trigger] found@[k]).cs_id == keys@[n] by {
                    assert(!left@.contains(keys@[n]));
                }
            }
        }
        Ok(found)
    }
}


impl<C: Changesets> Changesets for CachingChangesets<C> {
    /// The store is sound, and what the tiers hold comes from it.
    open spec fn wf(&self) -> bool {
        &&& self.base().wf()
        &&& coherent(self.local_tier(), self.base().entries())
        &&& coherent(self.shared_tier(), self.base().entries())
    }

    /// The entries of the store behind the cache: the tiers add none and
    /// hide none.
    open spec fn entries(&self) -> Map<(RepositoryId, ChangesetId), ChangesetEntryView> {
        self.base().entries()
    }

    proof fn keyed_by_identity(&self) {
        self.changesets.keyed_by_identity();
    }

    /// Hands the changeset to the store behind the cache. The tiers and the
    /// counters stay as they are: a changeset is cached when it is read.
    fn add(&mut self, cs: ChangesetInsert) -> (res: Result<bool, Error>)
        ensures
            final(self).local_tier() == old(self).local_tier(),
            final(self).shared_tier() == old(self).shared_tier(),
            final(self).keygen() == old(self).keygen(),
            final(self).spec_mc_stats() == old(self).spec_mc_stats(),
    {
        let ghost before = self.changesets.entries();
        let res = self.changesets.add(cs);
        proof {
            let after = self.changesets.entries();
            assert(before.submap_of(after)) by {
                if res matches Ok(true) {
                    assert(!before.contains_key((cs.repo_id, cs.cs_id)));
                }
            }
            lemma_grown_coherent(self.cachelib, before, after);
            lemma_grown_coherent(self.memcache, before, after);
        }
        res
    }

    /// Looks the tiers up, then the store, and counts what the distributed
    /// tier gave where it was asked.
    fn get(&mut self, repo_id: RepositoryId, cs_id: ChangesetId) -> (res: Result<
        Option<ChangesetEntry>,
        Error,
    >)
        ensures
            final(self).spec_mc_stats() == old(self).counted(repo_id, cs_id),
            final(self).keygen() == old(self).keygen(),
            final(self).local_tier().reachable() == old(self).local_tier().reachable(),
            final(self).shared_tier().reachable() == old(self).shared_tier().reachable(),
            old(self).cached(repo_id, cs_id) ==> res is Ok,
            res matches Ok(Some(_)) && final(self).local_tier().reachable() ==> holds_entry_of(
                final(self).local_tier(),
                cache_key_text(repo_id, cs_id),
                repo_id,
                cs_id,
            ),
    {
        match self.get_cached(repo_id, cs_id) {
            Some(entry) => {
                return Ok(Some(entry));
            },
            None => {},
        }
        match self.changesets.get(repo_id, cs_id)? {
            Some(entry) => {
                self.fill(&entry, false);
                Ok(Some(entry))
            },
            None => Ok(None),
        }
    }

    /// Gets the entries from the tiers, and from the store those that the
    /// tiers lack: the store is not asked, and the lookup succeeds, where
    /// the tiers hold them all. Every entry returned is in the process-local
    /// tier afterwards, where that tier can be reached.
    fn get_many(&mut self, repo_id: RepositoryId, cs_ids: Vec<ChangesetId>) -> (res: Result<
        Vec<ChangesetEntry>,
        Error,
    >)
        ensures
            final(self).keygen() == old(self).keygen(),
            final(self).local_tier().reachable() == old(self).local_tier().reachable(),
            final(self).shared_tier().reachable() == old(self).shared_tier().reachable(),
            (forall|i: int|
                0 <= i < cs_ids@.len() ==> old(self).cached(repo_id, #[trigger] cs_ids@[i]))
                ==> res is Ok,
            res matches Ok(found) ==> final(self).local_tier().reachable() ==> forall|k: int|
                0 <= k < found@.len() ==> holds_entry_of(
                    final(self).local_tier(),
                    cache_key_text(repo_id, (#[trigger] found@[k]).cs_id),
                    repo_id,
                    found@[k].cs_id,
                ),
    {
        self.run(repo_id, cs_ids)
    }

    /// Use caching for the full changeset ids and slower path otherwise.
    ///
    /// A prefix that is a whole id is looked up as `get` looks it up: the
    /// lookup is counted as there, and succeeds without the store where a
    /// tier holds the entry. Any other prefix goes to the store, past the
    /// tiers and the counters.
    fn get_many_by_prefix(
        &mut self,
        repo_id: RepositoryId,
        cs_prefix: ChangesetIdPrefix,
        limit: usize,
    ) -> (res: Result<ChangesetIdsResolvedFromPrefix, Error>)
        ensures
            final(self).keygen() == old(self).keygen(),
            final(self).local_tier().reachable() == old(self).local_tier().reachable(),
            final(self).shared_tier().reachable() == old(self).shared_tier().reachable(),
            cs_prefix.len >= 64 ==> {
                let id = ChangesetId { hi: cs_prefix.hi, lo: cs_prefix.lo };
                &&& final(self).spec_mc_stats() == old(self).counted(repo_id, id)
                &&& old(self).cached(repo_id, id) ==> res is Ok
                &&& res is Ok && old(self).entries().contains_key((repo_id, id)) && final(self).local_tier().reachable() ==> holds_entry_of(
                    final(self).local_tier(),
                    cache_key_text(repo_id, id),
                    repo_id,
                    id,
                )
            },
            cs_prefix.len < 64 ==> final(self).spec_mc_stats() == old(self).spec_mc_stats()
                && final(self).local_tier() == old(self).local_tier() && final(self).shared_tier()
                == old(self).shared_tier(),
    {
        match cs_prefix.into_changeset_id() {
            Some(id) => {
                let found = self.get(repo_id, id)?;
                proof {
                    assert forall|other: ChangesetId| cs_prefix.matches(other) implies other == id by {
                        assert(other.hi == id.hi && other.lo == id.lo);
                    }
                }
                return match found {
                    Some(_) => {
                        if limit > 0 {
                            assert(crate::changesets::is_match(self.entries(), repo_id, cs_prefix, id));
                            Ok(ChangesetIdsResolvedFromPrefix::Single(id))
                        } else {
                            Ok(ChangesetIdsResolvedFromPrefix::NoMatch)
                        }
                    },
                    None => {
                        assert forall|other: ChangesetId|
                            !crate::changesets::is_match(self.entries(), repo_id, cs_prefix, other) by {
                            if cs_prefix.matches(other) {
                                assert(other == id);
                            }
                        }
                        Ok(ChangesetIdsResolvedFromPrefix::NoMatch)
                    },
                };
            },
            None => {},
        }
        self.changesets.get_many_by_prefix(repo_id, cs_prefix, limit)
    }

    /// Writes the entries to the process-local tier, each under the key of
    /// its changeset: where that tier can be reached it holds them all
    /// afterwards. The distributed tier and the counters stay as they are.
    fn prime_cache(&mut self, changesets: &[ChangesetEntry])
        ensures
            final(self).keygen() == old(self).keygen(),
            final(self).spec_mc_stats() == old(self).spec_mc_stats(),
            same_content(old(self).shared_tier(), final(self).shared_tier()),
            final(self).local_tier().reachable() == old(self).local_tier().reachable(),
            final(self).local_tier().reachable() ==> forall|k: int|
                0 <= k < changesets@.len() ==> holds_entry_of(
                    final(self).local_tier(),
                    cache_key_text((#[trigger] changesets@[k]).repo_id, changesets@[k].cs_id),
                    changesets@[k].repo_id,
                    changesets@[k].cs_id,
                ),
    {
        let mut i: usize = 0;
        while i < changesets.len()
            invariant
                i <= changesets.len(),
                self.wf(),
                self.changesets == old(self).changesets,
                self.keygen == old(self).keygen,
                self.stats == old(self).stats,
                same_content(old(self).memcache, self.memcache),
                self.cachelib.reachable() == old(self).cachelib.reachable(),
                self.cachelib.reachable() ==> forall|k: int|
                    0 <= k < i ==> holds_entry_of(
                        self.cachelib,
                        cache_key_text((#[trigger] changesets@[k]).repo_id, changesets@[k].cs_id),
                        changesets@[k].repo_id,
                        changesets@[k].cs_id,
                    ),
                forall|i: int|
                    0 <= i < changesets@.len() ==> crate::changesets::entry_of(
                        self.changesets.entries(),
                        (#[trigger] changesets@[i]).repo_id,
                        changesets@[i].cs_id,
                    ) == Some(changesets@[i]@),
            decreases changesets.len() - i,
        {
            let cs = &changesets[i];
            assert(crate::changesets::entry_of(self.changesets.entries(), cs.repo_id, cs.cs_id)
                == Some(cs@));
            let ghost local_before = self.cachelib;
            self.fill(cs, true);
            proof {
                let local = self.cachelib;
                if local.reachable() {
                    assert forall|k: int| 0 <= k < i + 1 implies holds_entry_of(
                        local,
                        cache_key_text((#[trigger] changesets@[k]).repo_id, changesets@[k].cs_id),
                        changesets@[k].repo_id,
                        changesets@[k].cs_id,
                    ) by {
                        if k < i {
                            lemma_local_keeps(
                                local_before,
                                local,
                                *cs,
                                changesets@[k].repo_id,
                                changesets@[k].cs_id,
                            );
                        } else {
                            lemma_put_is_held(
                                local_before,
                                local,
                                cache_key_text(cs.repo_id, cs.cs_id),
                                *cs,
                            );
                        }
                    }
                }
            }
            i += 1;
        }
    }
}


/// What a lookup through the cache returns is what a lookup in the store
/// behind it returns, whatever the tiers hold: nothing, the entry, or bytes
/// that are no entry.
pub proof fn law_cache_is_transparent<C: Changesets>(
    caching: CachingChangesets<C>,
    repo_id: RepositoryId,
    cs_id: ChangesetId,
    through: Option<ChangesetEntry>,
    direct: Option<ChangesetEntry>,
)
    requires
        crate::changesets::view_of(through) == crate::changesets::entry_of(
            caching.entries(),
            repo_id,
            cs_id,
        ),
        crate::changesets::view_of(direct) == crate::changesets::entry_of(
            caching.base().entries(),
            repo_id,
            cs_id,
        ),
    ensures
        crate::changesets::view_of(through) == crate::changesets::view_of(direct),
{
}


/// The versions are part of the key: keys that are made for the same use
/// site and the same entry, and are equal, name the same version of the
/// code and of the layout. So what another version wrote is not found.
pub proof fn law_versions_tell_keys_apart(a: KeyGen, b: KeyGen, key: Seq<char>)
    requires
        a.prefix() == b.prefix(),
        a.key_text(key) == b.key_text(key),
    ensures
        a.codever() == b.codever(),
        a.sitever() == b.sitever(),
{
    reveal_strlit(":c");
    reveal_strlit(":s");
    reveal_strlit(":");
    let colon = ":"@[0];
    assert(!crate::text::is_decimal_digit(colon)) by {
        assert forall|d: int| 0 <= d < 10 implies colon != #[trigger] crate::text::hex_digit(d) by {}
    }
    let code_a = crate::text::decimal(a.codever() as nat);
    let code_b = crate::text::decimal(b.codever() as nat);
    let site_a = crate::text::decimal(a.sitever() as nat);
    let site_b = crate::text::decimal(b.sitever() as nat);
    crate::text::lemma_decimal_is_digits(a.codever() as nat);
    crate::text::lemma_decimal_is_digits(b.codever() as nat);
    crate::text::lemma_decimal_is_digits(a.sitever() as nat);
    crate::text::lemma_decimal_is_digits(b.sitever() as nat);
    let head = a.prefix() + ":c"@;
    let tail_a = ":s"@ + site_a + ":"@ + key;
    let tail_b = ":s"@ + site_b + ":"@ + key;
    assert(a.key_text(key) =~= head + (code_a + tail_a));
    assert(b.key_text(key) =~= head + (code_b + tail_b));
    assert(code_a + tail_a =~= (head + (code_a + tail_a)).subrange(
        head.len() as int,
        (head + (code_a + tail_a)).len() as int,
    ));
    assert(code_b + tail_b =~= (head + (code_b + tail_b)).subrange(
        head.len() as int,
        (head + (code_b + tail_b)).len() as int,
    ));
    assert(tail_a[0] == colon);
    assert(tail_b[0] == colon);
    crate::text::lemma_digits_end_where_they_end(code_a, tail_a, code_b, tail_b);
    crate::text::lemma_decimal_injective(a.codever() as nat, b.codever() as nat);
    let end_a = ":"@ + key;
    assert(tail_a =~= ":s"@ + (site_a + end_a));
    assert(tail_b =~= ":s"@ + (site_b + end_a));
    assert(site_a + end_a =~= tail_a.subrange(2, tail_a.len() as int));
    assert(site_b + end_a =~= tail_b.subrange(2, tail_b.len() as int));
    assert(end_a[0] == colon);
    crate::text::lemma_digits_end_where_they_end(site_a, end_a, site_b, end_a);
    crate::text::lemma_decimal_injective(a.sitever() as nat, b.sitever() as nat);
}


/// Keys do not collide: two changesets with the same key in the
/// process-local tier are the same changeset of the same repository.
pub proof fn law_keys_tell_changesets_apart(
    repo_a: RepositoryId,
    cs_a: ChangesetId,
    repo_b: RepositoryId,
    cs_b: ChangesetId,
)
    requires
        cache_key_text(repo_a, cs_a) == cache_key_text(repo_b, cs_b),
    ensures
        repo_a == repo_b,
        cs_a == cs_b,
{
    reveal_strlit(".");
    let key_a = cache_key_text(repo_a, cs_a);
    let key_b = cache_key_text(repo_b, cs_b);
    let len = key_a.len() as int;
    assert(cs_a.hex().len() == 64 && cs_b.hex().len() == 64);
    assert(cs_a.hex() =~= key_a.subrange(len - 64, len));
    assert(cs_b.hex() =~= key_b.subrange(len - 64, len));
    crate::types::lemma_hex_tells_ids_apart(cs_a, cs_b);
    assert(repo_a.prefix_text() =~= key_a.subrange(0, len - 65));
    assert(repo_b.prefix_text() =~= key_b.subrange(0, len - 65));
    crate::types::lemma_prefix_tells_repositories_apart(repo_a, repo_b);
}


/// Bytes in the cache that cannot be read change the counters, and nothing
/// else that a lookup returns: where neither tier holds the entry of a
/// changeset, and the distributed tier holds something under its key, the
/// lookup counts one failure to read, and no hit and no miss.
pub proof fn law_unreadable_bytes_are_counted<C: Changesets>(
    caching: CachingChangesets<C>,
    repo_id: RepositoryId,
    cs_id: ChangesetId,
)
    requires
        !holds_entry_of(caching.local_tier(), cache_key_text(repo_id, cs_id), repo_id, cs_id),
        caching.shared_tier().reachable(),
        caching.shared_tier().held(caching.keygen().key_text(cache_key_text(repo_id, cs_id))) is Some,
        !holds_entry_of(
            caching.shared_tier(),
            caching.keygen().key_text(cache_key_text(repo_id, cs_id)),
            repo_id,
            cs_id,
        ),
    ensures
        caching.counted(repo_id, cs_id) == (McStats {
            memcache_deserialize_err: bumped(caching.spec_mc_stats().memcache_deserialize_err),
            ..caching.spec_mc_stats()
        }),
{
}

} // verus!
