//! A mapping behind the two-tier cache.
//!
//! `get` asks the process-local tier, then the distributed tier, then the
//! mapping underneath, and fills the tiers that missed on the way back.
//! `put` writes through to the mapping underneath and to both tiers. The
//! mapping underneath is the source of truth: the tiers add no value and
//! hide none.

use crate::caching::{report_mc_result, KeyGen, McErrorKind, McStats, MockStore, MockStoreStats};
use crate::changeset_entry::{push_id, read_id};
use crate::error::Error;
use crate::generation::Generation;
use crate::mapping::{contains_id, find_value, BonsaiDerivedMapping};
use crate::types::{ChangesetId, RepositoryId};
use vstd::bytes::{u64_from_le_bytes, u64_to_le_bytes};
use vstd::prelude::*;
use vstd::slice::slice_subrange;
use vstd::string::StringExecFns;

verus! {

/// Values that have a form in bytes, in which a cache can hold them.
pub trait Cacheable: Copy {
    /// The bytes of a value.
    spec fn bytes_of(self) -> Seq<u8>;

    /// No two values have the same bytes.
    proof fn bytes_tell_values_apart(a: Self, b: Self)
        requires
            a.bytes_of() == b.bytes_of(),
        ensures
            a == b,
    ;

    fn serialize(&self) -> (bytes: Vec<u8>)
        ensures
            bytes@ == self.bytes_of(),
    ;

    /// Reads a value from its bytes; bytes of no value give none.
    fn deserialize(bytes: &[u8]) -> (res: Option<Self>)
        ensures
            res matches Some(value) ==> value.bytes_of() == bytes@,
            res is None ==> forall|value: Self| value.bytes_of() != bytes@,
    ;
}

impl Cacheable for Generation {
    /// The number in eight bytes, the least significant first.
    open spec fn bytes_of(self) -> Seq<u8> {
        vstd::bytes::spec_u64_to_le_bytes(self.value)
    }

    proof fn bytes_tell_values_apart(a: Self, b: Self) {
        vstd::bytes::lemma_auto_spec_u64_to_from_le_bytes();
        assert(vstd::bytes::spec_u64_from_le_bytes(vstd::bytes::spec_u64_to_le_bytes(a.value))
            == a.value);
        assert(vstd::bytes::spec_u64_from_le_bytes(vstd::bytes::spec_u64_to_le_bytes(b.value))
            == b.value);
    }

    fn serialize(&self) -> (bytes: Vec<u8>) {
        u64_to_le_bytes(self.value)
    }

    fn deserialize(bytes: &[u8]) -> (res: Option<Self>) {
        proof {
            vstd::bytes::lemma_auto_spec_u64_to_from_le_bytes();
        }
        if bytes.len() != 8 {
            assert forall|value: Self| value.bytes_of() != bytes@ by {
                assert(vstd::bytes::spec_u64_to_le_bytes(value.value).len() == 8);
            }
            return None;
        }
        let value = u64_from_le_bytes(bytes);
        assert(vstd::bytes::spec_u64_to_le_bytes(vstd::bytes::spec_u64_from_le_bytes(bytes@))
            == bytes@);
        Some(Generation { value })
    }
}

/// The blob that a cache holds for the value `value` of `csid`: the id, so
/// that a blob says whose value it is, and the bytes of the value.
pub open spec fn blob_of<V: Cacheable>(csid: ChangesetId, value: V) -> Seq<u8> {
    crate::changeset_entry::id_bytes(csid) + value.bytes_of()
}

/// No two values of changesets have the same blob.
pub proof fn lemma_blobs_tell_values_apart<V: Cacheable>(
    a: ChangesetId,
    value_a: V,
    b: ChangesetId,
    value_b: V,
)
    requires
        blob_of(a, value_a) == blob_of(b, value_b),
    ensures
        a == b,
        value_a == value_b,
{
    crate::changeset_entry::lemma_id_bytes_len(a);
    crate::changeset_entry::lemma_id_bytes_len(b);
    let blob = blob_of(a, value_a);
    assert(crate::changeset_entry::id_bytes(a) =~= blob.subrange(0, 32));
    assert(crate::changeset_entry::id_bytes(b) =~= blob_of(b, value_b).subrange(0, 32));
    crate::changeset_entry::lemma_id_bytes_injective(a, b);
    assert(value_a.bytes_of() =~= blob.subrange(32, blob.len() as int));
    assert(value_b.bytes_of() =~= blob_of(b, value_b).subrange(32, blob.len() as int));
    V::bytes_tell_values_apart(value_a, value_b);
}

fn encode_value<V: Cacheable>(csid: ChangesetId, value: &V) -> (blob: Vec<u8>)
    ensures
        blob@ == blob_of(csid, *value),
{
    let mut blob: Vec<u8> = Vec::new();
    push_id(&mut blob, csid);
    let mut bytes = value.serialize();
    blob.append(&mut bytes);
    assert(blob@ =~= blob_of(csid, *value));
    blob
}

/// Reads from `blob` the value of `csid`: there is none where the blob is
/// that of another changeset, or no blob of a value at all.
pub fn decode_value<V: Cacheable>(blob: &Vec<u8>, csid: ChangesetId) -> (res: Option<V>)
    ensures
        res matches Some(value) ==> blob@ == blob_of(csid, value),
        res is None ==> forall|value: V| blob@ != blob_of(csid, value),
{
    proof {
        crate::changeset_entry::lemma_id_bytes_len(csid);
    }
    if blob.len() < 32 {
        return None;
    }
    let id = read_id(blob.as_slice(), 0);
    if id != csid {
        proof {
            assert forall|value: V| blob@ != blob_of(csid, value) by {
                if blob@ == blob_of(csid, value) {
                    assert(crate::changeset_entry::id_bytes(csid) =~= blob@.subrange(0, 32));
                    crate::changeset_entry::lemma_id_bytes_injective(id, csid);
                }
            }
        }
        return None;
    }
    let rest = slice_subrange(blob.as_slice(), 32, blob.len());
    match V::deserialize(rest) {
        Some(value) => {
            assert(blob@ =~= blob_of(csid, value));
            Some(value)
        },
        None => {
            proof {
                assert forall|value: V| blob@ != blob_of(csid, value) by {
                    if blob@ == blob_of(csid, value) {
                        assert(value.bytes_of() =~= blob@.subrange(32, blob@.len() as int));
                    }
                }
            }
            None
        },
    }
}

/// Whether every blob of a value in `store` stands under the key of its
/// changeset and holds the value that `entries` has for the changeset.
pub open spec fn values_coherent<V: Cacheable>(
    store: MockStore,
    key_of: spec_fn(ChangesetId) -> Seq<char>,
    entries: Map<ChangesetId, V>,
) -> bool {
    forall|key: Seq<char>, csid: ChangesetId, value: V|
        #![trigger store.held(key), blob_of(csid, value)]
        store.held(key) == Some(blob_of(csid, value)) ==> key == key_of(csid) && entries.contains_key(
            csid,
        ) && entries[csid] == value
}

/// A tier stays coherent when the value that the mapping has for a
/// changeset is put under the key of the changeset, whatever the mapping
/// had for that changeset before.
proof fn lemma_put_coherent<V: Cacheable>(
    before: MockStore,
    after: MockStore,
    key_of: spec_fn(ChangesetId) -> Seq<char>,
    csid: ChangesetId,
    value: V,
    old_entries: Map<ChangesetId, V>,
    entries: Map<ChangesetId, V>,
)
    requires
        values_coherent(before, key_of, old_entries),
        entries.contains_key(csid) && entries[csid] == value,
        forall|c: ChangesetId| c != csid && old_entries.contains_key(c) ==> entries.contains_key(c)
            && entries[c] == old_entries[c],
        forall|k: Seq<char>|
            after.held(k) == if k == key_of(csid) {
                Some(blob_of(csid, value))
            } else {
                before.held(k)
            },
    ensures
        values_coherent(after, key_of, entries),
{
    assert forall|k: Seq<char>, c: ChangesetId, v: V|
        #![trigger after.held(k), blob_of(c, v)]
        after.held(k) == Some(blob_of(c, v)) implies k == key_of(c) && entries.contains_key(c)
        && entries[c] == v by {
        if k == key_of(csid) {
            lemma_blobs_tell_values_apart(c, v, csid, value);
        } else {
            assert(before.held(k) == Some(blob_of(c, v)));
            assert(c != csid);
        }
    }
}

/// A tier stays coherent when the mapping gets more values and loses or
/// changes none.
proof fn lemma_grown_coherent<V: Cacheable>(
    store: MockStore,
    key_of: spec_fn(ChangesetId) -> Seq<char>,
    before: Map<ChangesetId, V>,
    after: Map<ChangesetId, V>,
)
    requires
        values_coherent(store, key_of, before),
        before.submap_of(after),
    ensures
        values_coherent(store, key_of, after),
{
    assert forall|k: Seq<char>, c: ChangesetId, v: V|
        #![trigger store.held(k), blob_of(c, v)]
        store.held(k) == Some(blob_of(c, v)) implies k == key_of(c) && after.contains_key(c)
        && after[c] == v by {
        assert(before.contains_key(c));
        assert(before.dom().contains(c));
    }
}

/// Whether every blob of a value in `store` stands under the key of its
/// changeset and, but for the changeset `csid`, holds the value that
/// `entries` has for the changeset.
pub open spec fn values_coherent_but<V: Cacheable>(
    store: MockStore,
    key_of: spec_fn(ChangesetId) -> Seq<char>,
    entries: Map<ChangesetId, V>,
    csid: ChangesetId,
) -> bool {
    forall|key: Seq<char>, c: ChangesetId, value: V|
        #![trigger store.held(key), blob_of(c, value)]
        store.held(key) == Some(blob_of(c, value)) ==> key == key_of(c) && (c != csid
            ==> entries.contains_key(c) && entries[c] == value)
}

/// A tier that is coherent but for one changeset is coherent once the
/// value that the mapping has for that changeset is put under its key.
proof fn lemma_put_makes_coherent<V: Cacheable>(
    before: MockStore,
    after: MockStore,
    key_of: spec_fn(ChangesetId) -> Seq<char>,
    csid: ChangesetId,
    value: V,
    entries: Map<ChangesetId, V>,
)
    requires
        values_coherent_but(before, key_of, entries, csid),
        entries.contains_key(csid) && entries[csid] == value,
        forall|k: Seq<char>|
            after.held(k) == if k == key_of(csid) {
                Some(blob_of(csid, value))
            } else {
                before.held(k)
            },
    ensures
        values_coherent(after, key_of, entries),
{
    assert forall|k: Seq<char>, c: ChangesetId, v: V|
        #![trigger after.held(k), blob_of(c, v)]
        after.held(k) == Some(blob_of(c, v)) implies k == key_of(c) && entries.contains_key(c)
        && entries[c] == v by {
        if k == key_of(csid) {
            lemma_blobs_tell_values_apart(c, v, csid, value);
        } else {
            assert(before.held(k) == Some(blob_of(c, v)));
            assert(c != csid);
        }
    }
}

/// Whether `store` holds under `key` the blob of a value of `csid`.
pub open spec fn holds_value_of<V: Cacheable>(
    store: MockStore,
    key: Seq<char>,
    csid: ChangesetId,
) -> bool {
    exists|value: V| store.held(key) == Some(#[trigger] blob_of(csid, value))
}

/// What a lookup of the value of a changeset in the distributed tier gives:
/// the value, or why there is none.
pub open spec fn value_lookup<V: Cacheable>(
    store: MockStore,
    key: Seq<char>,
    csid: ChangesetId,
) -> Result<(), McErrorKind> {
    if !store.reachable() {
        Err(McErrorKind::MemcacheInternal)
    } else if store.held(key) is None {
        Err(McErrorKind::Missing)
    } else if holds_value_of::<V>(store, key, csid) {
        Ok(())
    } else {
        Err(McErrorKind::Deserialization)
    }
}

/// A mapping behind a two-tier cache.
pub struct CachedMapping<M> {
    base: M,
    local: MockStore,
    shared: MockStore,
    keygen: KeyGen,
    repo_id: RepositoryId,
    name: String,
    stats: McStats,
}

impl<M: BonsaiDerivedMapping> CachedMapping<M> where M::Value: Cacheable {
    /// The mapping underneath.
    pub closed spec fn base(&self) -> M {
        self.base
    }

    /// The key of a changeset in the process-local tier: the prefix of the
    /// repository, the name of the kind of derived data, a dot, and the id.
    pub closed spec fn local_key(&self, csid: ChangesetId) -> Seq<char> {
        self.repo_id.prefix_text() + self.name@ + "."@ + csid.hex()
    }

    spec fn local_keys(&self) -> spec_fn(ChangesetId) -> Seq<char> {
        |csid: ChangesetId| self.local_key(csid)
    }

    spec fn shared_keys(&self) -> spec_fn(ChangesetId) -> Seq<char> {
        |csid: ChangesetId| self.keygen.key_text(self.local_key(csid))
    }

    /// Both tiers can be reached, and what they hold comes from the
    /// mapping underneath.
    pub closed spec fn tiers_sound(&self) -> bool {
        &&& self.local.reachable()
        &&& self.shared.reachable()
        &&& values_coherent(self.local, self.local_keys(), self.base.entries())
        &&& values_coherent(self.shared, self.shared_keys(), self.base.entries())
    }

    /// Both tiers can be reached, and what they hold comes from the
    /// mapping underneath, but for what they hold for `csid`: that may be
    /// a value that the mapping had for the changeset before it was written.
    pub closed spec fn tiers_sound_but_for(&self, csid: ChangesetId) -> bool {
        &&& self.local.reachable()
        &&& self.shared.reachable()
        &&& values_coherent_but(self.local, self.local_keys(), self.base.entries(), csid)
        &&& values_coherent_but(self.shared, self.shared_keys(), self.base.entries(), csid)
    }

    /// Tiers that are sound are sound but for any one changeset.
    pub proof fn law_sound_tiers_are_sound_but_for_one(&self, csid: ChangesetId)
        requires
            self.tiers_sound(),
        ensures
            self.tiers_sound_but_for(csid),
    {
    }

    /// The process-local tier.
    pub closed spec fn local_tier(&self) -> MockStore {
        self.local
    }

    /// The distributed tier.
    pub closed spec fn shared_tier(&self) -> MockStore {
        self.shared
    }

    /// The maker of the keys of the distributed tier.
    pub closed spec fn keygen(&self) -> KeyGen {
        self.keygen
    }

    /// The counts of what the lookups in the distributed tier gave.
    pub closed spec fn spec_mc_stats(&self) -> McStats {
        self.stats
    }

    /// The key of a changeset in the distributed tier.
    pub open spec fn shared_key(&self, csid: ChangesetId) -> Seq<char> {
        self.keygen().key_text(self.local_key(csid))
    }

    /// Whether one of the tiers holds a value of a changeset, so that a
    /// lookup of the changeset does not reach the mapping underneath.
    pub open spec fn cached(&self, csid: ChangesetId) -> bool {
        holds_value_of::<M::Value>(self.local_tier(), self.local_key(csid), csid)
            || holds_value_of::<M::Value>(self.shared_tier(), self.shared_key(csid), csid)
    }

    /// The counts after a lookup of one changeset: as they were where the
    /// process-local tier holds its value, and with the outcome of the
    /// lookup in the distributed tier counted otherwise.
    pub open spec fn counted(&self, csid: ChangesetId) -> McStats {
        if holds_value_of::<M::Value>(self.local_tier(), self.local_key(csid), csid) {
            self.spec_mc_stats()
        } else {
            crate::caching::reported(
                self.spec_mc_stats(),
                value_lookup::<M::Value>(self.shared_tier(), self.shared_key(csid), csid),
            )
        }
    }

    /// No two changesets have the same key.
    pub proof fn lemma_keys_differ(&self, a: ChangesetId, b: ChangesetId)
        requires
            self.local_key(a) == self.local_key(b),
        ensures
            a == b,
    {
        let head = self.repo_id.prefix_text() + self.name@ + "."@;
        let key_a = self.local_key(a);
        let key_b = self.local_key(b);
        assert(key_a =~= head + a.hex());
        assert(key_b =~= head + b.hex());
        assert(a.hex() =~= key_a.subrange(head.len() as int, key_a.len() as int));
        assert(b.hex() =~= key_b.subrange(head.len() as int, key_b.len() as int));
        crate::types::lemma_hex_tells_ids_apart(a, b);
    }

    /// The process-local tier holds a value of a changeset still when it
    /// stays as it is, and when a value of a changeset is put under the key
    /// of that changeset.
    pub proof fn lemma_local_keeps(
        &self,
        before: MockStore,
        after: MockStore,
        put: ChangesetId,
        value: M::Value,
        csid: ChangesetId,
    )
        requires
            crate::caching::same_content(before, after) || crate::caching::put_into(
                before,
                after,
                self.local_key(put),
                blob_of(put, value),
            ),
            before.reachable(),
            holds_value_of::<M::Value>(before, self.local_key(csid), csid),
        ensures
            holds_value_of::<M::Value>(after, self.local_key(csid), csid),
    {
        let key = self.local_key(csid);
        let held = choose|held: M::Value| before.held(key) == Some(#[trigger] blob_of(csid, held));
        if crate::caching::same_content(before, after) {
            assert(after.held(key) == Some(blob_of(csid, held)));
        } else if self.local_key(put) == key {
            self.lemma_keys_differ(put, csid);
            assert(after.held(key) == Some(blob_of(csid, value)));
        } else {
            assert(after.held(key) == Some(blob_of(csid, held)));
        }
    }

    /// The mapping `base` behind two empty tiers. `name` names the kind of
    /// derived data, and `keygen` the versions under which the distributed
    /// tier is written.
    pub fn new(base: M, repo_id: RepositoryId, name: &str, keygen: KeyGen) -> (mapping: Self)
        requires
            base.wf(),
        ensures
            mapping.wf(),
            mapping.base() == base,
            mapping.keygen() == keygen,
            forall|csid: ChangesetId|
                mapping.local_key(csid) == repo_id.prefix_text() + name@ + "."@ + csid.hex(),
            forall|key: Seq<char>| mapping.local_tier().held(key) is None,
            forall|key: Seq<char>| mapping.shared_tier().held(key) is None,
            mapping.spec_mc_stats() == (McStats {
                memcache_hit: 0,
                memcache_miss: 0,
                memcache_internal_err: 0,
                memcache_deserialize_err: 0,
            }),
    {
        Self {
            base,
            local: MockStore::create_mock(),
            shared: MockStore::create_mock(),
            keygen,
            repo_id,
            name: String::from_str(name),
            stats: McStats {
                memcache_hit: 0,
                memcache_miss: 0,
                memcache_internal_err: 0,
                memcache_deserialize_err: 0,
            },
        }
    }

    /// How often the process-local tier was written and read.
    pub fn cachelib_stats(&self) -> (stats: MockStoreStats)
        ensures
            stats == self.local_tier().spec_stats(),
    {
        self.local.stats()
    }

    /// How often the distributed tier was written and read.
    pub fn memcache_stats(&self) -> (stats: MockStoreStats)
        ensures
            stats == self.shared_tier().spec_stats(),
    {
        self.shared.stats()
    }

    /// The counts of what the lookups in the distributed tier gave.
    pub fn mc_stats(&self) -> (stats: McStats)
        ensures
            stats == self.spec_mc_stats(),
    {
        self.stats
    }

    /// Empties both tiers.
    pub fn clear_caches(&mut self)
        requires
            old(self).wf(),
        ensures
            final(self).wf(),
            final(self).base() == old(self).base(),
            final(self).keygen() == old(self).keygen(),
            final(self).spec_mc_stats() == old(self).spec_mc_stats(),
            forall|csid: ChangesetId| final(self).local_key(csid) == old(self).local_key(csid),
            forall|key: Seq<char>| final(self).local_tier().held(key) is None,
            forall|key: Seq<char>| final(self).shared_tier().held(key) is None,
    {
        self.local.clear();
        self.shared.clear();
    }

    /// Replaces what both tiers hold for a changeset by bytes that are no
    /// value, as a damaged cache would hold them.
    pub fn damage_cached(&mut self, csid: ChangesetId)
        requires
            old(self).wf(),
        ensures
            final(self).wf(),
            final(self).base() == old(self).base(),
            final(self).keygen() == old(self).keygen(),
            final(self).spec_mc_stats() == old(self).spec_mc_stats(),
            forall|c: ChangesetId| final(self).local_key(c) == old(self).local_key(c),
            crate::caching::put_into(
                old(self).local_tier(),
                final(self).local_tier(),
                old(self).local_key(csid),
                Seq::<u8>::empty(),
            ),
            crate::caching::put_into(
                old(self).shared_tier(),
                final(self).shared_tier(),
                old(self).shared_key(csid),
                Seq::<u8>::empty(),
            ),
    {
        let key = self.cache_key(csid);
        let mc_key = self.keygen.key(key.as_str());
        let ghost entries = self.base.entries();
        let ghost local = self.local;
        let ghost shared = self.shared;
        self.local.set(key, Vec::new());
        self.shared.set(mc_key, Vec::new());
        proof {
            assert forall|k: Seq<char>, c: ChangesetId, v: M::Value|
                #![trigger self.local.held(k), blob_of(c, v)]
                self.local.held(k) == Some(blob_of(c, v)) implies k == self.local_keys()(c)
                && entries.contains_key(c) && entries[c] == v by {
                crate::changeset_entry::lemma_id_bytes_len(c);
                assert(local.held(k) == Some(blob_of(c, v)));
            }
            assert forall|k: Seq<char>, c: ChangesetId, v: M::Value|
                #![trigger self.shared.held(k), blob_of(c, v)]
                self.shared.held(k) == Some(blob_of(c, v)) implies k == self.shared_keys()(c)
                && entries.contains_key(c) && entries[c] == v by {
                crate::changeset_entry::lemma_id_bytes_len(c);
                assert(shared.held(k) == Some(blob_of(c, v)));
            }
        }
    }

    fn cache_key(&self, csid: ChangesetId) -> (key: String)
        ensures
            key@ == self.local_key(csid),
    {
        let mut key = self.repo_id.prefix();
        key.append(self.name.as_str());
        key.append(".");
        let hex = csid.to_hex();
        key.append(hex.as_str());
        key
    }

    /// Writes the value that the mapping underneath has for a changeset to
    /// the process-local tier, and to the distributed one unless
    /// `local_only` is set.
    fn fill(&mut self, csid: ChangesetId, value: M::Value, local_only: bool)
        requires
            old(self).wf(),
            old(self).base.entries().contains_key(csid),
            old(self).base.entries()[csid] == value,
        ensures
            final(self).wf(),
            final(self).base == old(self).base,
            final(self).keygen == old(self).keygen,
            final(self).repo_id == old(self).repo_id,
            final(self).name == old(self).name,
            final(self).stats == old(self).stats,
            crate::caching::put_into(
                old(self).local,
                final(self).local,
                old(self).local_key(csid),
                blob_of(csid, value),
            ),
            local_only ==> crate::caching::same_content(old(self).shared, final(self).shared),
            !local_only ==> crate::caching::put_into(
                old(self).shared,
                final(self).shared,
                old(self).shared_key(csid),
                blob_of(csid, value),
            ),
    {
        let blob = encode_value(csid, &value);
        let key = self.cache_key(csid);
        let ghost entries = self.base.entries();
        if !local_only {
            let mc_key = self.keygen.key(key.as_str());
            let ghost shared = self.shared;
            self.shared.set(mc_key, blob.clone());
            proof {
                lemma_put_coherent(shared, self.shared, self.shared_keys(), csid, value, entries, entries);
            }
        }
        let ghost local = self.local;
        self.local.set(key, blob);
        proof {
            lemma_put_coherent(local, self.local, self.local_keys(), csid, value, entries, entries);
        }
    }

    /// Looks one changeset up in the tiers: the process-local one first,
    /// then the distributed one, whose answer is counted and, where it is
    /// the value, written to the process-local tier.
    fn get_cached(&mut self, csid: ChangesetId) -> (res: Option<M::Value>)
        requires
            old(self).wf(),
        ensures
            final(self).wf(),
            final(self).base == old(self).base,
            final(self).keygen == old(self).keygen,
            final(self).repo_id == old(self).repo_id,
            final(self).name == old(self).name,
            final(self).stats == old(self).counted(csid),
            res matches Some(value) ==> old(self).base.entries().contains_key(csid)
                && old(self).base.entries()[csid] == value,
            res is Some <==> old(self).cached(csid),
            crate::caching::same_content(old(self).shared, final(self).shared),
            holds_value_of::<M::Value>(old(self).local, old(self).local_key(csid), csid)
                || res is None ==> crate::caching::same_content(old(self).local, final(self).local),
            res matches Some(value) ==> (!holds_value_of::<M::Value>(
                old(self).local,
                old(self).local_key(csid),
                csid,
            ) ==> crate::caching::put_into(
                old(self).local,
                final(self).local,
                old(self).local_key(csid),
                blob_of(csid, value),
            )),
    {
        let key = self.cache_key(csid);
        let local = match self.local.get(&key) {
            Ok(blob) => decode_value::<M::Value>(&blob, csid),
            Err(_) => None,
        };
        if local.is_some() {
            return local;
        }
        let mc_key = self.keygen.key(key.as_str());
        let remote: Result<M::Value, McErrorKind> = match self.shared.get(&mc_key) {
            Ok(blob) => match decode_value::<M::Value>(&blob, csid) {
                Some(value) => Ok(value),
                None => Err(McErrorKind::Deserialization),
            },
            Err(kind) => Err(kind),
        };
        match remote {
            Ok(value) => {
                report_mc_result(&mut self.stats, Ok(()));
                self.fill(csid, value, true);
                Some(value)
            },
            Err(kind) => {
                report_mc_result(&mut self.stats, Err(kind));
                None
            },
        }
    }

    /// What follows a write of the value `id` for `csid` to the mapping
    /// underneath, of which `outcome` tells: once the value is written,
    /// both tiers take it under the keys of the changeset, and where the
    /// write failed they stay as they are. The outcome is handed on.
    pub fn written(&mut self, csid: ChangesetId, id: M::Value, outcome: Result<(), Error>) -> (res:
        Result<(), Error>)
        requires
            old(self).base().wf(),
            outcome is Ok ==> old(self).tiers_sound_but_for(csid) && old(self).base().entries().contains_key(csid) && old(self).base().entries()[csid] == id,
            outcome is Err ==> old(self).tiers_sound(),
        ensures
            res == outcome,
            final(self).wf(),
            final(self).base() == old(self).base(),
            final(self).keygen() == old(self).keygen(),
            final(self).spec_mc_stats() == old(self).spec_mc_stats(),
            forall|c: ChangesetId| final(self).local_key(c) == old(self).local_key(c),
            outcome is Ok ==> crate::caching::put_into(
                old(self).local_tier(),
                final(self).local_tier(),
                old(self).local_key(csid),
                blob_of(csid, id),
            ) && crate::caching::put_into(
                old(self).shared_tier(),
                final(self).shared_tier(),
                old(self).shared_key(csid),
                blob_of(csid, id),
            ),
            outcome is Err ==> final(self).local_tier() == old(self).local_tier() && final(self).shared_tier() == old(self).shared_tier(),
    {
        if outcome.is_err() {
            return outcome;
        }
        let ghost entries = self.base.entries();
        let blob = encode_value(csid, &id);
        let key = self.cache_key(csid);
        let mc_key = self.keygen.key(key.as_str());
        let ghost shared = self.shared;
        self.shared.set(mc_key, blob.clone());
        let ghost local = self.local;
        self.local.set(key, blob);
        proof {
            lemma_put_makes_coherent(shared, self.shared, self.shared_keys(), csid, id, entries);
            lemma_put_makes_coherent(local, self.local, self.local_keys(), csid, id, entries);
        }
        outcome
    }

    /// Looks each of `csids` up in the tiers, once: the values that the
    /// tiers hold, and the changesets of which they hold none, which are
    /// those that the mapping underneath has to be asked for.
    pub fn misses(&mut self, csids: &Vec<ChangesetId>) -> (parts: (
        Vec<(ChangesetId, M::Value)>,
        Vec<ChangesetId>,
    ))
        requires
            old(self).wf(),
        ensures
            final(self).wf(),
            final(self).base() == old(self).base(),
            final(self).keygen() == old(self).keygen(),
            forall|c: ChangesetId| final(self).local_key(c) == old(self).local_key(c),
            forall|c: ChangesetId|
                #![trigger parts.1@.contains(c)]
                #![trigger csids@.contains(c)]
                parts.1@.contains(c) <==> csids@.contains(c) && !old(self).cached(c),
            parts.1@.no_duplicates(),
            forall|c: ChangesetId|
                #![trigger csids@.contains(c)]
                csids@.contains(c) && old(self).cached(c) ==> exists|k: int|
                    0 <= k < parts.0@.len() && (#[trigger] parts.0@[k]).0 == c,
            forall|k: int|
                0 <= k < parts.0@.len() ==> csids@.contains((#[trigger] parts.0@[k]).0) && old(self).cached(parts.0@[k].0),
            forall|k: int|
                0 <= k < parts.0@.len() ==> old(self).entries().contains_key(
                    (#[trigger] parts.0@[k]).0,
                ) && old(self).entries()[parts.0@[k].0] == parts.0@[k].1,
            forall|k: int, m: int|
                0 <= k < m < parts.0@.len() ==> (#[trigger] parts.0@[k]).0 != (
                #[trigger] parts.0@[m]).0,
            forall|k: int|
                0 <= k < parts.0@.len() ==> holds_value_of::<M::Value>(
                    final(self).local_tier(),
                    old(self).local_key((#[trigger] parts.0@[k]).0),
                    parts.0@[k].0,
                ),
    {
        let ghost entries = self.base.entries();
        let mut found: Vec<(ChangesetId, M::Value)> = Vec::new();
        let mut left: Vec<ChangesetId> = Vec::new();
        let mut i: usize = 0;
        while i < csids.len()
            invariant
                i <= csids.len(),
                self.wf(),
                self.base == old(self).base,
                self.keygen == old(self).keygen,
                self.repo_id == old(self).repo_id,
                self.name == old(self).name,
                entries == self.base.entries(),
                forall|j: int|
                    0 <= j < csids@.len() && old(self).cached(#[trigger] csids@[j]) ==> self.cached(
                        csids@[j],
                    ),
                forall|j: int|
                    0 <= j < csids@.len() && self.cached(#[trigger] csids@[j]) ==> old(self).cached(
                        csids@[j],
                    ) || exists|k: int| 0 <= k < found@.len() && (#[trigger] found@[k]).0 == csids@[j],
                forall|k: int| 0 <= k < left@.len() ==> !old(self).cached(#[trigger] left@[k]),
                forall|k: int| 0 <= k < found@.len() ==> old(self).cached((#[trigger] found@[k]).0),
                left@.no_duplicates(),
                forall|k: int|
                    0 <= k < found@.len() ==> holds_value_of::<M::Value>(
                        self.local,
                        self.local_key((#[trigger] found@[k]).0),
                        found@[k].0,
                    ),
                forall|k: int|
                    0 <= k < found@.len() ==> csids@.contains((#[trigger] found@[k]).0)
                        && entries.contains_key(found@[k].0) && entries[found@[k].0] == found@[k].1,
                forall|k: int, m: int|
                    0 <= k < m < found@.len() ==> (#[trigger] found@[k]).0 != (#[trigger] found@[m]).0,
                forall|k: int| 0 <= k < left@.len() ==> csids@.contains(#[trigger] left@[k]),
                forall|k: int, m: int|
                    0 <= k < left@.len() && 0 <= m < found@.len() ==> #[trigger] left@[k] != (
                    #[trigger] found@[m]).0,
                forall|j: int|
                    0 <= j < i ==> (exists|k: int|
                        0 <= k < found@.len() && (#[trigger] found@[k]).0 == csids@[j])
                        || left@.contains(#[trigger] csids@[j]),
            decreases csids.len() - i,
        {
            let csid = csids[i];
            let ghost found_before = found@;
            let ghost left_before = left@;
            let ghost local_before = self.local;
            let ghost shared_before = self.shared;
            let ghost was_cached = self.cached(csid);
            let ghost was_found = exists|k: int|
                0 <= k < found@.len() && (#[trigger] found@[k]).0 == csid;
            let known = find_value(&found, csid);
            proof {
                match known {
                    Some(v) => {
                        let at = choose|at: int|
                            0 <= at < found@.len() && #[trigger] found@[at] == (csid, v);
                        assert(found@[at].0 == csid);
                    },
                    None => {},
                }
            }
            if known.is_none() && !contains_id(&left, csid) {
                let looked_up = self.get_cached(csid);
                proof {
                    let local = self.local;
                    assert(csids@[i as int] == csid);
                    assert(!was_found);
                    assert(looked_up is Some <==> old(self).cached(csid));
                    assert forall|j: int|
                        0 <= j < csids@.len() && self.cached(#[trigger] csids@[j]) implies old(self).cached(csids@[j]) || csids@[j] == csid || exists|k: int|
                        0 <= k < found_before.len() && (#[trigger] found_before[k]).0 == csids@[j] by {
                        let c = csids@[j];
                        if c != csid {
                            if self.local_key(c) == self.local_key(csid) {
                                self.lemma_keys_differ(c, csid);
                            }
                            if holds_value_of::<M::Value>(local, self.local_key(c), c) {
                                let held = choose|held: M::Value|
                                    local.held(self.local_key(c)) == Some(#[trigger] blob_of(c, held));
                                assert(local_before.held(self.local_key(c)) == Some(blob_of(c, held)));
                            } else {
                                let held = choose|held: M::Value|
                                    self.shared.held(self.shared_key(c)) == Some(
                                        #[trigger] blob_of(c, held),
                                    );
                                assert(shared_before.held(self.shared_key(c)) == Some(
                                    blob_of(c, held),
                                ));
                            }
                        }
                    }
                    let put = match looked_up {
                        Some(value) => value,
                        None => arbitrary(),
                    };
                    assert(crate::caching::same_content(local_before, local)
                        || crate::caching::put_into(
                        local_before,
                        local,
                        self.local_key(csid),
                        blob_of(csid, put),
                    ));
                    assert forall|j: int|
                        0 <= j < csids@.len() && old(self).cached(
                            #[trigger] csids@[j],
                        ) implies self.cached(csids@[j]) by {
                        let c = csids@[j];
                        if holds_value_of::<M::Value>(local_before, self.local_key(c), c) {
                            self.lemma_local_keeps(local_before, local, csid, put, c);
                        } else {
                            let held = choose|held: M::Value|
                                shared_before.held(self.shared_key(c)) == Some(
                                    #[trigger] blob_of(c, held),
                                );
                            assert(self.shared.held(self.shared_key(c)) == Some(blob_of(c, held)));
                        }
                    }
                    assert forall|k: int| 0 <= k < found_before.len() implies holds_value_of::<
                        M::Value,
                    >(local, self.local_key((#[trigger] found_before[k]).0), found_before[k].0) by {
                        self.lemma_local_keeps(local_before, local, csid, put, found_before[k].0);
                    }
                }
                match looked_up {
                    Some(value) => {
                        found.push((csid, value));
                        assert(found@[found_before.len() as int].0 == csid);
                        proof {
                            let local = self.local;
                            assert forall|j: int|
                                0 <= j < csids@.len() && self.cached(
                                    #[trigger] csids@[j],
                                ) implies old(self).cached(csids@[j]) || exists|k: int|
                                0 <= k < found@.len() && (#[trigger] found@[k]).0 == csids@[j] by {
                                let c = csids@[j];
                                if c == csid {
                                    assert(found@[found_before.len() as int].0 == c);
                                } else if !old(self).cached(c) {
                                    let k = choose|k: int|
                                        0 <= k < found_before.len() && (#[trigger] found_before[k]).0
                                            == c;
                                    assert(found@[k].0 == c);
                                }
                            }
                            assert forall|k: int| 0 <= k < found@.len() implies old(self).cached(
                                (#[trigger] found@[k]).0,
                            ) by {
                                if k < found_before.len() {
                                    assert(found@[k] == found_before[k]);
                                }
                            }
                            if holds_value_of::<M::Value>(local_before, self.local_key(csid), csid) {
                                self.lemma_local_keeps(local_before, local, csid, value, csid);
                            } else {
                                assert(local.held(self.local_key(csid)) == Some(
                                    blob_of(csid, value),
                                ));
                            }
                            assert forall|k: int| 0 <= k < found@.len() implies holds_value_of::<
                                M::Value,
                            >(local, self.local_key((#[trigger] found@[k]).0), found@[k].0) by {
                                if k < found_before.len() {
                                    assert(found@[k] == found_before[k]);
                                }
                            }
                        }
                    },
                    None => {
                        left.push(csid);
                        assert(left@[left_before.len() as int] == csid);
                        proof {
                            assert forall|k: int| 0 <= k < left@.len() implies !old(self).cached(
                                #[trigger] left@[k],
                            ) by {
                                if k < left_before.len() {
                                    assert(left@[k] == left_before[k]);
                                }
                            }
                            assert(left@.no_duplicates()) by {
                                assert forall|a: int, b: int|
                                    0 <= a < left@.len() && 0 <= b < left@.len() && a != b implies left@[a]
                                    != left@[b] by {
                                    if a < left_before.len() && b < left_before.len() {
                                        assert(left_before[a] != left_before[b]);
                                    } else if a < left_before.len() {
                                        assert(left_before.contains(left_before[a]));
                                    } else {
                                        assert(left_before.contains(left_before[b]));
                                    }
                                }
                            }
                        }
                    },
                }
            }
            proof {
                assert forall|j: int| 0 <= j < i + 1 implies (exists|k: int|
                    0 <= k < found@.len() && (#[trigger] found@[k]).0 == csids@[j])
                    || left@.contains(#[trigger] csids@[j]) by {
                    if j < i {
                        if left_before.contains(csids@[j]) {
                            let k = choose|k: int|
                                0 <= k < left_before.len() && left_before[k] == csids@[j];
                            assert(left@[k] == csids@[j]);
                        } else {
                            let k = choose|k: int|
                                0 <= k < found_before.len() && (#[trigger] found_before[k]).0
                                    == csids@[j];
                            assert(found@[k].0 == csids@[j]);
                        }
                    } else {
                        if left_before.contains(csid) {
                            let k = choose|k: int| 0 <= k < left_before.len() && left_before[k] == csid;
                            assert(left@[k] == csid);
                        } else if exists|k: int|
                            0 <= k < found_before.len() && (#[trigger] found_before[k]).0 == csid {
                            let k = choose|k: int|
                                0 <= k < found_before.len() && (#[trigger] found_before[k]).0 == csid;
                            assert(found@[k].0 == csid);
                        }
                    }
                }
            }
            i += 1;
        }
        proof {
            assert forall|c: ChangesetId|
                #![trigger left@.contains(c)]
                #![trigger csids@.contains(c)]
                left@.contains(c) <==> csids@.contains(c) && !old(self).cached(c) by {
                if left@.contains(c) {
                    let k = choose|k: int| 0 <= k < left@.len() && left@[k] == c;
                    assert(csids@.contains(left@[k]));
                }
                if csids@.contains(c) && !old(self).cached(c) {
                    let j = choose|j: int| 0 <= j < csids@.len() && csids@[j] == c;
                    assert((exists|k: int|
                        0 <= k < found@.len() && (#[trigger] found@[k]).0 == csids@[j])
                        || left@.contains(csids@[j]));
                }
            }
            assert forall|c: ChangesetId|
                #![trigger csids@.contains(c)]
                csids@.contains(c) && old(self).cached(c) implies exists|k: int|
                0 <= k < found@.len() && (#[trigger] found@[k]).0 == c by {
                if csids@.contains(c) && old(self).cached(c) {
                    let j = choose|j: int| 0 <= j < csids@.len() && csids@[j] == c;
                    assert((exists|k: int|
                        0 <= k < found@.len() && (#[trigger] found@[k]).0 == csids@[j])
                        || left@.contains(csids@[j]));
                    if left@.contains(c) {
                        let k = choose|k: int| 0 <= k < left@.len() && left@[k] == c;
                        assert(!old(self).cached(left@[k]));
                    }
                }
            }
        }
        let parts = (found, left);
        proof {
            assert(parts.0@ == found@);
            assert(forall|c: ChangesetId|
                #![trigger csids@.contains(c)]
                csids@.contains(c) && old(self).cached(c) ==> exists|k: int|
                    0 <= k < parts.0@.len() && (#[trigger] parts.0@[k]).0 == c);
        }
        parts
    }
}

impl<M: BonsaiDerivedMapping> BonsaiDerivedMapping for CachedMapping<M> where M::Value: Cacheable {
    type Value = M::Value;

    /// The mapping underneath is sound, both tiers can be reached, and what
    /// they hold comes from the mapping underneath.
    open spec fn wf(&self) -> bool {
        &&& self.base().wf()
        &&& self.local_tier().reachable()
        &&& self.shared_tier().reachable()
        &&& self.tiers_sound()
    }

    /// The values of the mapping underneath: the tiers add none and hide
    /// none.
    open spec fn entries(&self) -> Map<ChangesetId, M::Value> {
        self.base().entries()
    }

    /// Gets the values from the tiers, and from the mapping underneath
    /// those that the tiers lack: that mapping is not asked, and the lookup
    /// succeeds, where the tiers hold them all. Every value returned is in
    /// the process-local tier afterwards.
    fn get(&mut self, csids: Vec<ChangesetId>) -> (res: Result<Vec<(ChangesetId, M::Value)>, Error>)
        ensures
            final(self).keygen() == old(self).keygen(),
            forall|c: ChangesetId| final(self).local_key(c) == old(self).local_key(c),
            (forall|i: int| 0 <= i < csids@.len() ==> old(self).cached(#[trigger] csids@[i]))
                ==> res is Ok,
            res matches Ok(found) ==> forall|k: int|
                0 <= k < found@.len() ==> holds_value_of::<M::Value>(
                    final(self).local_tier(),
                    old(self).local_key((#[trigger] found@[k]).0),
                    found@[k].0,
                ),
    {
        let ghost entries = self.base.entries();
        let ghost all_cached = forall|i: int|
            0 <= i < csids@.len() ==> old(self).cached(#[trigger] csids@[i]);
        let parts = self.misses(&csids);
        let mut found = parts.0;
        let left = parts.1;
        proof {
            if all_cached && left@.len() > 0 {
                assert(left@.contains(left@[0]));
                let j = choose|j: int| 0 <= j < csids@.len() && csids@[j] == left@[0];
                assert(old(self).cached(csids@[j]));
            }
            assert forall|k: int| 0 <= k < found@.len() implies csids@.contains(
                (#[trigger] found@[k]).0,
            ) by {}
            assert forall|k: int, m: int|
                0 <= k < left@.len() && 0 <= m < found@.len() implies #[trigger] left@[k] != (
            #[trigger] found@[m]).0 by {
                assert(left@.contains(left@[k]));
            }
            assert forall|j: int| 0 <= j < csids@.len() implies (exists|k: int|
                0 <= k < found@.len() && (#[trigger] found@[k]).0 == csids@[j])
                || left@.contains(#[trigger] csids@[j]) by {
                assert(csids@.contains(csids@[j]));
            }
        }
        if left.len() > 0 {
            let ghost asked = left@;
            let ghost cached = found@;
            let fetched = self.base.get(left)?;
            let mut j: usize = 0;
            while j < fetched.len()
                invariant
                    j <= fetched.len(),
                    self.wf(),
                    self.keygen == old(self).keygen,
                    forall|c: ChangesetId| self.local_key(c) == old(self).local_key(c),
                    entries == self.base.entries(),
                    entries == old(self).base.entries(),
                    crate::mapping::is_lookup_result(fetched@, entries, asked),
                    found@.len() == cached.len() + j,
                    forall|k: int| 0 <= k < cached.len() ==> found@[k] == cached[k],
                    forall|k: int| 0 <= k < j ==> #[trigger] found@[cached.len() + k] == fetched@[k],
                    forall|k: int|
                        0 <= k < found@.len() ==> holds_value_of::<M::Value>(
                            self.local,
                            self.local_key((#[trigger] found@[k]).0),
                            found@[k].0,
                        ),
                decreases fetched.len() - j,
            {
                let pair = fetched[j];
                proof {
                    assert(entries.contains_key(fetched@[j as int].0));
                }
                let ghost local_before = self.local;
                let ghost found_before = found@;
                self.fill(pair.0, pair.1, false);
                found.push(pair);
                proof {
                    let local = self.local;
                    assert forall|k: int| 0 <= k < found@.len() implies holds_value_of::<M::Value>(
                        local,
                        self.local_key((#[trigger] found@[k]).0),
                        found@[k].0,
                    ) by {
                        if k < found_before.len() {
                            assert(found@[k] == found_before[k]);
                            self.lemma_local_keeps(local_before, local, pair.0, pair.1, found@[k].0);
                        } else {
                            assert(local.held(self.local_key(pair.0)) == Some(
                                blob_of(pair.0, pair.1),
                            ));
                        }
                    }
                }
                j += 1;
            }
            proof {
                assert forall|k: int| 0 <= k < found@.len() implies csids@.contains(
                    (#[trigger] found@[k]).0,
                ) && entries.contains_key(found@[k].0) && entries[found@[k].0] == found@[k].1 by {
                    if k >= cached.len() {
                        let f = fetched@[k - cached.len()];
                        assert(found@[cached.len() + (k - cached.len())] == f);
                        assert(asked.contains(f.0));
                        let a = choose|a: int| 0 <= a < asked.len() && asked[a] == f.0;
                        assert(csids@.contains(asked[a]));
                    } else {
                        assert(found@[k] == cached[k]);
                    }
                }
                assert forall|k: int, m: int| 0 <= k < m < found@.len() implies (
                #[trigger] found@[k]).0 != (#[trigger] found@[m]).0 by {
                    if m < cached.len() {
                        assert(found@[k] == cached[k] && found@[m] == cached[m]);
                    } else if k < cached.len() {
                        let f = fetched@[m - cached.len()];
                        assert(found@[cached.len() + (m - cached.len())] == f);
                        assert(asked.contains(f.0));
                        let a = choose|a: int| 0 <= a < asked.len() && asked[a] == f.0;
                        assert(found@[k] == cached[k]);
                        assert(asked[a] != cached[k].0);
                    } else {
                        let f = fetched@[k - cached.len()];
                        let g = fetched@[m - cached.len()];
                        assert(found@[cached.len() + (k - cached.len())] == f);
                        assert(found@[cached.len() + (m - cached.len())] == g);
                        assert(f.0 != g.0);
                    }
                }
                assert forall|n: int|
                    0 <= n < csids@.len() && entries.contains_key(
                        #[trigger] csids@[n],
                    ) implies exists|k: int|
                    0 <= k < found@.len() && (#[trigger] found@[k]).0 == csids@[n] by {
                    if asked.contains(csids@[n]) {
                        let a = choose|a: int| 0 <= a < asked.len() && asked[a] == csids@[n];
                        assert(entries.contains_key(asked[a]));
                        let f = choose|f: int|
                            0 <= f < fetched@.len() && (#[trigger] fetched@[f]).0 == asked[a];
                        assert(found@[cached.len() + f] == fetched@[f]);
                    } else {
                        let k = choose|k: int|
                            0 <= k < cached.len() && (#[trigger] cached[k]).0 == csids@[n];
                        assert(found@[k] == cached[k]);
                    }
                }
            }
        } else {
            proof {
                assert forall|n: int|
                    0 <= n < csids@.len() && entries.contains_key(
                        #[trigger] csids@[n],
                    ) implies exists|k: int|
                    0 <= k < found@.len() && (#[trigger] found@[k]).0 == csids@[n] by {
                    assert(!left@.contains(csids@[n]));
                }
            }
        }
        Ok(found)
    }

    /// Writes the value through to the mapping underneath and, where that
    /// took it, to both tiers under the keys of the changeset. Where the
    /// mapping underneath fails, the tiers stay as they are. The counters
    /// stay as they are.
    fn put(&mut self, csid: ChangesetId, id: M::Value) -> (res: Result<(), Error>)
        ensures
            final(self).keygen() == old(self).keygen(),
            final(self).spec_mc_stats() == old(self).spec_mc_stats(),
            forall|c: ChangesetId| final(self).local_key(c) == old(self).local_key(c),
            res is Ok ==> crate::caching::put_into(
                old(self).local_tier(),
                final(self).local_tier(),
                old(self).local_key(csid),
                blob_of(csid, id),
            ) && crate::caching::put_into(
                old(self).shared_tier(),
                final(self).shared_tier(),
                old(self).shared_key(csid),
                blob_of(csid, id),
            ),
            res is Err ==> final(self).local_tier() == old(self).local_tier() && final(self).shared_tier() == old(self).shared_tier(),
    {
        let ghost before = self.base.entries();
        let outcome = self.base.put(csid, id);
        proof {
            let after = self.base.entries();
            if outcome is Err {
                lemma_grown_coherent(self.local, self.local_keys(), before, after);
                lemma_grown_coherent(self.shared, self.shared_keys(), before, after);
            } else {
                assert forall|c: ChangesetId| c != csid && before.contains_key(c) implies after.contains_key(
                    c,
                ) && after[c] == before[c] by {}
            }
        }
        self.written(csid, id, outcome)
    }
}


/// What a lookup through the cache finds for a changeset is what a lookup
/// in the mapping underneath finds, whatever the tiers hold: nothing, the
/// value, or bytes that are no value.
pub proof fn law_cached_mapping_is_transparent<M: BonsaiDerivedMapping>(
    cached: CachedMapping<M>,
    asked: Seq<ChangesetId>,
    through: Seq<(ChangesetId, M::Value)>,
    direct: Seq<(ChangesetId, M::Value)>,
    csid: ChangesetId,
) where M::Value: Cacheable
    requires
        asked.contains(csid),
        crate::mapping::is_lookup_result(through, cached.entries(), asked),
        crate::mapping::is_lookup_result(direct, cached.base().entries(), asked),
    ensures
        forall|value: M::Value| through.contains((csid, value)) <==> direct.contains((csid, value)),
{
    let entries = cached.base().entries();
    crate::mapping::lemma_lookup_result(through, entries, asked, csid);
    crate::mapping::lemma_lookup_result(direct, entries, asked, csid);
    assert forall|value: M::Value| through.contains((csid, value)) <==> direct.contains(
        (csid, value),
    ) by {
        if through.contains((csid, value)) {
            let i = choose|i: int| 0 <= i < through.len() && through[i] == (csid, value);
            assert(through[i].0 == csid);
            let j = choose|j: int| 0 <= j < direct.len() && (#[trigger] direct[j]).0 == csid;
            assert(direct[j] == (csid, value));
        }
        if direct.contains((csid, value)) {
            let i = choose|i: int| 0 <= i < direct.len() && direct[i] == (csid, value);
            assert(direct[i].0 == csid);
            let j = choose|j: int| 0 <= j < through.len() && (#[trigger] through[j]).0 == csid;
            assert(through[j] == (csid, value));
        }
    }
}

} // verus!
