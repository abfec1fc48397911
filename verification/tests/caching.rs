use derived_data::caching::{
    get_cache_key, get_keygen, report_mc_result, CachingChangesets, KeyGen, McErrorKind, McStats, MockStore,
    MockStoreStats,
};
use derived_data::changeset_entry::{
    decode_for, deserialize_changeset_entry, serialize_changeset_entry, ChangesetEntry, ChangesetInsert,
};
use derived_data::changesets::{
    Changesets, ChangesetIdPrefix, ChangesetIdsResolvedFromPrefix, MemChangesets,
};
use derived_data::error::Error;
use derived_data::types::{ChangesetId, RepositoryId};

fn id(n: u128) -> ChangesetId {
    ChangesetId::new(0, n)
}

fn repo() -> RepositoryId {
    RepositoryId::new(1)
}

fn insert(n: u128, parents: &[u128]) -> ChangesetInsert {
    ChangesetInsert { repo_id: repo(), cs_id: id(n), parents: parents.iter().map(|p| id(*p)).collect() }
}

/// 1 <- 2 <- 3, and 4 with parents 2 and 3
fn store() -> MemChangesets {
    let mut store = MemChangesets::new();
    assert_eq!(store.add(insert(1, &[])), Ok(true));
    assert_eq!(store.add(insert(2, &[1])), Ok(true));
    assert_eq!(store.add(insert(3, &[2])), Ok(true));
    assert_eq!(store.add(insert(4, &[2, 3])), Ok(true));
    store
}

fn entry(n: u128, parents: &[u128], gen: u64) -> ChangesetEntry {
    ChangesetEntry { repo_id: repo(), cs_id: id(n), parents: parents.iter().map(|p| id(*p)).collect(), gen }
}

#[test]
fn cache_key_is_prefix_dot_hex() {
    let cs = ChangesetId::new(0x0123456789abcdef_0011223344556677, 0x8899aabbccddeeff_fedcba9876543210);
    assert_eq!(
        get_cache_key(RepositoryId::new(1), &cs),
        "repo0001..0123456789abcdef00112233445566778899aabbccddeefffedcba9876543210"
    );
    assert_eq!(cs.to_hex().len(), 64);
    assert_eq!(RepositoryId::new(0).prefix(), "repo0000.");
    assert_eq!(RepositoryId::new(12345).prefix(), "repo12345.");
    assert_eq!(RepositoryId::new(-1).prefix(), "repo-001.");
    assert_eq!(RepositoryId::new(i32::MAX).prefix(), "repo2147483647.");
    assert_eq!(RepositoryId::new(i32::MIN).prefix(), "repo-2147483648.");
    assert_eq!(RepositoryId::new(-7).prefix(), format!("repo{:04}.", -7));
    assert_eq!(RepositoryId::new(42).prefix(), format!("repo{:04}.", 42));
}

#[test]
fn keys_of_the_distributed_tier_name_the_versions() {
    let keygen = KeyGen::new("scm.test", 3, 14);
    assert_eq!(keygen.key("k"), "scm.test:c3:s14:k");
    assert_ne!(KeyGen::new("scm.test", 4, 14).key("k"), keygen.key("k"));
    assert_ne!(KeyGen::new("scm.test", 3, 15).key("k"), keygen.key("k"));
    assert_eq!(get_keygen().key("repo0001..x"), "scm.mononoke.changesets:c0:s0:repo0001..x");
    assert_eq!(KeyGen::new("p", u32::MAX, 0).key(""), "p:c4294967295:s0:");
}

#[test]
fn entry_bytes_are_tagged_fields() {
    let e = ChangesetEntry {
        repo_id: RepositoryId::new(2),
        cs_id: ChangesetId::new(1, 3),
        parents: vec![],
        gen: 5,
    };
    let bytes = serialize_changeset_entry(&e);
    let mut expected = vec![1u8, 2, 0, 0, 0, 2];
    expected.extend_from_slice(&1u128.to_le_bytes());
    expected.extend_from_slice(&3u128.to_le_bytes());
    expected.push(3);
    expected.extend_from_slice(&0u64.to_le_bytes());
    expected.push(4);
    expected.extend_from_slice(&5u64.to_le_bytes());
    assert_eq!(bytes, expected);
    assert_eq!(bytes.len(), 56);
}

#[test]
fn entries_survive_the_way_through_bytes() {
    for e in [
        entry(1, &[], 1),
        entry(4, &[2, 3], 3),
        ChangesetEntry {
            repo_id: RepositoryId::new(-5),
            cs_id: ChangesetId::new(u128::MAX, 0),
            parents: vec![ChangesetId::new(7, u128::MAX); 20],
            gen: u64::MAX,
        },
    ] {
        let bytes = serialize_changeset_entry(&e);
        assert_eq!(bytes.len(), 56 + 32 * e.parents.len());
        assert_eq!(deserialize_changeset_entry(&bytes), Ok(e.clone()));
        assert_eq!(decode_for(&bytes, e.repo_id, e.cs_id), Some(e.clone()));
        assert_eq!(decode_for(&bytes, e.repo_id, id(99)), None);
    }
}

#[test]
fn damaged_bytes_are_no_entry() {
    let bytes = serialize_changeset_entry(&entry(4, &[2, 3], 3));
    assert_eq!(deserialize_changeset_entry(&[]), Err(()));
    assert_eq!(deserialize_changeset_entry(&bytes[..bytes.len() - 1]), Err(()));
    let mut longer = bytes.clone();
    longer.push(0);
    assert_eq!(deserialize_changeset_entry(&longer), Err(()));
    for at in [0usize, 5, 38, 47 + 64] {
        let mut wrong = bytes.clone();
        wrong[at] ^= 0x40;
        assert_eq!(deserialize_changeset_entry(&wrong), Err(()));
    }
    let mut count = bytes.clone();
    count[39] = 3;
    assert_eq!(deserialize_changeset_entry(&count), Err(()));
}

#[test]
fn store_computes_generations() {
    let mut store = store();
    assert_eq!(store.get(repo(), id(1)), Ok(Some(entry(1, &[], 1))));
    assert_eq!(store.get(repo(), id(4)), Ok(Some(entry(4, &[2, 3], 4))));
    assert_eq!(store.get(repo(), id(9)), Ok(None));
    assert_eq!(store.get(RepositoryId::new(2), id(1)), Ok(None));
    assert_eq!(store.add(insert(1, &[])), Ok(false));
    assert_eq!(store.add(insert(8, &[9])), Err(Error::NotFound(id(9))));
    assert_eq!(store.get(repo(), id(8)), Ok(None));
}

#[test]
fn lookups_through_the_cache_equal_lookups_in_the_store() {
    let mut direct = store();
    let mut caching = CachingChangesets::mocked(store());
    for round in 0..3 {
        for n in [1u128, 4, 9, 2] {
            assert_eq!(caching.get(repo(), id(n)), direct.get(repo(), id(n)), "round {}", round);
        }
        let mut through = caching.get_many(repo(), vec![id(3), id(9), id(1), id(3)]).unwrap();
        let mut plain = direct.get_many(repo(), vec![id(3), id(9), id(1), id(3)]).unwrap();
        through.sort_by_key(|e| e.cs_id);
        plain.sort_by_key(|e| e.cs_id);
        assert_eq!(through, plain);
        assert_eq!(through.len(), 2);
        if round == 1 {
            caching.clear_caches();
        }
    }
}

#[test]
fn first_lookup_fills_both_tiers_and_the_next_is_local() {
    let mut caching = CachingChangesets::mocked(store());
    assert_eq!(caching.get(repo(), id(2)), Ok(Some(entry(2, &[1], 2))));
    assert_eq!(caching.cachelib_stats(), MockStoreStats { sets: 1, gets: 1, hits: 0, misses: 1 });
    assert_eq!(caching.memcache_stats(), MockStoreStats { sets: 1, gets: 1, hits: 0, misses: 1 });
    assert_eq!(
        caching.mc_stats(),
        McStats { memcache_hit: 0, memcache_miss: 1, memcache_internal_err: 0, memcache_deserialize_err: 0 }
    );
    assert_eq!(caching.get(repo(), id(2)), Ok(Some(entry(2, &[1], 2))));
    assert_eq!(caching.cachelib_stats(), MockStoreStats { sets: 1, gets: 2, hits: 1, misses: 1 });
    assert_eq!(caching.memcache_stats(), MockStoreStats { sets: 1, gets: 1, hits: 0, misses: 1 });
}

#[test]
fn another_process_finds_the_entry_in_the_distributed_tier() {
    let mut caching = CachingChangesets::mocked(store());
    caching.get(repo(), id(2)).unwrap();
    let mut forked = caching.fork_cachelib();
    assert_eq!(forked.cachelib_stats(), MockStoreStats { sets: 0, gets: 0, hits: 0, misses: 0 });
    assert_eq!(forked.get(repo(), id(2)), Ok(Some(entry(2, &[1], 2))));
    assert_eq!(forked.memcache_stats(), MockStoreStats { sets: 1, gets: 2, hits: 1, misses: 1 });
    assert_eq!(forked.cachelib_stats(), MockStoreStats { sets: 1, gets: 1, hits: 0, misses: 1 });
    assert_eq!(forked.mc_stats().memcache_hit, 1);
}

#[test]
fn unreadable_cache_changes_counters_only() {
    let mut caching = CachingChangesets::mocked(store());
    let value = caching.get(repo(), id(3)).unwrap();
    caching.damage_cached(repo(), id(3));
    let before = caching.mc_stats();
    assert_eq!(caching.get(repo(), id(3)).unwrap(), value);
    let after = caching.mc_stats();
    assert_eq!(after.memcache_deserialize_err, before.memcache_deserialize_err + 1);
    assert_eq!(after.memcache_hit, before.memcache_hit);
    // the lookup has repaired both tiers
    let gets = caching.memcache_stats().gets;
    assert_eq!(caching.get(repo(), id(3)).unwrap(), value);
    assert_eq!(caching.memcache_stats().gets, gets);
}

#[test]
fn unreachable_tier_is_counted_and_passed_by() {
    let mut caching = CachingChangesets::mocked(store());
    caching.set_memcache_reachable(false);
    assert_eq!(caching.get(repo(), id(1)), Ok(Some(entry(1, &[], 1))));
    assert_eq!(caching.mc_stats().memcache_internal_err, 1);
    assert_eq!(caching.memcache_stats(), MockStoreStats { sets: 0, gets: 0, hits: 0, misses: 0 });
}

#[test]
fn outcomes_are_counted_one_by_one() {
    let mut stats =
        McStats { memcache_hit: 0, memcache_miss: 0, memcache_internal_err: 0, memcache_deserialize_err: u64::MAX };
    report_mc_result(&mut stats, Ok(()));
    report_mc_result(&mut stats, Err(McErrorKind::Missing));
    report_mc_result(&mut stats, Err(McErrorKind::Missing));
    report_mc_result(&mut stats, Err(McErrorKind::MemcacheInternal));
    report_mc_result(&mut stats, Err(McErrorKind::Deserialization));
    assert_eq!(
        stats,
        McStats { memcache_hit: 1, memcache_miss: 2, memcache_internal_err: 1, memcache_deserialize_err: u64::MAX }
    );
}

#[test]
fn a_tier_holds_what_was_set_last() {
    let mut tier = MockStore::create_mock();
    assert_eq!(tier.get(&"k".to_string()), Err(McErrorKind::Missing));
    tier.set("k".to_string(), vec![1]);
    tier.set("k".to_string(), vec![2]);
    tier.set("l".to_string(), vec![3]);
    assert_eq!(tier.get(&"k".to_string()), Ok(vec![2]));
    tier.set_reachable(false);
    tier.set("k".to_string(), vec![9]);
    assert_eq!(tier.get(&"k".to_string()), Err(McErrorKind::MemcacheInternal));
    tier.set_reachable(true);
    assert_eq!(tier.get(&"k".to_string()), Ok(vec![2]));
    assert_eq!(tier.stats(), MockStoreStats { sets: 3, gets: 3, hits: 2, misses: 1 });
    tier.clear();
    assert_eq!(tier.get(&"k".to_string()), Err(McErrorKind::Missing));
}

#[test]
fn primed_entries_are_found_locally() {
    let mut caching = CachingChangesets::mocked(store());
    caching.prime_cache(&[entry(1, &[], 1), entry(2, &[1], 2)]);
    assert_eq!(caching.cachelib_stats().sets, 2);
    assert_eq!(caching.get(repo(), id(2)), Ok(Some(entry(2, &[1], 2))));
    assert_eq!(caching.cachelib_stats().hits, 1);
    assert_eq!(caching.memcache_stats().gets, 0);
}

#[test]
fn whole_ids_resolve_through_the_cache_and_prefixes_in_the_store() {
    let mut caching = CachingChangesets::mocked(store());
    let whole = ChangesetIdPrefix::from_id(id(2));
    assert_eq!(caching.get_many_by_prefix(repo(), whole, 10), Ok(ChangesetIdsResolvedFromPrefix::Single(id(2))));
    assert_eq!(caching.get_many_by_prefix(repo(), whole, 0), Ok(ChangesetIdsResolvedFromPrefix::NoMatch));
    assert_eq!(
        caching.get_many_by_prefix(repo(), ChangesetIdPrefix::from_id(id(77)), 10),
        Ok(ChangesetIdsResolvedFromPrefix::NoMatch)
    );
    assert!(caching.cachelib_stats().gets > 0);
    let gets = caching.cachelib_stats().gets;
    // all four ids begin with 60 zeros
    let zeros = ChangesetIdPrefix { hi: 0, lo: 0, len: 60 };
    assert_eq!(
        caching.get_many_by_prefix(repo(), zeros, 10),
        Ok(ChangesetIdsResolvedFromPrefix::Multiple(vec![id(1), id(2), id(3), id(4)]))
    );
    assert_eq!(
        caching.get_many_by_prefix(repo(), zeros, 2),
        Ok(ChangesetIdsResolvedFromPrefix::TooMany(vec![id(1), id(2)]))
    );
    let none = ChangesetIdPrefix { hi: 1 << 127, lo: 0, len: 1 };
    assert_eq!(caching.get_many_by_prefix(repo(), none, 2), Ok(ChangesetIdsResolvedFromPrefix::NoMatch));
    assert_eq!(caching.cachelib_stats().gets, gets);
    assert!(zeros.is_prefix_of(id(0xffff)));
    assert!(!zeros.is_prefix_of(id(0x10000)));
    assert!(ChangesetIdPrefix { hi: 0xab << 120, lo: 0, len: 2 }.is_prefix_of(ChangesetId::new(0xab << 120 | 5, 9)));
    assert!(!ChangesetIdPrefix { hi: 0xab << 120, lo: 0, len: 2 }.is_prefix_of(ChangesetId::new(0xac << 120, 0)));
    assert!(ChangesetIdPrefix { hi: 7, lo: 0x10 << 120, len: 34 }.is_prefix_of(ChangesetId::new(7, 0x10 << 120 | 1)));
    assert!(!ChangesetIdPrefix { hi: 7, lo: 0x10 << 120, len: 34 }.is_prefix_of(ChangesetId::new(7, 0x11 << 120)));
}

#[test]
fn adding_goes_to_the_store() {
    let mut caching = CachingChangesets::mocked(store());
    assert_eq!(caching.get(repo(), id(5)), Ok(None));
    assert_eq!(caching.add(insert(5, &[4])), Ok(true));
    assert_eq!(caching.get(repo(), id(5)), Ok(Some(entry(5, &[4], 5))));
    assert_eq!(caching.add(insert(5, &[4])), Ok(false));
}

#[test]
fn keys_of_different_changesets_differ() {
    let a = ChangesetId::new(1, 2);
    let b = ChangesetId::new(2, 1);
    assert_ne!(get_cache_key(RepositoryId::new(1), &a), get_cache_key(RepositoryId::new(1), &b));
    assert_ne!(get_cache_key(RepositoryId::new(1), &a), get_cache_key(RepositoryId::new(11), &a));
    assert_ne!(get_cache_key(RepositoryId::new(1), &a), get_cache_key(RepositoryId::new(-1), &a));
    assert_ne!(get_cache_key(RepositoryId::new(0), &a), get_cache_key(RepositoryId::new(10000), &a));
    assert_eq!(get_cache_key(RepositoryId::new(7), &a), get_cache_key(RepositoryId::new(7), &a.clone()));
}

#[test]
fn lookups_that_the_local_tier_answers_are_not_counted() {
    let mut caching = CachingChangesets::mocked(store());
    caching.get(repo(), id(1)).unwrap();
    let counted = caching.mc_stats();
    for _ in 0..3 {
        caching.get(repo(), id(1)).unwrap();
    }
    assert_eq!(caching.mc_stats(), counted);
    // what the store lacks is looked up in the distributed tier each time
    caching.get(repo(), id(9)).unwrap();
    caching.get(repo(), id(9)).unwrap();
    assert_eq!(caching.mc_stats().memcache_miss, counted.memcache_miss + 2);
}

#[test]
fn misses_are_the_keys_of_which_no_tier_holds_the_entry() {
    let mut caching = CachingChangesets::mocked(store());
    let (found, left) = caching.misses(repo(), &vec![id(1), id(5), id(1), id(5)]);
    assert!(found.is_empty());
    assert_eq!(left, vec![id(1), id(5)]);
    assert!(caching.get(repo(), id(1)).unwrap().is_some());
    assert!(caching.get(repo(), id(3)).unwrap().is_some());
    let (found, left) = caching.misses(repo(), &vec![id(2), id(1), id(5), id(3), id(2), id(1)]);
    assert_eq!(found.iter().map(|entry| entry.cs_id).collect::<Vec<_>>(), vec![id(1), id(3)]);
    assert_eq!(left, vec![id(2), id(5)]);
    // the store was not asked: what it holds for 2 is still in no tier
    let (found, left) = caching.misses(repo(), &vec![id(2)]);
    assert!(found.is_empty());
    assert_eq!(left, vec![id(2)]);
}

#[test]
fn entry_found_in_the_distributed_tier_is_no_miss() {
    let mut caching = CachingChangesets::mocked(store());
    assert!(caching.get(repo(), id(4)).unwrap().is_some());
    let mut forked = caching.fork_cachelib();
    let before = forked.mc_stats();
    let (found, left) = forked.misses(repo(), &vec![id(4), id(1)]);
    assert_eq!(found.iter().map(|entry| entry.cs_id).collect::<Vec<_>>(), vec![id(4)]);
    assert_eq!(left, vec![id(1)]);
    assert_eq!(forked.mc_stats().memcache_hit, before.memcache_hit + 1);
    assert_eq!(forked.mc_stats().memcache_miss, before.memcache_miss + 1);
}
