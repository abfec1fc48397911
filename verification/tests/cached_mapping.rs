use derived_data::cached_mapping::{decode_value, Cacheable, CachedMapping};
use derived_data::caching::{KeyGen, MockStoreStats};
use derived_data::derive_impl;
use derived_data::generation::Generation;
use derived_data::mapping::{BonsaiDerivedMapping, MemMapping, RegenerateMapping};
use derived_data::types::{BonsaiChangeset, ChangesetId, RepositoryId};

fn id(n: u128) -> ChangesetId {
    ChangesetId::new(0, n)
}

fn gen(value: u64) -> Generation {
    Generation { value }
}

fn cached(base: MemMapping<Generation>) -> CachedMapping<MemMapping<Generation>> {
    CachedMapping::new(base, RepositoryId::new(1), "generation", KeyGen::new("scm.test.derived", 1, 1))
}

fn base() -> MemMapping<Generation> {
    let mut base = MemMapping::new();
    base.put(id(1), gen(1)).unwrap();
    base.put(id(2), gen(2)).unwrap();
    base.put(id(3), gen(3)).unwrap();
    base
}

fn sorted(mut found: Vec<(ChangesetId, Generation)>) -> Vec<(ChangesetId, Generation)> {
    found.sort();
    found
}

#[test]
fn values_survive_the_way_through_bytes() {
    for value in [0u64, 1, 0x0102030405060708, u64::MAX] {
        let bytes = gen(value).serialize();
        assert_eq!(bytes, value.to_le_bytes().to_vec());
        assert_eq!(Generation::deserialize(&bytes), Some(gen(value)));
    }
    assert_eq!(Generation::deserialize(&[1, 2, 3]), None);
    assert_eq!(Generation::deserialize(&[0; 9]), None);
    let mut blob = Vec::new();
    blob.extend_from_slice(&0u128.to_le_bytes());
    blob.extend_from_slice(&7u128.to_le_bytes());
    blob.extend_from_slice(&5u64.to_le_bytes());
    assert_eq!(decode_value::<Generation>(&blob, id(7)), Some(gen(5)));
    assert_eq!(decode_value::<Generation>(&blob, id(8)), None);
    assert_eq!(decode_value::<Generation>(&blob[..39].to_vec(), id(7)), None);
    assert_eq!(decode_value::<Generation>(&vec![], id(7)), None);
}

#[test]
fn lookups_through_the_cache_equal_lookups_in_the_mapping_underneath() {
    let mut direct = base();
    let mut mapping = cached(base());
    let asked = vec![id(3), id(9), id(1), id(3)];
    let plain = sorted(direct.get(asked.clone()).unwrap());
    assert_eq!(plain, vec![(id(1), gen(1)), (id(3), gen(3))]);
    // from the mapping underneath, from the tiers, and with the tiers emptied
    assert_eq!(sorted(mapping.get(asked.clone()).unwrap()), plain);
    assert_eq!(sorted(mapping.get(asked.clone()).unwrap()), plain);
    mapping.clear_caches();
    assert_eq!(sorted(mapping.get(asked.clone()).unwrap()), plain);
}

#[test]
fn first_lookup_of_a_value_fills_the_tiers() {
    let mut mapping = cached(base());
    assert_eq!(mapping.get(vec![id(2)]).unwrap(), vec![(id(2), gen(2))]);
    assert_eq!(mapping.cachelib_stats(), MockStoreStats { sets: 1, gets: 1, hits: 0, misses: 1 });
    assert_eq!(mapping.memcache_stats(), MockStoreStats { sets: 1, gets: 1, hits: 0, misses: 1 });
    assert_eq!(mapping.mc_stats().memcache_miss, 1);
    assert_eq!(mapping.get(vec![id(2)]).unwrap(), vec![(id(2), gen(2))]);
    assert_eq!(mapping.cachelib_stats(), MockStoreStats { sets: 1, gets: 2, hits: 1, misses: 1 });
    assert_eq!(mapping.memcache_stats().gets, 1);
    // what the mapping lacks is asked for each time
    assert_eq!(mapping.get(vec![id(9)]).unwrap(), vec![]);
    assert_eq!(mapping.get(vec![id(9)]).unwrap(), vec![]);
    assert_eq!(mapping.mc_stats().memcache_miss, 3);
}

#[test]
fn unreadable_value_changes_counters_only() {
    let mut mapping = cached(base());
    let value = mapping.get(vec![id(3)]).unwrap();
    mapping.damage_cached(id(3));
    let before = mapping.mc_stats();
    assert_eq!(mapping.get(vec![id(3)]).unwrap(), value);
    let after = mapping.mc_stats();
    assert_eq!(after.memcache_deserialize_err, before.memcache_deserialize_err + 1);
    assert_eq!(after.memcache_hit, before.memcache_hit);
    assert_eq!(after.memcache_miss, before.memcache_miss);
}

#[test]
fn put_writes_through_and_replaces_what_the_tiers_held() {
    let mut mapping = cached(base());
    assert_eq!(mapping.get(vec![id(2)]).unwrap(), vec![(id(2), gen(2))]);
    mapping.put(id(2), gen(20)).unwrap();
    mapping.put(id(4), gen(4)).unwrap();
    assert_eq!(sorted(mapping.get(vec![id(2), id(4)]).unwrap()), vec![(id(2), gen(20)), (id(4), gen(4))]);
    // both were served by the process-local tier
    assert_eq!(mapping.memcache_stats().gets, 1);
    // a second put of the same value changes nothing that can be seen
    let stats = mapping.mc_stats();
    mapping.put(id(4), gen(4)).unwrap();
    assert_eq!(sorted(mapping.get(vec![id(2), id(4)]).unwrap()), vec![(id(2), gen(20)), (id(4), gen(4))]);
    assert_eq!(mapping.mc_stats(), stats);
}

#[test]
fn engine_derives_through_the_decorators() {
    let ancestors: Vec<BonsaiChangeset> = [(1u128, vec![]), (2, vec![1]), (3, vec![1]), (4, vec![2, 3])]
        .iter()
        .map(|(n, parents)| BonsaiChangeset {
            id: id(*n),
            parents: parents.iter().map(|p| id(*p)).collect(),
            author: String::new(),
            message: String::new(),
            file_changes: Vec::new(),
            extra: Vec::new(),
        })
        .collect();
    let mut mapping = RegenerateMapping::new(cached(MemMapping::new()));
    let done = derive_impl::derive_impl::<Generation, _>(&mut mapping, id(4), &ancestors).unwrap();
    assert_eq!(done.value, gen(3));
    assert_eq!(done.derived.len(), 4);
    mapping.regenerate(vec![id(3)]);
    assert_eq!(mapping.get(vec![id(3), id(4)]).unwrap(), vec![(id(4), gen(3))]);
    assert_eq!(derive_impl::derive::<Generation, _>(&mut mapping, id(3), &ancestors), Ok(gen(2)));
    assert_eq!(sorted(mapping.get(vec![id(3), id(4)]).unwrap()), vec![(id(3), gen(2)), (id(4), gen(3))]);
}

#[test]
fn misses_are_the_changesets_of_which_no_tier_holds_a_value() {
    let mut mapping = cached(base());
    let (found, left) = mapping.misses(&vec![id(1), id(9), id(1)]);
    assert!(found.is_empty());
    assert_eq!(left, vec![id(1), id(9)]);
    assert_eq!(mapping.get(vec![id(1), id(3)]).unwrap().len(), 2);
    let (found, left) = mapping.misses(&vec![id(2), id(3), id(9), id(1), id(3), id(2)]);
    assert_eq!(found, vec![(id(3), gen(3)), (id(1), gen(1))]);
    assert_eq!(left, vec![id(2), id(9)]);
}

#[test]
fn tiers_take_a_value_once_it_is_written_and_not_before() {
    let mut mapping = cached(base());
    let down = derived_data::error::Error::Store("no".to_string());
    assert_eq!(mapping.written(id(1), gen(1), Err(down.clone())), Err(down));
    assert_eq!(mapping.cachelib_stats(), MockStoreStats { sets: 0, gets: 0, hits: 0, misses: 0 });
    assert_eq!(mapping.memcache_stats(), MockStoreStats { sets: 0, gets: 0, hits: 0, misses: 0 });
    assert_eq!(mapping.written(id(1), gen(1), Ok(())), Ok(()));
    assert_eq!(mapping.cachelib_stats().sets, 1);
    assert_eq!(mapping.memcache_stats().sets, 1);
    let (found, left) = mapping.misses(&vec![id(1), id(2)]);
    assert_eq!(found, vec![(id(1), gen(1))]);
    assert_eq!(left, vec![id(2)]);
}
