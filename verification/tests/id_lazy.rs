use derived_data::error::Error;
use derived_data::id_lazy::{Group, Id, IdConvert, IdLazySet, IdStaticSet, VertexName};

type Source = std::vec::IntoIter<Result<Id, Error>>;

fn lazy_set(a: &[u64]) -> IdLazySet<Source, StrIdMap> {
    let ids: Vec<Result<Id, Error>> = a.iter().map(|i| Ok(Id(*i as _))).collect();
    IdLazySet::from_iter_idmap(ids.into_iter(), StrIdMap)
}

fn failing_set(a: &[u64], then: Error) -> IdLazySet<Source, StrIdMap> {
    let mut ids: Vec<Result<Id, Error>> = a.iter().map(|i| Ok(Id(*i as _))).collect();
    ids.push(Err(then));
    ids.push(Ok(Id(0xff)));
    IdLazySet::from_iter_idmap(ids.into_iter(), StrIdMap)
}

struct StrIdMap;

impl IdConvert for StrIdMap {
    fn vertex_id(&self, name: VertexName) -> Result<Id, Error> {
        let slice: [u8; 8] = name.0.as_slice().try_into().map_err(|_| Error::Store("not an id".to_string()))?;
        Ok(Id(u64::from_le_bytes(slice)))
    }
    fn vertex_id_with_max_group(&self, name: &VertexName, _max_group: Group) -> Result<Option<Id>, Error> {
        if name.0.len() == 8 {
            let id = self.vertex_id(name.clone())?;
            Ok(Some(id))
        } else {
            Ok(None)
        }
    }
    fn vertex_name(&self, id: Id) -> Result<VertexName, Error> {
        Ok(VertexName(id.0.to_le_bytes().to_vec()))
    }
    fn contains_vertex_name(&self, name: &VertexName) -> Result<bool, Error> {
        Ok(name.0.len() == 8)
    }
}

fn name_of(id: u64) -> VertexName {
    VertexName(id.to_le_bytes().to_vec())
}

fn shorten_name(name: VertexName) -> String {
    let hex: String = name.0.iter().map(|b| format!("{:02x}", b)).collect();
    hex[..2].to_string()
}

fn shorten_iter(set: &mut IdLazySet<Source, StrIdMap>) -> Vec<String> {
    let mut iter = set.iter();
    let mut names = Vec::new();
    while let Some(name) = iter.next(set) {
        names.push(shorten_name(name.unwrap()));
    }
    names
}

fn shorten_iter_rev(set: &mut IdLazySet<Source, StrIdMap>) -> Vec<String> {
    set.iter_rev().unwrap().into_iter().map(|name| shorten_name(name.unwrap())).collect()
}

/// What holds of every set, whatever its ids.
fn check_invariants(set: &mut IdLazySet<Source, StrIdMap>) -> Result<(), Error> {
    let forward = shorten_iter(set);
    let mut backward = shorten_iter_rev(set);
    backward.reverse();
    assert_eq!(forward, backward);
    assert_eq!(set.count()?, forward.len());
    assert_eq!(set.is_empty()?, forward.is_empty());
    assert_eq!(set.first()?.map(shorten_name), forward.first().cloned());
    assert_eq!(set.last()?.map(shorten_name), forward.last().cloned());
    let all: IdStaticSet = set.to_static()?;
    assert_eq!(all.ids.len(), forward.len());
    for id in all.ids {
        assert!(set.contains(&name_of(id.0))?);
    }
    assert!(!set.contains(&VertexName(vec![1, 2, 3]))?);
    Ok(())
}

#[test]
fn test_id_lazy_basic() -> Result<(), Error> {
    let mut set = lazy_set(&[0x11, 0x33, 0x22, 0x77, 0x55]);
    check_invariants(&mut set)?;
    assert_eq!(shorten_iter(&mut set), ["11", "33", "22", "77", "55"]);
    assert_eq!(shorten_iter_rev(&mut set), ["55", "77", "22", "33", "11"]);
    assert!(!set.is_empty()?);
    assert_eq!(set.count()?, 5);
    assert_eq!(shorten_name(set.first()?.unwrap()), "11");
    assert_eq!(shorten_name(set.last()?.unwrap()), "55");
    Ok(())
}

#[test]
fn test_debug() {
    let set = lazy_set(&[0]);
    assert_eq!(set.debug_string(), "<lazy-id>");
}

#[test]
fn ids_are_counted_once() {
    let mut set = lazy_set(&[3, 1, 3, 2, 1, 3]);
    assert_eq!(set.count(), Ok(3));
    assert_eq!(set.to_static(), Ok(IdStaticSet { ids: vec![Id(3), Id(1), Id(2)] }));
    assert_eq!(set.ids_rev(), Ok(vec![Id(2), Id(1), Id(3)]));
    assert_eq!(set.last_id(), Ok(Some(Id(2))));
    assert_eq!(set.first_id(), Ok(Some(Id(3))));
    let mut empty = lazy_set(&[]);
    assert_eq!(empty.count(), Ok(0));
    assert_eq!(empty.is_empty(), Ok(true));
    assert_eq!(empty.last(), Ok(None));
    assert_eq!(empty.first(), Ok(None));
}

#[test]
fn membership_reads_no_further_than_needed() {
    let mut set = lazy_set(&[7, 8, 9, 10]);
    assert_eq!(set.contains(&name_of(8)), Ok(true));
    // 9 and 10 were not read yet
    let mut out = Vec::new();
    set.load_more(1, &mut out, true).unwrap();
    assert_eq!(out, vec![Id(9)]);
    assert_eq!(set.is_completed(), Ok(false));
    assert_eq!(set.contains_id(Some(Id(7))), Ok(true));
    assert_eq!(set.contains_id(Some(Id(11))), Ok(false));
    assert_eq!(set.is_completed(), Ok(true));
    assert_eq!(set.contains_id(None), Ok(false));
    // nothing is read once the set is complete
    set.load_more(5, &mut out, true).unwrap();
    assert_eq!(out, vec![Id(9)]);
}

#[test]
fn load_more_reads_what_it_is_asked_for() {
    let mut set = lazy_set(&[5, 6, 5, 7]);
    let mut out = Vec::new();
    set.load_more(0, &mut out, true).unwrap();
    assert!(out.is_empty());
    set.load_more(3, &mut out, false).unwrap();
    assert!(out.is_empty());
    set.load_more(3, &mut out, true).unwrap();
    assert_eq!(out, vec![Id(7)]);
    assert_eq!(set.is_completed(), Ok(true));
    assert_eq!(set.count(), Ok(3));
}

#[test]
fn failure_of_the_source_makes_the_set_unusable() {
    let mut set = failing_set(&[1, 2], Error::Store("boom".to_string()));
    assert_eq!(set.contains_id(Some(Id(2))), Ok(true));
    assert_eq!(set.contains_id(Some(Id(3))), Err(Error::Store("boom".to_string())));
    assert_eq!(set.is_completed(), Err(Error::IterationErrored));
    assert_eq!(set.contains_id(Some(Id(3))), Err(Error::IterationErrored));
    assert_eq!(set.count(), Err(Error::IterationErrored));
    // what was read stays known
    assert_eq!(set.contains_id(Some(Id(1))), Ok(true));
    let mut iter = set.iter();
    assert_eq!(iter.next_id(&mut set), Some(Err(Error::IterationErrored)));
    let mut out = Vec::new();
    assert_eq!(set.load_more(1, &mut out, true), Err(Error::IterationErrored));
}

#[test]
fn cursor_walks_the_set_and_stops_at_its_end() {
    let mut set = lazy_set(&[4, 4, 5]);
    let mut iter = set.iter();
    assert_eq!(iter.next_id(&mut set), Some(Ok(Id(4))));
    assert_eq!(iter.next_id(&mut set), Some(Ok(Id(5))));
    assert_eq!(iter.next_id(&mut set), None);
    assert_eq!(iter.next_id(&mut set), None);
    let mut failing = failing_set(&[4], Error::Store("boom".to_string()));
    let mut iter = failing.iter();
    assert_eq!(iter.next(&mut failing), Some(Ok(name_of(4))));
    assert_eq!(iter.next(&mut failing), Some(Err(Error::Store("boom".to_string()))));
    assert_eq!(iter.next(&mut failing), Some(Err(Error::IterationErrored)));
}

#[test]
fn absorbing_follows_the_source() {
    let mut set = lazy_set(&[]);
    assert_eq!(set.absorb(Some(Ok(Id(9)))), Ok(Some(Id(9))));
    assert_eq!(set.absorb(Some(Ok(Id(9)))), Ok(Some(Id(9))));
    assert_eq!(set.is_completed(), Ok(false));
    assert_eq!(set.absorb(None), Ok(None));
    assert_eq!(set.is_completed(), Ok(true));
    assert_eq!(set.count(), Ok(1));
    assert_eq!(set.absorb(Some(Err(Error::Store("late".to_string())))), Err(Error::Store("late".to_string())));
    assert_eq!(set.is_completed(), Err(Error::IterationErrored));
}

#[test]
fn failed_set_fails_every_question() {
    let mut set = failing_set(&[1, 2], Error::Store("boom".to_string()));
    assert_eq!(set.count(), Err(Error::Store("boom".to_string())));
    assert_eq!(set.count(), Err(Error::IterationErrored));
    assert_eq!(set.to_static(), Err(Error::IterationErrored));
    assert_eq!(set.ids_rev(), Err(Error::IterationErrored));
    assert_eq!(set.iter_rev(), Err(Error::IterationErrored));
    assert_eq!(set.is_empty(), Err(Error::IterationErrored));
    assert_eq!(set.first(), Err(Error::IterationErrored));
    assert_eq!(set.last(), Err(Error::IterationErrored));
    let mut iter = set.iter();
    assert_eq!(iter.next(&mut set), Some(Err(Error::IterationErrored)));
    assert_eq!(iter.next(&mut set), Some(Err(Error::IterationErrored)));
}

#[test]
fn reading_nothing_changes_nothing() {
    let mut set = lazy_set(&[3, 1]);
    let mut out = vec![Id(8)];
    assert_eq!(set.load_more(0, &mut out, true), Ok(()));
    assert_eq!(out, vec![Id(8)]);
    assert_eq!(set.is_completed(), Ok(false));
    assert_eq!(shorten_iter(&mut set), ["03", "01"]);
}

#[test]
fn whole_set_comes_in_the_order_of_the_source() {
    let mut set = lazy_set(&[9, 2, 9, 4, 2]);
    assert_eq!(set.to_static(), Ok(IdStaticSet { ids: vec![Id(9), Id(2), Id(4)] }));
    assert_eq!(set.ids_rev(), Ok(vec![Id(4), Id(2), Id(9)]));
    assert_eq!(shorten_iter_rev(&mut set), ["04", "02", "09"]);
    assert_eq!(set.count(), Ok(3));
}
