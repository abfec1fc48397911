use derived_data::derive_impl;
use derived_data::derive_impl::{count_underived, find_underived, DeriveError};
use derived_data::generation::Generation;
use derived_data::mapping::{BonsaiDerivedMapping, MemMapping, RegenerateMapping};
use derived_data::types::{BonsaiChangeset, ChangesetId};

fn id(n: u128) -> ChangesetId {
    ChangesetId::new(0, n)
}

fn changeset(n: u128, parents: &[u128]) -> BonsaiChangeset {
    BonsaiChangeset {
        id: id(n),
        parents: parents.iter().map(|p| id(*p)).collect(),
        author: "author".to_string(),
        message: format!("changeset {}", n),
        file_changes: Vec::new(),
        extra: Vec::new(),
    }
}

/// root -> {left, right} -> merge
fn diamond() -> Vec<BonsaiChangeset> {
    vec![changeset(1, &[]), changeset(2, &[1]), changeset(3, &[1]), changeset(4, &[2, 3])]
}

#[test]
fn diamond_derives_parents_first() {
    let mut mapping: MemMapping<Generation> = MemMapping::new();
    let done = derive_impl::derive_impl::<Generation, _>(&mut mapping, id(4), &diamond()).unwrap();
    assert_eq!(done.value, Generation { value: 3 });
    let at = |n: u128| done.derived.iter().position(|c| *c == id(n)).unwrap();
    assert!(at(1) < at(2));
    assert!(at(1) < at(3));
    assert!(at(2) < at(4));
    assert!(at(3) < at(4));
    assert_eq!(done.derived.len(), 4);
}

#[test]
fn root_derives_from_no_parents() {
    let mut mapping: MemMapping<Generation> = MemMapping::new();
    let value = derive_impl::derive::<Generation, _>(&mut mapping, id(1), &vec![changeset(1, &[])]).unwrap();
    assert_eq!(value, Generation { value: 1 });
}

#[test]
fn merge_of_three_parents_takes_them_all() {
    let mut mapping: MemMapping<Generation> = MemMapping::new();
    let ancestors = vec![
        changeset(1, &[]),
        changeset(2, &[]),
        changeset(3, &[2]),
        changeset(4, &[3]),
        changeset(5, &[1, 2, 4]),
    ];
    let value = derive_impl::derive::<Generation, _>(&mut mapping, id(5), &ancestors).unwrap();
    assert_eq!(value, Generation { value: 4 });
}

#[test]
fn deriving_twice_gives_the_same_value_and_derives_nothing_anew() {
    let mut mapping: MemMapping<Generation> = MemMapping::new();
    let first = derive_impl::derive_impl::<Generation, _>(&mut mapping, id(4), &diamond()).unwrap();
    let len = mapping.len();
    let second = derive_impl::derive_impl::<Generation, _>(&mut mapping, id(4), &diamond()).unwrap();
    assert_eq!(first.value, second.value);
    assert!(second.derived.is_empty());
    assert_eq!(mapping.len(), len);
}

#[test]
fn second_put_of_the_same_value_changes_nothing() {
    let mut mapping: MemMapping<Generation> = MemMapping::new();
    mapping.put(id(7), Generation { value: 9 }).unwrap();
    let before = mapping.get(vec![id(7), id(8)]).unwrap();
    mapping.put(id(7), Generation { value: 9 }).unwrap();
    assert_eq!(mapping.get(vec![id(7), id(8)]).unwrap(), before);
    assert_eq!(before, vec![(id(7), Generation { value: 9 })]);
    assert_eq!(mapping.len(), 1);
}

#[test]
fn child_before_parent_is_refused() {
    let mut mapping: MemMapping<Generation> = MemMapping::new();
    let ancestors = vec![changeset(2, &[1]), changeset(1, &[])];
    let res = derive_impl::derive::<Generation, _>(&mut mapping, id(2), &ancestors);
    assert_eq!(res, Err(DeriveError::MissingParent { changeset: id(2), parent: id(1) }));
    assert_eq!(mapping.len(), 0);
}

#[test]
fn failed_request_keeps_what_was_derived() {
    let mut mapping: MemMapping<Generation> = MemMapping::new();
    let ancestors = vec![changeset(1, &[]), changeset(3, &[1, 2])];
    let res = derive_impl::derive::<Generation, _>(&mut mapping, id(3), &ancestors);
    assert_eq!(res, Err(DeriveError::MissingParent { changeset: id(3), parent: id(2) }));
    assert_eq!(mapping.get(vec![id(1)]).unwrap(), vec![(id(1), Generation { value: 1 })]);
    // a later request goes on from there
    let ancestors = vec![changeset(1, &[]), changeset(2, &[]), changeset(3, &[1, 2])];
    let done = derive_impl::derive_impl::<Generation, _>(&mut mapping, id(3), &ancestors).unwrap();
    assert_eq!(done.derived, vec![id(2), id(3)]);
    assert_eq!(done.value, Generation { value: 2 });
}

#[test]
fn unknown_changeset_is_not_found() {
    let mut mapping: MemMapping<Generation> = MemMapping::new();
    let res = derive_impl::derive::<Generation, _>(&mut mapping, id(9), &diamond());
    assert_eq!(res, Err(DeriveError::NotFound(id(9))));
    assert_eq!(DeriveError::NotFound(id(9)).message(), "changeset not found");
}

#[test]
fn underived_are_counted_up_to_the_limit() {
    let mut mapping: MemMapping<Generation> = MemMapping::new();
    assert_eq!(count_underived(&mut mapping, &diamond(), 10), Ok(4));
    assert_eq!(count_underived(&mut mapping, &diamond(), 3), Ok(3));
    assert_eq!(count_underived(&mut mapping, &diamond(), 0), Ok(0));
    derive_impl::derive::<Generation, _>(&mut mapping, id(2), &diamond()[..2].to_vec()).unwrap();
    assert_eq!(count_underived(&mut mapping, &diamond(), 10), Ok(2));
    assert_eq!(find_underived(&mut mapping, &diamond(), None), Ok(vec![id(3), id(4)]));
    assert_eq!(find_underived(&mut mapping, &diamond(), Some(1)), Ok(vec![id(3)]));
}

#[test]
fn regenerate_hides_a_value_until_it_is_put_again() {
    let mut base: MemMapping<Generation> = MemMapping::new();
    base.put(id(1), Generation { value: 1 }).unwrap();
    base.put(id(2), Generation { value: 2 }).unwrap();
    let mut mapping = RegenerateMapping::new(base);
    assert_eq!(mapping.get(vec![id(1), id(2)]).unwrap().len(), 2);
    mapping.regenerate(vec![id(1)]);
    assert!(mapping.is_flagged(id(1)));
    assert_eq!(mapping.get(vec![id(1), id(2)]).unwrap(), vec![(id(2), Generation { value: 2 })]);
    mapping.put(id(1), Generation { value: 5 }).unwrap();
    assert!(!mapping.is_flagged(id(1)));
    let mut found = mapping.get(vec![id(1), id(2)]).unwrap();
    found.sort();
    assert_eq!(found, vec![(id(1), Generation { value: 5 }), (id(2), Generation { value: 2 })]);
}

#[test]
fn regenerated_changeset_is_derived_anew() {
    let mut base: MemMapping<Generation> = MemMapping::new();
    derive_impl::derive::<Generation, _>(&mut base, id(4), &diamond()).unwrap();
    let mut mapping = RegenerateMapping::new(base);
    mapping.regenerate(vec![id(4), id(2)]);
    assert_eq!(count_underived(&mut mapping, &diamond(), 10), Ok(2));
    let done = derive_impl::derive_impl::<Generation, _>(&mut mapping, id(4), &diamond()).unwrap();
    assert_eq!(done.derived, vec![id(2), id(4)]);
    assert_eq!(done.value, Generation { value: 3 });
    assert!(!mapping.is_flagged(id(4)));
    assert_eq!(count_underived(&mut mapping, &diamond(), 10), Ok(0));
}

#[test]
fn summary_is_derived_for_its_effect() {
    let mut mapping: MemMapping<Generation> = MemMapping::new();
    assert_eq!(derived_data::fsnodes::derive_fsnodes::<Generation, _>(&mut mapping, id(4), &diamond()), Ok(()));
    assert_eq!(mapping.len(), 4);
    assert_eq!(
        derived_data::fsnodes::derive_fsnodes::<Generation, _>(&mut mapping, id(9), &diamond()),
        Err(DeriveError::NotFound(id(9)))
    );
}

#[test]
fn failure_of_the_mapping_is_handed_on() {
    let mut mapping: MemMapping<Generation> = MemMapping::new();
    derive_impl::derive::<Generation, _>(&mut mapping, id(2), &diamond()[..2].to_vec()).unwrap();
    mapping.set_available(false);
    let down = derived_data::error::Error::Store("the mapping is unavailable".to_string());
    let res = derive_impl::derive::<Generation, _>(&mut mapping, id(4), &diamond());
    assert_eq!(res, Err(DeriveError::Mapping(down.clone())));
    assert_eq!(res.unwrap_err().message(), "the mapping is unavailable");
    assert_eq!(count_underived(&mut mapping, &diamond(), 3), Err(down.clone()));
    assert_eq!(mapping.get(vec![id(1)]), Err(down.clone()));
    assert_eq!(mapping.put(id(9), Generation { value: 1 }), Err(down));
    mapping.set_available(true);
    // nothing was lost, and nothing was written
    assert_eq!(mapping.len(), 2);
    assert_eq!(derive_impl::derive::<Generation, _>(&mut mapping, id(4), &diamond()), Ok(Generation { value: 3 }));
}

#[test]
fn failure_of_a_derivation_names_the_changeset() {
    let mut mapping: MemMapping<Generation> = MemMapping::new();
    mapping.put(id(1), Generation { value: u64::MAX - 1 }).unwrap();
    let res = derive_impl::derive::<Generation, _>(&mut mapping, id(4), &diamond());
    assert_eq!(
        res,
        Err(DeriveError::Derivation { changeset: id(4), error: derived_data::error::Error::GenerationOverflow })
    );
    // what was derived on the way stays
    let mut found = mapping.get(vec![id(1), id(2), id(3), id(4)]).unwrap();
    found.sort();
    assert_eq!(
        found,
        vec![
            (id(1), Generation { value: u64::MAX - 1 }),
            (id(2), Generation { value: u64::MAX }),
            (id(3), Generation { value: u64::MAX }),
        ]
    );
    assert_eq!(derived_data::error::Error::GenerationOverflow.message(), "the generation number is too large");
}

#[test]
fn kinds_have_names() {
    assert_eq!(<Generation as derive_impl::BonsaiDerived>::name(), "generation");
}

#[test]
fn failed_put_keeps_the_flag() {
    let mut base: MemMapping<Generation> = MemMapping::new();
    base.put(id(1), Generation { value: 1 }).unwrap();
    base.set_available(false);
    let mut mapping = RegenerateMapping::new(base);
    mapping.regenerate(vec![id(1)]);
    let down = derived_data::error::Error::Store("the mapping is unavailable".to_string());
    assert_eq!(mapping.put(id(1), Generation { value: 5 }), Err(down));
    assert!(mapping.is_flagged(id(1)));
}

#[test]
fn put_of_another_changeset_keeps_the_flag() {
    let mut base: MemMapping<Generation> = MemMapping::new();
    base.put(id(1), Generation { value: 1 }).unwrap();
    let mut mapping = RegenerateMapping::new(base);
    mapping.regenerate(vec![id(1), id(2)]);
    mapping.put(id(2), Generation { value: 2 }).unwrap();
    assert!(mapping.is_flagged(id(1)));
    assert!(!mapping.is_flagged(id(2)));
    assert_eq!(mapping.get(vec![id(1), id(2)]).unwrap(), vec![(id(2), Generation { value: 2 })]);
}

#[test]
fn parents_come_in_the_order_of_the_changeset() {
    let found = vec![(id(2), Generation { value: 7 }), (id(3), Generation { value: 9 })];
    assert_eq!(
        derive_impl::parents_of_found(&found, &changeset(4, &[2, 3])),
        Ok(vec![Generation { value: 7 }, Generation { value: 9 }])
    );
    assert_eq!(
        derive_impl::parents_of_found(&found, &changeset(4, &[3, 2, 3])),
        Ok(vec![Generation { value: 9 }, Generation { value: 7 }, Generation { value: 9 }])
    );
    assert_eq!(derive_impl::parents_of_found(&found, &changeset(1, &[])), Ok(vec![]));
}

#[test]
fn first_parent_without_a_value_is_named() {
    let found = vec![(id(3), Generation { value: 9 })];
    assert_eq!(
        derive_impl::parents_of_found(&found, &changeset(4, &[3, 5, 6])),
        Err(DeriveError::MissingParent { changeset: id(4), parent: id(5) })
    );
    let none: Vec<(ChangesetId, Generation)> = Vec::new();
    assert_eq!(
        derive_impl::parents_of_found(&none, &changeset(2, &[1])),
        Err(DeriveError::MissingParent { changeset: id(2), parent: id(1) })
    );
}

#[test]
fn unflagged_are_what_the_base_is_asked_for() {
    let mut mapping = RegenerateMapping::new(MemMapping::<Generation>::new());
    assert_eq!(mapping.unflagged(&vec![id(1), id(2)]), vec![id(1), id(2)]);
    mapping.regenerate(vec![id(2), id(7)]);
    assert_eq!(mapping.unflagged(&vec![id(1), id(2), id(3), id(2), id(1)]), vec![id(1), id(3), id(1)]);
    assert_eq!(mapping.unflagged(&vec![id(7), id(2)]), Vec::<ChangesetId>::new());
    assert_eq!(mapping.unflagged(&vec![]), Vec::<ChangesetId>::new());
}

#[test]
fn flag_goes_with_a_write_and_stays_without() {
    let mut mapping = RegenerateMapping::new(MemMapping::<Generation>::new());
    mapping.regenerate(vec![id(1), id(2)]);
    let down = derived_data::error::Error::Store("no".to_string());
    assert_eq!(mapping.written(id(1), Err(down.clone())), Err(down));
    assert!(mapping.is_flagged(id(1)));
    assert_eq!(mapping.written(id(1), Ok(())), Ok(()));
    assert!(!mapping.is_flagged(id(1)));
    assert!(mapping.is_flagged(id(2)));
}

#[test]
fn underived_are_picked_from_the_answer_of_the_lookup() {
    let found = vec![(id(3), Generation { value: 2 }), (id(1), Generation { value: 1 })];
    assert_eq!(derive_impl::changeset_ids(&diamond()), vec![id(1), id(2), id(3), id(4)]);
    assert_eq!(derive_impl::underived_of(&found, &diamond(), None), vec![id(2), id(4)]);
    assert_eq!(derive_impl::underived_of(&found, &diamond(), Some(5)), vec![id(2), id(4)]);
    assert_eq!(derive_impl::underived_of(&found, &diamond(), Some(2)), vec![id(2), id(4)]);
    assert_eq!(derive_impl::underived_of(&found, &diamond(), Some(1)), vec![id(2)]);
    assert_eq!(derive_impl::underived_of(&found, &diamond(), Some(0)), Vec::<ChangesetId>::new());
    let none: Vec<(ChangesetId, Generation)> = Vec::new();
    assert_eq!(derive_impl::underived_of(&none, &diamond(), None), vec![id(1), id(2), id(3), id(4)]);
    assert_eq!(derive_impl::underived_of(&found, &vec![], None), Vec::<ChangesetId>::new());
}

#[test]
fn answer_for_the_changeset_is_its_value_or_not_found() {
    let found = vec![(id(3), Generation { value: 2 }), (id(1), Generation { value: 1 })];
    assert_eq!(derive_impl::value_of_found(&found, id(1)), Ok(Generation { value: 1 }));
    assert_eq!(derive_impl::value_of_found(&found, id(3)), Ok(Generation { value: 2 }));
    assert_eq!(derive_impl::value_of_found(&found, id(4)), Err(DeriveError::NotFound(id(4))));
}

#[test]
fn changeset_with_a_value_is_served_as_it_is() {
    let mut mapping: MemMapping<Generation> = MemMapping::new();
    mapping.put(id(4), Generation { value: 40 }).unwrap();
    // the ancestors listed are not touched, not even where they could not be derived
    let ancestors = vec![changeset(2, &[1]), changeset(4, &[2])];
    assert_eq!(derive_impl::derive::<Generation, _>(&mut mapping, id(4), &ancestors), Ok(Generation { value: 40 }));
    assert_eq!(mapping.len(), 1);
    let done = derive_impl::derive_impl::<Generation, _>(&mut mapping, id(4), &diamond()).unwrap();
    assert!(done.derived.is_empty());
    assert_eq!(mapping.len(), 1);
}

#[test]
fn nothing_behind_a_changeset_that_cannot_be_derived_gets_a_value() {
    let mut mapping: MemMapping<Generation> = MemMapping::new();
    let ancestors = vec![changeset(1, &[]), changeset(2, &[9]), changeset(3, &[1]), changeset(4, &[3])];
    assert_eq!(
        derive_impl::derive::<Generation, _>(&mut mapping, id(4), &ancestors),
        Err(DeriveError::MissingParent { changeset: id(2), parent: id(9) })
    );
    assert_eq!(mapping.get(vec![id(1), id(2), id(3), id(4)]).unwrap(), vec![(id(1), Generation { value: 1 })]);
}
