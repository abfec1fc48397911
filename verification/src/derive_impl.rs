//! The derivation engine.
//!
//! To derive the value of a changeset the engine takes the ancestors of the
//! changeset, parents before children, skips those that have a value, and
//! derives each of the others from the values of its parents. It never
//! derives a changeset while one of its parents lacks a value.

use crate::error::Error;
use crate::mapping::{find_value, BonsaiDerivedMapping};
use crate::types::{BonsaiChangeset, ChangesetId};
use vstd::prelude::*;
use vstd::string::StringExecFns;

verus! {

/// Data that can be derived from a changeset and from the data derived from
/// its parents: one kind of derived data.
///
/// A value is handed to every child of its changeset, and to every caller
/// that asks for it, as the same value: so the values of a kind are `Copy`.
/// A kind whose data owns memory has as its value what names the data, such
/// as its hash, and keeps the data where it is read from.
pub trait BonsaiDerived: Sized + Copy {
    type Mapping: BonsaiDerivedMapping<Value = Self>;

    /// The value of `bonsai` where the values of its parents are `parents`,
    /// in the order of its parents. The value depends on nothing else.
    spec fn derived_from(bonsai: BonsaiChangeset, parents: Seq<Self>) -> Self;

    /// Name of the derived data: a string that no other kind uses.
    fn name() -> &'static str;

    /// Derives the value of `bonsai` from the values of its parents.
    fn derive_from_parents(bonsai: &BonsaiChangeset, parents: Vec<Self>) -> (res: Result<
        Self,
        Error,
    >)
        requires
            parents@.len() == bonsai.parents@.len(),
        ensures
            res matches Ok(value) ==> value == Self::derived_from(*bonsai, parents@),
    ;
}

/// The ids of `changesets`, in their order.
pub open spec fn ids_of(changesets: Seq<BonsaiChangeset>) -> Seq<ChangesetId> {
    Seq::new(changesets.len(), |i: int| changesets[i].id)
}

/// Those of `ids` that have no value in `entries`, in their order.
pub open spec fn without_value<V>(entries: Map<ChangesetId, V>, ids: Seq<ChangesetId>) -> Seq<
    ChangesetId,
> {
    crate::mapping::not_among(entries.dom(), ids)
}

/// The first `limit` of `ids`, or all of them where there is no limit or
/// there are no more than `limit`.
pub open spec fn up_to(ids: Seq<ChangesetId>, limit: Option<u64>) -> Seq<ChangesetId> {
    match limit {
        Some(limit) => if limit < ids.len() {
            ids.take(limit as int)
        } else {
            ids
        },
        None => ids,
    }
}

proof fn lemma_not_among_grows(set: Set<ChangesetId>, ids: Seq<ChangesetId>, i: int)
    requires
        0 <= i <= ids.len(),
    ensures
        crate::mapping::not_among(set, ids.take(i)).len() <= crate::mapping::not_among(
            set,
            ids,
        ).len(),
        crate::mapping::not_among(set, ids.take(i)) == crate::mapping::not_among(set, ids).take(
            crate::mapping::not_among(set, ids.take(i)).len() as int,
        ),
    decreases ids.len() - i,
{
    let all = crate::mapping::not_among(set, ids);
    if i == ids.len() {
        assert(ids.take(i) =~= ids);
        assert(all.take(all.len() as int) =~= all);
    } else {
        lemma_not_among_grows(set, ids, i + 1);
        crate::mapping::lemma_not_among_step(set, ids, i);
        let shorter = crate::mapping::not_among(set, ids.take(i));
        let longer = crate::mapping::not_among(set, ids.take(i + 1));
        assert(shorter =~= all.take(shorter.len() as int)) by {
            assert(longer == all.take(longer.len() as int));
            if !set.contains(ids[i]) {
                assert(shorter =~= longer.take(shorter.len() as int));
            }
        }
    }
}

/// Where ids are sought in two sets that agree on them, the same ids are
/// in neither.
proof fn lemma_not_among_agrees(a: Set<ChangesetId>, b: Set<ChangesetId>, ids: Seq<ChangesetId>)
    requires
        forall|j: int| 0 <= j < ids.len() ==> a.contains(#[trigger] ids[j]) == b.contains(ids[j]),
    ensures
        crate::mapping::not_among(a, ids) == crate::mapping::not_among(b, ids),
    decreases ids.len(),
{
    if ids.len() > 0 {
        assert forall|j: int| 0 <= j < ids.drop_last().len() implies a.contains(
            #[trigger] ids.drop_last()[j],
        ) == b.contains(ids.drop_last()[j]) by {
            assert(ids.drop_last()[j] == ids[j]);
        }
        lemma_not_among_agrees(a, b, ids.drop_last());
        assert(a.contains(ids[ids.len() - 1]) == b.contains(ids[ids.len() - 1]));
    }
}

/// The ids of `ancestors`, in their order: what the mapping is asked for.
pub fn changeset_ids(ancestors: &Vec<BonsaiChangeset>) -> (csids: Vec<ChangesetId>)
    ensures
        csids@ == ids_of(ancestors@),
{
    let mut csids: Vec<ChangesetId> = Vec::new();
    let mut i: usize = 0;
    while i < ancestors.len()
        invariant
            i <= ancestors.len(),
            csids@ == ids_of(ancestors@).take(i as int),
        decreases ancestors.len() - i,
    {
        csids.push(ancestors[i].id);
        assert(csids@ =~= ids_of(ancestors@).take(i + 1));
        i += 1;
    }
    assert(csids@ =~= ids_of(ancestors@));
    csids
}

/// Picks from `ancestors` those of which `found`, the answer of a lookup,
/// holds no value: at most `limit` of them where there is a limit, in the
/// order of `ancestors`.
pub fn underived_of<V: Copy>(
    found: &Vec<(ChangesetId, V)>,
    ancestors: &Vec<BonsaiChangeset>,
    limit: Option<u64>,
) -> (underived: Vec<ChangesetId>)
    ensures
        underived@ == up_to(
            crate::mapping::not_among(keys_of(found@), ids_of(ancestors@)),
            limit,
        ),
{
    let ghost ids = ids_of(ancestors@);
    let ghost known = keys_of(found@);
    let mut underived: Vec<ChangesetId> = Vec::new();
    let mut i: usize = 0;
    while i < ancestors.len()
        invariant
            i <= ancestors.len(),
            ids == ids_of(ancestors@),
            known == keys_of(found@),
            underived@ == crate::mapping::not_among(known, ids.take(i as int)),
            limit matches Some(l) ==> underived@.len() <= l,
        decreases ancestors.len() - i,
    {
        match limit {
            Some(l) => {
                if underived.len() as u64 >= l {
                    proof {
                        lemma_not_among_grows(known, ids, i as int);
                    }
                    return underived;
                }
            },
            None => {},
        }
        let csid = ancestors[i].id;
        proof {
            assert(ids[i as int] == csid);
            crate::mapping::lemma_not_among_step(known, ids, i as int);
        }
        match find_value(found, csid) {
            Some(value) => {
                proof {
                    let at = choose|at: int|
                        0 <= at < found@.len() && #[trigger] found@[at] == (csid, value);
                    assert(found@[at].0 == csid);
                    assert(known.contains(csid));
                }
            },
            None => {
                proof {
                    assert(!known.contains(csid));
                }
                underived.push(csid);
            },
        }
        i += 1;
    }
    proof {
        assert(ids.take(ids.len() as int) =~= ids);
    }
    underived
}

/// Finds the changesets among `ancestors` that have no value yet: at most
/// `limit` of them where there is a limit, in the order of `ancestors`.
pub fn find_underived<M: BonsaiDerivedMapping>(
    mapping: &mut M,
    ancestors: &Vec<BonsaiChangeset>,
    limit: Option<u64>,
) -> (res: Result<Vec<ChangesetId>, Error>)
    requires
        old(mapping).wf(),
    ensures
        final(mapping).wf(),
        final(mapping).entries() == old(mapping).entries(),
        res matches Ok(underived) ==> underived@ == up_to(
            without_value(old(mapping).entries(), ids_of(ancestors@)),
            limit,
        ),
{
    let csids = changeset_ids(ancestors);
    let found = mapping.get(csids)?;
    proof {
        let ids = ids_of(ancestors@);
        let entries = mapping.entries();
        assert forall|j: int| 0 <= j < ids.len() implies keys_of(found@).contains(
            #[trigger] ids[j],
        ) == entries.dom().contains(ids[j]) by {
            crate::mapping::lemma_lookup_result(found@, entries, ids, ids[j]);
        }
        lemma_not_among_agrees(keys_of(found@), entries.dom(), ids);
    }
    Ok(underived_of(&found, ancestors, limit))
}

/// Returns min(number of changesets among `ancestors` to be derived, `limit`).
pub fn count_underived<M: BonsaiDerivedMapping>(
    mapping: &mut M,
    ancestors: &Vec<BonsaiChangeset>,
    limit: u64,
) -> (res: Result<u64, Error>)
    requires
        old(mapping).wf(),
    ensures
        final(mapping).wf(),
        final(mapping).entries() == old(mapping).entries(),
        res matches Ok(count) ==> {
            let underived = without_value(old(mapping).entries(), ids_of(ancestors@)).len();
            count == if underived < limit {
                underived
            } else {
                limit as nat
            }
        },
{
    let underived = find_underived(mapping, ancestors, Some(limit))?;
    Ok(underived.len() as u64)
}


/// The values that `entries` holds for `parents`, in the order of `parents`.
pub open spec fn values_of<V>(entries: Map<ChangesetId, V>, parents: Seq<ChangesetId>) -> Seq<V> {
    Seq::new(parents.len(), |j: int| entries[parents[j]])
}

/// Whether every one of `parents` has a value in `entries`.
pub open spec fn all_have_value<V>(entries: Map<ChangesetId, V>, parents: Seq<ChangesetId>) -> bool {
    forall|j: int| 0 <= j < parents.len() ==> entries.contains_key(#[trigger] parents[j])
}

/// Whether the value that `entries` holds for `bonsai` is the one derived
/// from the values that `entries` holds for its parents, all of which have
/// one.
pub open spec fn derived_by<D: BonsaiDerived>(
    bonsai: BonsaiChangeset,
    entries: Map<ChangesetId, D>,
) -> bool {
    &&& all_have_value(entries, bonsai.parents@)
    &&& entries.contains_key(bonsai.id)
    &&& entries[bonsai.id] == D::derived_from(bonsai, values_of(entries, bonsai.parents@))
}

/// Whether the value of `csid` in `entries` was derived from one of
/// `ancestors` with that id.
pub open spec fn is_derived<D: BonsaiDerived>(
    ancestors: Seq<BonsaiChangeset>,
    entries: Map<ChangesetId, D>,
    csid: ChangesetId,
) -> bool {
    exists|i: int|
        0 <= i < ancestors.len() && (#[trigger] ancestors[i]).id == csid && derived_by(
            ancestors[i],
            entries,
        )
}

/// Whether each of `derived` comes after its parents: every parent of the
/// changeset derived at some position either had a value from the start, or
/// was derived at an earlier position.
pub open spec fn parents_come_first(
    ancestors: Seq<BonsaiChangeset>,
    had_value: Set<ChangesetId>,
    derived: Seq<ChangesetId>,
) -> bool {
    forall|k: int|
        0 <= k < derived.len() ==> exists|i: int|
            0 <= i < ancestors.len() && (#[trigger] ancestors[i]).id == #[trigger] derived[k]
                && forall|j: int|
                0 <= j < ancestors[i].parents@.len() ==> had_value.contains(
                    #[trigger] ancestors[i].parents@[j],
                ) || derived.take(k).contains(ancestors[i].parents@[j])
}

/// Why a request was not served.
#[derive(Clone, Debug, PartialEq, Eq)]
pub enum DeriveError {
    /// The mapping failed, with this error.
    Mapping(Error),
    /// The derivation of the changeset `changeset` failed, with this error.
    Derivation { changeset: ChangesetId, error: Error },
    /// The changeset `changeset` was to be derived while its parent `parent`
    /// had no value.
    MissingParent { changeset: ChangesetId, parent: ChangesetId },
    /// The changeset that was asked for is not among the ancestors given,
    /// and has no value.
    NotFound(ChangesetId),
}

/// The text with which an error of a request presents itself: that of the
/// failure that it hands on, or what the engine itself found wrong.
pub open spec fn derive_message_of(e: DeriveError) -> Seq<char> {
    match e {
        DeriveError::Mapping(error) => crate::error::message_of(error),
        DeriveError::Derivation { error, .. } => crate::error::message_of(error),
        DeriveError::MissingParent { .. } => "a parent of the changeset has no derived value"@,
        DeriveError::NotFound(_) => "changeset not found"@,
    }
}

impl DeriveError {
    /// The text with which the error presents itself.
    pub fn message(&self) -> (text: String)
        ensures
            text@ == derive_message_of(*self),
    {
        match self {
            DeriveError::Mapping(error) => error.message(),
            DeriveError::Derivation { error, .. } => error.message(),
            DeriveError::MissingParent { .. } => String::from_str(
                "a parent of the changeset has no derived value",
            ),
            DeriveError::NotFound(_) => String::from_str("changeset not found"),
        }
    }
}

/// Whether `ancestors` holds at `i` a changeset that has the parent
/// `parent`, and all that stand before it have a value in `entries`.
pub open spec fn lacks_parent_at<V>(
    ancestors: Seq<BonsaiChangeset>,
    entries: Map<ChangesetId, V>,
    i: int,
    parent: ChangesetId,
) -> bool {
    &&& 0 <= i < ancestors.len()
    &&& ancestors[i].parents@.contains(parent)
    &&& !entries.contains_key(parent)
    &&& !entries.contains_key(ancestors[i].id)
    &&& forall|j: int| 0 <= j < i ==> entries.contains_key((#[trigger] ancestors[j]).id)
}

/// The changesets that have a value when the engine reaches position `i`
/// of `ancestors`: those that had one, and those listed before `i`.
pub open spec fn known_at(had: Set<ChangesetId>, ancestors: Seq<BonsaiChangeset>, i: int) -> Set<
    ChangesetId,
> {
    had.union(ids_of(ancestors).take(i).to_set())
}

/// Whether the engine cannot go on at position `i`: the changeset there
/// has no value yet, and one of its parents has none either.
pub open spec fn blocked_at(had: Set<ChangesetId>, ancestors: Seq<BonsaiChangeset>, i: int) -> bool {
    &&& 0 <= i < ancestors.len()
    &&& !known_at(had, ancestors, i).contains(ancestors[i].id)
    &&& first_unknown(known_at(had, ancestors, i), ancestors[i].parents@, 0) is Some
}

/// The first position, from `from` on, at which the engine cannot go on.
pub open spec fn first_blocked(had: Set<ChangesetId>, ancestors: Seq<BonsaiChangeset>, from: int) -> Option<
    int,
>
    decreases ancestors.len() - from,
{
    if from < 0 || from >= ancestors.len() {
        None
    } else if blocked_at(had, ancestors, from) {
        Some(from)
    } else {
        first_blocked(had, ancestors, from + 1)
    }
}

/// What a request comes to where neither the mapping nor a derivation
/// fails.
pub enum Plan {
    /// The value of the changeset asked for is returned.
    Serve,
    /// The changeset `changeset` is reached while its parent `parent` has
    /// no value.
    MissingParent { changeset: ChangesetId, parent: ChangesetId },
    /// The changeset asked for has no value and is not listed.
    NotFound,
}

/// What a request for `csid` comes to, given the changesets that have a
/// value and the ancestors listed: the value where the changeset has one;
/// else the first listed changeset without a value that stands before one
/// of its parents, with the first such parent; else the value where the
/// changeset is listed; else nothing.
pub open spec fn plan(had: Set<ChangesetId>, ancestors: Seq<BonsaiChangeset>, csid: ChangesetId) -> Plan {
    if had.contains(csid) {
        Plan::Serve
    } else {
        match first_blocked(had, ancestors, 0) {
            Some(i) => Plan::MissingParent {
                changeset: ancestors[i].id,
                parent: ancestors[i].parents@[first_unknown(
                    known_at(had, ancestors, i),
                    ancestors[i].parents@,
                    0,
                )->0],
            },
            None => if ids_of(ancestors).contains(csid) {
                Plan::Serve
            } else {
                Plan::NotFound
            },
        }
    }
}

/// Whether `res` is what `plan` says, or a failure of the mapping or of a
/// derivation.
pub open spec fn follows_plan<T>(res: Result<T, DeriveError>, plan: Plan) -> bool {
    match res {
        Ok(_) => plan is Serve,
        Err(DeriveError::MissingParent { changeset, parent }) => plan == (Plan::MissingParent {
            changeset,
            parent,
        }),
        Err(DeriveError::NotFound(_)) => plan is NotFound,
        Err(_) => true,
    }
}

/// Whether a derivation failed with `error` for the changeset `changeset`:
/// the changeset is listed and has no value, its parents all have one, and
/// the kind answered `error` when it was handed the changeset and the
/// values of its parents.
pub open spec fn derivation_failed<D: BonsaiDerived>(
    ancestors: Seq<BonsaiChangeset>,
    entries: Map<ChangesetId, D>,
    changeset: ChangesetId,
    error: Error,
) -> bool {
    exists|i: int, parents: Vec<D>|
        0 <= i < ancestors.len() && ancestors[i].id == changeset && !entries.contains_key(changeset)
            && all_have_value(entries, ancestors[i].parents@) && parents@ == values_of(
            entries,
            ancestors[i].parents@,
        ) && #[trigger] call_ensures(
            D::derive_from_parents,
            (&ancestors[i], parents),
            Err::<D, Error>(error),
        )
}

/// Whether a request has come as far as position `i` of `ancestors`, and
/// no further: the changesets with a value are those that had one and
/// those listed before `i`.
pub open spec fn reached(
    had: Set<ChangesetId>,
    ancestors: Seq<BonsaiChangeset>,
    have: Set<ChangesetId>,
    i: int,
) -> bool {
    0 <= i <= ancestors.len() && have == known_at(had, ancestors, i)
}

/// Whether a request has stopped at the changeset `changeset`: it is
/// listed at the position that the request has reached, so that neither
/// it nor a changeset behind it has got a value.
pub open spec fn stopped_at(
    had: Set<ChangesetId>,
    ancestors: Seq<BonsaiChangeset>,
    have: Set<ChangesetId>,
    changeset: ChangesetId,
) -> bool {
    exists|i: int| #[trigger]
        reached(had, ancestors, have, i) && i < ancestors.len() && ancestors[i].id == changeset
}

/// Every value that `entries` holds beyond `start` is derived from the
/// values of its changeset's parents.
pub open spec fn new_are_derived<D: BonsaiDerived>(
    ancestors: Seq<BonsaiChangeset>,
    start: Map<ChangesetId, D>,
    entries: Map<ChangesetId, D>,
) -> bool {
    forall|c: ChangesetId| #[trigger]
        entries.contains_key(c) && !start.contains_key(c) ==> is_derived(ancestors, entries, c)
}

proof fn lemma_known_step(had: Set<ChangesetId>, ancestors: Seq<BonsaiChangeset>, i: int)
    requires
        0 <= i < ancestors.len(),
    ensures
        known_at(had, ancestors, i + 1) == known_at(had, ancestors, i).insert(ancestors[i].id),
{
    let ids = ids_of(ancestors);
    assert(ids.take(i + 1) =~= ids.take(i).push(ids[i]));
    crate::mapping::lemma_push_to_set(ids.take(i), ids[i]);
    assert(known_at(had, ancestors, i + 1) =~= known_at(had, ancestors, i).insert(ancestors[i].id));
}

proof fn lemma_put_is_derived<D: BonsaiDerived>(
    bonsai: BonsaiChangeset,
    before: Map<ChangesetId, D>,
    after: Map<ChangesetId, D>,
    value: D,
)
    requires
        all_have_value(before, bonsai.parents@),
        !before.contains_key(bonsai.id),
        value == D::derived_from(bonsai, values_of(before, bonsai.parents@)),
        after == before.insert(bonsai.id, value),
    ensures
        derived_by(bonsai, after),
        before.submap_of(after),
{
    assert forall|j: int| 0 <= j < bonsai.parents@.len() implies after.contains_key(
        #[trigger] bonsai.parents@[j],
    ) by {
        assert(before.contains_key(bonsai.parents@[j]));
    }
    assert(values_of(after, bonsai.parents@) =~= values_of(before, bonsai.parents@)) by {
        assert forall|j: int| 0 <= j < bonsai.parents@.len() implies after[bonsai.parents@[j]]
            == before[bonsai.parents@[j]] by {
            assert(before.contains_key(bonsai.parents@[j]));
        }
    }
}

proof fn lemma_new_are_derived<D: BonsaiDerived>(
    ancestors: Seq<BonsaiChangeset>,
    start: Map<ChangesetId, D>,
    entries: Map<ChangesetId, D>,
    derived: Seq<ChangesetId>,
)
    requires
        entries.dom() == start.dom().union(derived.to_set()),
        forall|k: int| 0 <= k < derived.len() ==> is_derived(ancestors, entries, #[trigger] derived[k]),
    ensures
        new_are_derived(ancestors, start, entries),
{
    assert forall|c: ChangesetId| #[trigger]
        entries.contains_key(c) && !start.contains_key(c) implies is_derived(ancestors, entries, c) by {
        assert(entries.dom().contains(c));
        assert(derived.to_set().contains(c));
        let k = choose|k: int| 0 <= k < derived.len() && derived[k] == c;
        assert(derived[k] == c);
    }
}

/// What one request has derived.
pub struct Derivation<D> {
    /// The value of the changeset that was asked for.
    pub value: D,
    /// The changesets that got a value in this request, in the order in
    /// which they were derived.
    pub derived: Vec<ChangesetId>,
}

proof fn lemma_derived_by_stable<D: BonsaiDerived>(
    bonsai: BonsaiChangeset,
    before: Map<ChangesetId, D>,
    after: Map<ChangesetId, D>,
)
    requires
        derived_by(bonsai, before),
        before.submap_of(after),
    ensures
        derived_by(bonsai, after),
{
    assert forall|j: int| 0 <= j < bonsai.parents@.len() implies after.contains_key(
        #[trigger] bonsai.parents@[j],
    ) by {
        assert(before.contains_key(bonsai.parents@[j]));
    }
    assert(values_of(after, bonsai.parents@) =~= values_of(before, bonsai.parents@)) by {
        assert forall|j: int| 0 <= j < bonsai.parents@.len() implies after[bonsai.parents@[j]]
            == before[bonsai.parents@[j]] by {
            assert(before.contains_key(bonsai.parents@[j]));
        }
    }
    assert(before.contains_key(bonsai.id));
}

proof fn lemma_is_derived_stable<D: BonsaiDerived>(
    ancestors: Seq<BonsaiChangeset>,
    before: Map<ChangesetId, D>,
    after: Map<ChangesetId, D>,
    csid: ChangesetId,
)
    requires
        is_derived(ancestors, before, csid),
        before.submap_of(after),
    ensures
        is_derived(ancestors, after, csid),
{
    let i = choose|i: int|
        0 <= i < ancestors.len() && (#[trigger] ancestors[i]).id == csid && derived_by(
            ancestors[i],
            before,
        );
    lemma_derived_by_stable(ancestors[i], before, after);
}

/// The changesets of which `found` holds a value.
pub open spec fn keys_of<V>(found: Seq<(ChangesetId, V)>) -> Set<ChangesetId> {
    Set::new(|c: ChangesetId| exists|i: int| 0 <= i < found.len() && (#[trigger] found[i]).0 == c)
}

/// The position of the first of `parents`, from `from` on, that is not
/// among `known`.
pub open spec fn first_unknown(known: Set<ChangesetId>, parents: Seq<ChangesetId>, from: int) -> Option<
    int,
>
    decreases parents.len() - from,
{
    if from < 0 || from >= parents.len() {
        None
    } else if !known.contains(parents[from]) {
        Some(from)
    } else {
        first_unknown(known, parents, from + 1)
    }
}

/// Where the parents are sought in two sets that agree on them, the first
/// that is unknown is the same.
pub proof fn lemma_first_unknown_agrees(
    a: Set<ChangesetId>,
    b: Set<ChangesetId>,
    parents: Seq<ChangesetId>,
    from: int,
)
    requires
        forall|j: int| 0 <= j < parents.len() ==> a.contains(#[trigger] parents[j]) == b.contains(
            parents[j],
        ),
    ensures
        first_unknown(a, parents, from) == first_unknown(b, parents, from),
    decreases parents.len() - from,
{
    if 0 <= from < parents.len() {
        assert(a.contains(parents[from]) == b.contains(parents[from]));
        lemma_first_unknown_agrees(a, b, parents, from + 1);
    }
}

/// What the first unknown parent is: it is unknown, and all before it are
/// known; and where there is none, all are known.
pub proof fn lemma_first_unknown(known: Set<ChangesetId>, parents: Seq<ChangesetId>, from: int)
    requires
        0 <= from,
    ensures
        first_unknown(known, parents, from) matches Some(j) ==> from <= j < parents.len()
            && !known.contains(parents[j]) && forall|k: int|
            from <= k < j ==> known.contains(#[trigger] parents[k]),
        first_unknown(known, parents, from) is None ==> forall|k: int|
            from <= k < parents.len() ==> known.contains(#[trigger] parents[k]),
    decreases parents.len() - from,
{
    if from < parents.len() && known.contains(parents[from]) {
        lemma_first_unknown(known, parents, from + 1);
    }
}

/// Picks from `found`, the answer of a lookup, the values of the parents of
/// `bonsai`, in the order of its parents. Where a parent has no value in
/// `found` the changeset cannot be derived yet: the error names the first
/// such parent.
pub fn parents_of_found<V: Copy>(found: &Vec<(ChangesetId, V)>, bonsai: &BonsaiChangeset) -> (res:
    Result<Vec<V>, DeriveError>)
    ensures
        res matches Ok(values) ==> first_unknown(keys_of(found@), bonsai.parents@, 0) is None
            && values@.len() == bonsai.parents@.len() && forall|j: int|
            0 <= j < bonsai.parents@.len() ==> found@.contains(
                (#[trigger] bonsai.parents@[j], values@[j]),
            ),
        res matches Err(e) ==> first_unknown(keys_of(found@), bonsai.parents@, 0) matches Some(j)
            && e == (DeriveError::MissingParent {
            changeset: bonsai.id,
            parent: bonsai.parents@[j],
        }),
{
    let mut values: Vec<V> = Vec::new();
    let mut j: usize = 0;
    while j < bonsai.parents.len()
        invariant
            j <= bonsai.parents.len(),
            values@.len() == j,
            first_unknown(keys_of(found@), bonsai.parents@, 0) == first_unknown(
                keys_of(found@),
                bonsai.parents@,
                j as int,
            ),
            forall|k: int|
                0 <= k < j ==> found@.contains((#[trigger] bonsai.parents@[k], values@[k])),
        decreases bonsai.parents.len() - j,
    {
        let parent = bonsai.parents[j];
        match find_value(found, parent) {
            Some(value) => {
                proof {
                    let at = choose|at: int| 0 <= at < found@.len() && #[trigger] found@[at] == (parent, value);
                    assert(found@[at].0 == parent);
                    assert(keys_of(found@).contains(parent));
                }
                values.push(value);
            },
            None => {
                proof {
                    assert(!keys_of(found@).contains(parent));
                }
                return Err(DeriveError::MissingParent { changeset: bonsai.id, parent });
            },
        }
        j += 1;
    }
    Ok(values)
}

/// Asks the mapping for the one changeset `csid`.
fn lookup_one<M: BonsaiDerivedMapping>(mapping: &mut M, csid: ChangesetId) -> (res: Result<
    Vec<(ChangesetId, M::Value)>,
    Error,
>)
    requires
        old(mapping).wf(),
    ensures
        final(mapping).wf(),
        final(mapping).entries() == old(mapping).entries(),
        res matches Ok(found) ==> keys_of(found@).contains(csid) == old(mapping).entries().contains_key(
            csid,
        ) && forall|i: int|
            0 <= i < found@.len() && (#[trigger] found@[i]).0 == csid ==> found@[i].1 == old(
                mapping,
            ).entries()[csid],
{
    let mut csids: Vec<ChangesetId> = Vec::new();
    csids.push(csid);
    let ghost asked = csids@;
    let found = mapping.get(csids)?;
    proof {
        assert(asked[0] == csid);
        crate::mapping::lemma_lookup_result(found@, mapping.entries(), asked, csid);
    }
    Ok(found)
}

/// Looks up the one changeset `csid`.
fn get_one<M: BonsaiDerivedMapping>(mapping: &mut M, csid: ChangesetId) -> (res: Result<
    Option<M::Value>,
    Error,
>)
    requires
        old(mapping).wf(),
    ensures
        final(mapping).wf(),
        final(mapping).entries() == old(mapping).entries(),
        res matches Ok(Some(value)) ==> old(mapping).entries().contains_key(csid)
            && old(mapping).entries()[csid] == value,
        res matches Ok(None) ==> !old(mapping).entries().contains_key(csid),
{
    let found = lookup_one(mapping, csid)?;
    let value = find_value(&found, csid);
    proof {
        match value {
            Some(v) => {
                let at = choose|at: int| 0 <= at < found@.len() && #[trigger] found@[at] == (csid, v);
                assert(found@[at].0 == csid);
            },
            None => {},
        }
    }
    Ok(value)
}

/// What a request for `csid` returns once the ancestors listed have their
/// values and `found` is the answer of the lookup of `csid`: the value that
/// `found` holds for the changeset, and `NotFound` where it holds none.
pub fn value_of_found<V: Copy>(found: &Vec<(ChangesetId, V)>, csid: ChangesetId) -> (res: Result<
    V,
    DeriveError,
>)
    ensures
        res is Ok <==> keys_of(found@).contains(csid),
        res matches Ok(value) ==> found@.contains((csid, value)),
        res matches Err(e) ==> e == DeriveError::NotFound(csid),
{
    match find_value(found, csid) {
        Some(value) => {
            proof {
                let at = choose|at: int|
                    0 <= at < found@.len() && #[trigger] found@[at] == (csid, value);
                assert(found@[at].0 == csid);
            }
            Ok(value)
        },
        None => Err(DeriveError::NotFound(csid)),
    }
}

/// Fetches the values of the parents of `bonsai`, in their order. A parent
/// without a value is an error: its child cannot be derived yet.
fn parent_values<M: BonsaiDerivedMapping>(mapping: &mut M, bonsai: &BonsaiChangeset) -> (res: Result<
    Vec<M::Value>,
    DeriveError,
>)
    requires
        old(mapping).wf(),
    ensures
        final(mapping).wf(),
        final(mapping).entries() == old(mapping).entries(),
        res matches Ok(values) ==> all_have_value(old(mapping).entries(), bonsai.parents@) && values@
            == values_of(old(mapping).entries(), bonsai.parents@) && first_unknown(
            old(mapping).entries().dom(),
            bonsai.parents@,
            0,
        ) is None,
        res matches Err(e) ==> e is Mapping || (first_unknown(
            old(mapping).entries().dom(),
            bonsai.parents@,
            0,
        ) matches Some(j) && e == (DeriveError::MissingParent {
            changeset: bonsai.id,
            parent: bonsai.parents@[j],
        }) && !old(mapping).entries().contains_key(bonsai.parents@[j])),
{
    let mut csids: Vec<ChangesetId> = Vec::new();
    let mut j: usize = 0;
    while j < bonsai.parents.len()
        invariant
            j <= bonsai.parents.len(),
            csids@ == bonsai.parents@.take(j as int),
        decreases bonsai.parents.len() - j,
    {
        csids.push(bonsai.parents[j]);
        assert(csids@ =~= bonsai.parents@.take(j + 1));
        j += 1;
    }
    assert(csids@ =~= bonsai.parents@);
    let found = match mapping.get(csids) {
        Ok(found) => found,
        Err(error) => {
            return Err(DeriveError::Mapping(error));
        },
    };
    let ghost entries = mapping.entries();
    proof {
        assert forall|j: int| 0 <= j < bonsai.parents@.len() implies keys_of(found@).contains(
            #[trigger] bonsai.parents@[j],
        ) == entries.dom().contains(bonsai.parents@[j]) by {
            crate::mapping::lemma_lookup_result(found@, entries, bonsai.parents@, bonsai.parents@[j]);
        }
        lemma_first_unknown_agrees(keys_of(found@), entries.dom(), bonsai.parents@, 0);
        lemma_first_unknown(entries.dom(), bonsai.parents@, 0);
    }
    match parents_of_found(&found, bonsai) {
        Ok(values) => {
            proof {
                assert forall|j: int| 0 <= j < bonsai.parents@.len() implies entries.contains_key(
                    #[trigger] bonsai.parents@[j],
                ) && values@[j] == entries[bonsai.parents@[j]] by {
                    let parent = bonsai.parents@[j];
                    crate::mapping::lemma_lookup_result(found@, entries, bonsai.parents@, parent);
                    let at = choose|at: int| 0 <= at < found@.len() && found@[at] == (parent, values@[j]);
                    assert(found@[at].0 == parent);
                }
                assert(values@ =~= values_of(entries, bonsai.parents@));
            }
            Ok(values)
        },
        Err(error) => Err(error),
    }
}

/// Derives the value of `csid`, and of those of `ancestors` that lack one.
///
/// `ancestors` holds the ancestors of `csid` that may lack a value, `csid`
/// itself among them, parents before children. A changeset that has a value
/// keeps it. Each of the others is derived from the values of its parents
/// and gets its value then.
///
/// The request fails where the mapping fails or a derivation does, with
/// that failure; where a changeset is reached while one of its parents has
/// no value; and where `csid` has no value in the end: `plan` says which.
/// Whatever happens, no value that the mapping held is lost or changed,
/// and every value that it has got is derived from the values of its
/// changeset's parents.
pub fn derive_impl<D: BonsaiDerived, M: BonsaiDerivedMapping<Value = D>>(
    mapping: &mut M,
    csid: ChangesetId,
    ancestors: &Vec<BonsaiChangeset>,
) -> (res: Result<Derivation<D>, DeriveError>)
    requires
        old(mapping).wf(),
    ensures
        final(mapping).wf(),
        old(mapping).entries().submap_of(final(mapping).entries()),
        new_are_derived(ancestors@, old(mapping).entries(), final(mapping).entries()),
        follows_plan(res, plan(old(mapping).entries().dom(), ancestors@, csid)),
        old(mapping).entries().contains_key(csid) ==> final(mapping).entries() == old(
            mapping,
        ).entries() && !(res matches Err(DeriveError::Derivation { .. })),
        !old(mapping).entries().contains_key(csid) ==> exists|i: int| #[trigger]
            reached(old(mapping).entries().dom(), ancestors@, final(mapping).entries().dom(), i),
        res matches Err(DeriveError::MissingParent { changeset, .. }) ==> stopped_at(
            old(mapping).entries().dom(),
            ancestors@,
            final(mapping).entries().dom(),
            changeset,
        ),
        res matches Err(DeriveError::Derivation { changeset, .. }) ==> stopped_at(
            old(mapping).entries().dom(),
            ancestors@,
            final(mapping).entries().dom(),
            changeset,
        ),
        res matches Err(DeriveError::NotFound(missing)) ==> missing == csid && !final(mapping).entries().contains_key(csid) && forall|i: int|
            0 <= i < ancestors@.len() ==> final(mapping).entries().contains_key(
                (#[trigger] ancestors@[i]).id,
            ),
        res matches Err(DeriveError::MissingParent { changeset, parent }) ==> exists|i: int|
            #[trigger] lacks_parent_at(ancestors@, final(mapping).entries(), i, parent)
                && ancestors@[i].id == changeset,
        res matches Err(DeriveError::Derivation { changeset, error }) ==> derivation_failed(
            ancestors@,
            final(mapping).entries(),
            changeset,
            error,
        ),
        res matches Ok(done) ==> {
            &&& final(mapping).entries().contains_key(csid)
            &&& final(mapping).entries()[csid] == done.value
            &&& final(mapping).entries().dom() == old(mapping).entries().dom().union(
                done.derived@.to_set(),
            )
            &&& forall|k: int|
                0 <= k < done.derived@.len() ==> !old(mapping).entries().contains_key(
                    #[trigger] done.derived@[k],
                ) && is_derived(ancestors@, final(mapping).entries(), done.derived@[k])
            &&& done.derived@.no_duplicates()
            &&& parents_come_first(ancestors@, old(mapping).entries().dom(), done.derived@)
            &&& old(mapping).entries().contains_key(csid) ==> done.derived@.len() == 0
            &&& !old(mapping).entries().contains_key(csid) ==> forall|i: int|
                0 <= i < ancestors@.len() ==> final(mapping).entries().contains_key(
                    (#[trigger] ancestors@[i]).id,
                )
        },
{
    let ghost start = mapping.entries();
    let mut derived: Vec<ChangesetId> = Vec::new();
    proof {
        assert(ids_of(ancestors@).take(0).to_set() =~= Set::<ChangesetId>::empty());
        assert(known_at(start.dom(), ancestors@, 0) =~= start.dom());
        assert(reached(start.dom(), ancestors@, start.dom(), 0));
    }
    match get_one(mapping, csid) {
        Ok(Some(value)) => {
            assert(derived@.to_set() =~= Set::<ChangesetId>::empty());
            assert(start.dom().union(derived@.to_set()) =~= start.dom());
            return Ok(Derivation { value, derived });
        },
        Ok(None) => {},
        Err(error) => {
            return Err(DeriveError::Mapping(error));
        },
    }
    proof {
        assert(derived@.to_set() =~= Set::<ChangesetId>::empty());
        assert(start.dom().union(derived@.to_set()) =~= start.dom());
    }
    let mut i: usize = 0;
    while i < ancestors.len()
        invariant
            i <= ancestors.len(),
            mapping.wf(),
            start == old(mapping).entries(),
            start.submap_of(mapping.entries()),
            !start.contains_key(csid),
            mapping.entries().dom() == start.dom().union(derived@.to_set()),
            forall|k: int|
                0 <= k < derived@.len() ==> !start.contains_key(#[trigger] derived@[k])
                    && is_derived(ancestors@, mapping.entries(), derived@[k]),
            derived@.no_duplicates(),
            parents_come_first(ancestors@, start.dom(), derived@),
            forall|j: int| 0 <= j < i ==> mapping.entries().contains_key((#[trigger] ancestors@[j]).id),
            mapping.entries().dom() == known_at(start.dom(), ancestors@, i as int),
            first_blocked(start.dom(), ancestors@, 0) == first_blocked(
                start.dom(),
                ancestors@,
                i as int,
            ),
        decreases ancestors.len() - i,
    {
        let bonsai = &ancestors[i];
        proof {
            lemma_new_are_derived(ancestors@, start, mapping.entries(), derived@);
            lemma_known_step(start.dom(), ancestors@, i as int);
        }
        proof {
            assert(reached(start.dom(), ancestors@, mapping.entries().dom(), i as int));
        }
        let known = match get_one(mapping, bonsai.id) {
            Ok(known) => known,
            Err(error) => {
                return Err(DeriveError::Mapping(error));
            },
        };
        if known.is_some() {
            proof {
                assert(mapping.entries().dom().contains(bonsai.id));
                assert(!blocked_at(start.dom(), ancestors@, i as int));
                assert(mapping.entries().dom().insert(bonsai.id) =~= mapping.entries().dom());
            }
        }
        if known.is_none() {
            let parents = match parent_values(mapping, bonsai) {
                Ok(parents) => parents,
                Err(error) => {
                    proof {
                        match error {
                            DeriveError::MissingParent { changeset, parent } => {
                                lemma_first_unknown(mapping.entries().dom(), bonsai.parents@, 0);
                                assert(!mapping.entries().dom().contains(bonsai.id));
                                assert(blocked_at(start.dom(), ancestors@, i as int));
                                assert(lacks_parent_at(
                                    ancestors@,
                                    mapping.entries(),
                                    i as int,
                                    parent,
                                ));
                            },
                            _ => {},
                        }
                    }
                    return Err(error);
                },
            };
            proof {
                assert(!blocked_at(start.dom(), ancestors@, i as int));
            }
            let ghost handed = parents;
            let value = match D::derive_from_parents(bonsai, parents) {
                Ok(value) => value,
                Err(error) => {
                    proof {
                        assert(!mapping.entries().dom().contains(bonsai.id));
                        assert(call_ensures(
                            D::derive_from_parents,
                            (&ancestors@[i as int], handed),
                            Err::<D, Error>(error),
                        ));
                    }
                    return Err(DeriveError::Derivation { changeset: bonsai.id, error });
                },
            };
            let ghost before = mapping.entries();
            let ghost derived_before = derived@;
            match mapping.put(bonsai.id, value) {
                Ok(()) => {},
                Err(error) => {
                    proof {
                        let after = mapping.entries();
                        if after != before {
                            assert(after.dom() =~= before.dom().insert(bonsai.id));
                            assert(reached(start.dom(), ancestors@, after.dom(), i + 1));
                            lemma_put_is_derived(*bonsai, before, after, value);
                            vstd::map_lib::lemma_submap_of_trans(start, before, after);
                            assert forall|c: ChangesetId| #[trigger]
                                after.contains_key(c) && !start.contains_key(c) implies is_derived(
                                ancestors@,
                                after,
                                c,
                            ) by {
                                if c == bonsai.id {
                                    assert(ancestors@[i as int].id == c);
                                } else {
                                    assert(before.contains_key(c));
                                    lemma_is_derived_stable(ancestors@, before, after, c);
                                }
                            }
                        }
                    }
                    return Err(DeriveError::Mapping(error));
                },
            }
            derived.push(bonsai.id);
            proof {
                let after = mapping.entries();
                assert(before.submap_of(after));
                assert(after.dom() =~= before.dom().insert(bonsai.id));
                assert forall|j: int| 0 <= j < i + 1 implies after.contains_key(
                    (#[trigger] ancestors@[j]).id,
                ) by {
                    if j < i {
                        assert(before.dom().contains(ancestors@[j].id));
                    }
                }
                assert(derived@.take(derived_before.len() as int) =~= derived_before);
                crate::mapping::lemma_push_to_set(derived_before, bonsai.id);
                assert(after.dom() =~= start.dom().union(derived@.to_set()));
                vstd::map_lib::lemma_submap_of_trans(start, before, after);
                assert(derived_by(*bonsai, after)) by {
                    assert forall|j: int| 0 <= j < bonsai.parents@.len() implies after.contains_key(
                        #[trigger] bonsai.parents@[j],
                    ) by {
                        assert(before.contains_key(bonsai.parents@[j]));
                    }
                    assert(values_of(after, bonsai.parents@) =~= values_of(before, bonsai.parents@))
                        by {
                        assert forall|j: int| 0 <= j < bonsai.parents@.len() implies after[bonsai.parents@[j]]
                            == before[bonsai.parents@[j]] by {
                            assert(before.contains_key(bonsai.parents@[j]));
                        }
                    }
                }
                assert forall|k: int| 0 <= k < derived@.len() implies !start.contains_key(
                    #[trigger] derived@[k],
                ) && is_derived(ancestors@, after, derived@[k]) by {
                    if k < derived_before.len() {
                        assert(derived@[k] == derived_before[k]);
                        lemma_is_derived_stable(ancestors@, before, after, derived@[k]);
                    } else {
                        assert(ancestors@[i as int].id == derived@[k]);
                    }
                }
                assert(derived@.no_duplicates()) by {
                    assert forall|a: int, b: int|
                        0 <= a < derived@.len() && 0 <= b < derived@.len() && a != b implies derived@[a]
                        != derived@[b] by {
                        if a < derived_before.len() && b < derived_before.len() {
                            assert(derived_before[a] != derived_before[b]);
                        } else if a < derived_before.len() {
                            assert(derived_before.contains(derived_before[a]));
                        } else {
                            assert(derived_before.contains(derived_before[b]));
                        }
                    }
                }
                assert forall|k: int| 0 <= k < derived@.len() implies exists|a: int|
                    0 <= a < ancestors@.len() && (#[trigger] ancestors@[a]).id == #[trigger] derived@[k]
                        && forall|j: int|
                        0 <= j < ancestors@[a].parents@.len() ==> start.dom().contains(
                            #[trigger] ancestors@[a].parents@[j],
                        ) || derived@.take(k).contains(ancestors@[a].parents@[j]) by {
                    if k < derived_before.len() {
                        assert(derived@[k] == derived_before[k]);
                        assert(derived@.take(k) =~= derived_before.take(k));
                        let a = choose|a: int|
                            0 <= a < ancestors@.len() && (#[trigger] ancestors@[a]).id
                                == derived_before[k] && forall|j: int|
                                0 <= j < ancestors@[a].parents@.len() ==> start.dom().contains(
                                    #[trigger] ancestors@[a].parents@[j],
                                ) || derived_before.take(k).contains(ancestors@[a].parents@[j]);
                        assert(ancestors@[a].id == derived@[k]);
                    } else {
                        let a = i as int;
                        assert(ancestors@[a].id == derived@[k]);
                        assert forall|j: int|
                            0 <= j < ancestors@[a].parents@.len() implies start.dom().contains(
                            #[trigger] ancestors@[a].parents@[j],
                        ) || derived@.take(k).contains(ancestors@[a].parents@[j]) by {
                            assert(before.contains_key(bonsai.parents@[j]));
                        }
                    }
                }
            }
        }
        i += 1;
    }
    proof {
        lemma_new_are_derived(ancestors@, start, mapping.entries(), derived@);
        assert(ids_of(ancestors@).take(ancestors@.len() as int) =~= ids_of(ancestors@));
        assert(reached(start.dom(), ancestors@, mapping.entries().dom(), ancestors@.len() as int));
    }
    let found = match lookup_one(mapping, csid) {
        Ok(found) => found,
        Err(error) => {
            return Err(DeriveError::Mapping(error));
        },
    };
    match value_of_found(&found, csid) {
        Ok(value) => {
            proof {
                let at = choose|at: int| 0 <= at < found@.len() && found@[at] == (csid, value);
                assert(found@[at].0 == csid);
                assert(mapping.entries().dom().contains(csid));
                assert(ids_of(ancestors@).to_set().contains(csid));
            }
            Ok(Derivation { value, derived })
        },
        Err(error) => {
            proof {
                assert(!mapping.entries().dom().contains(csid));
                if ids_of(ancestors@).contains(csid) {
                    assert(ids_of(ancestors@).to_set().contains(csid));
                }
            }
            Err(error)
        },
    }
}

/// Derives the value of `csid`: the entry point of derivation. See
/// `derive_impl`.
pub fn derive<D: BonsaiDerived, M: BonsaiDerivedMapping<Value = D>>(
    mapping: &mut M,
    csid: ChangesetId,
    ancestors: &Vec<BonsaiChangeset>,
) -> (res: Result<D, DeriveError>)
    requires
        old(mapping).wf(),
    ensures
        final(mapping).wf(),
        old(mapping).entries().submap_of(final(mapping).entries()),
        new_are_derived(ancestors@, old(mapping).entries(), final(mapping).entries()),
        follows_plan(res, plan(old(mapping).entries().dom(), ancestors@, csid)),
        old(mapping).entries().contains_key(csid) ==> final(mapping).entries() == old(
            mapping,
        ).entries() && !(res matches Err(DeriveError::Derivation { .. })),
        !old(mapping).entries().contains_key(csid) ==> exists|i: int| #[trigger]
            reached(old(mapping).entries().dom(), ancestors@, final(mapping).entries().dom(), i),
        res matches Err(DeriveError::MissingParent { changeset, .. }) ==> stopped_at(
            old(mapping).entries().dom(),
            ancestors@,
            final(mapping).entries().dom(),
            changeset,
        ),
        res matches Err(DeriveError::Derivation { changeset, .. }) ==> stopped_at(
            old(mapping).entries().dom(),
            ancestors@,
            final(mapping).entries().dom(),
            changeset,
        ),
        res matches Err(DeriveError::NotFound(missing)) ==> missing == csid && !final(mapping).entries().contains_key(csid),
        res matches Err(DeriveError::MissingParent { changeset, parent }) ==> exists|i: int|
            #[trigger] lacks_parent_at(ancestors@, final(mapping).entries(), i, parent)
                && ancestors@[i].id == changeset,
        res matches Err(DeriveError::Derivation { changeset, error }) ==> derivation_failed(
            ancestors@,
            final(mapping).entries(),
            changeset,
            error,
        ),
        res matches Ok(value) ==> final(mapping).entries().contains_key(csid)
            && final(mapping).entries()[csid] == value,
{
    let done = match derive_impl::<D, M>(mapping, csid, ancestors) {
        Ok(done) => done,
        Err(error) => {
            return Err(error);
        },
    };
    proof {
        let before = old(mapping).entries();
        let after = mapping.entries();
        if before.contains_key(csid) {
            assert(done.derived@.to_set() =~= Set::<ChangesetId>::empty());
            assert(after.dom() =~= before.dom());
            assert(after =~= before);
        }
    }
    Ok(done.value)
}


/// A value depends on the changeset and on the values of its parents alone:
/// as long as the mapping keeps the values it has, what is derived anew for
/// a changeset is the value that it has.
pub proof fn law_deriving_again_gives_the_same<D: BonsaiDerived>(
    bonsai: BonsaiChangeset,
    entries: Map<ChangesetId, D>,
    later: Map<ChangesetId, D>,
)
    requires
        derived_by(bonsai, entries),
        entries.submap_of(later),
    ensures
        derived_by(bonsai, later),
        later[bonsai.id] == entries[bonsai.id],
        D::derived_from(bonsai, values_of(later, bonsai.parents@)) == entries[bonsai.id],
{
    lemma_derived_by_stable(bonsai, entries, later);
    assert(entries.dom().contains(bonsai.id));
}

/// In the order in which a request derived changesets, no changeset stands
/// before one of its parents: every parent of a changeset that was derived
/// had its value when the changeset got its own.
pub proof fn law_parents_are_derived_first(
    ancestors: Seq<BonsaiChangeset>,
    had_value: Set<ChangesetId>,
    derived: Seq<ChangesetId>,
    k: int,
    m: int,
)
    requires
        parents_come_first(ancestors, had_value, derived),
        derived.no_duplicates(),
        forall|n: int| 0 <= n < derived.len() ==> !had_value.contains(#[trigger] derived[n]),
        0 <= k < m < derived.len(),
        forall|i: int, j: int|
            0 <= i < j < ancestors.len() ==> (#[trigger] ancestors[i]).id != (
            #[trigger] ancestors[j]).id,
    ensures
        forall|i: int|
            0 <= i < ancestors.len() && (#[trigger] ancestors[i]).id == derived[k]
                ==> !ancestors[i].parents@.contains(derived[m]),
{
    assert forall|i: int| 0 <= i < ancestors.len() && (#[trigger] ancestors[i]).id == derived[k]
        implies !ancestors[i].parents@.contains(derived[m]) by {
        if ancestors[i].parents@.contains(derived[m]) {
            let a = choose|a: int|
                0 <= a < ancestors.len() && (#[trigger] ancestors[a]).id == derived[k] && forall|j: int|
                    0 <= j < ancestors[a].parents@.len() ==> had_value.contains(
                        #[trigger] ancestors[a].parents@[j],
                    ) || derived.take(k).contains(ancestors[a].parents@[j]);
            assert(a == i) by {
                if a < i {
                    assert(ancestors[a].id != ancestors[i].id);
                } else if i < a {
                    assert(ancestors[i].id != ancestors[a].id);
                }
            }
            let j = choose|j: int|
                0 <= j < ancestors[i].parents@.len() && ancestors[i].parents@[j] == derived[m];
            assert(had_value.contains(ancestors[i].parents@[j]) || derived.take(k).contains(
                ancestors[i].parents@[j],
            ));
            if derived.take(k).contains(derived[m]) {
                let at = choose|at: int| 0 <= at < k && derived.take(k)[at] == derived[m];
                assert(derived[at] == derived[m]);
            }
        }
    }
}

} // verus!
