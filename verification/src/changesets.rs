//! The store of changeset entries, and one that holds its entries in memory.

use crate::changeset_entry::{ChangesetEntry, ChangesetEntryView, ChangesetInsert};
use crate::error::Error;
use crate::mapping::contains_id;
use crate::types::{ChangesetId, RepositoryId};
use vstd::prelude::*;

verus! {

/// The first digits of a changeset id: `len` of its 64 hexadecimal digits,
/// held in the place where they stand in the id.
#[derive(Clone, Copy, Debug, PartialEq, Eq, Structural)]
pub struct ChangesetIdPrefix {
    pub hi: u128,
    pub lo: u128,
    pub len: u8,
}

/// The first `len` of the 32 hexadecimal digits of `x`, for `len` up to 32.
pub open spec fn leading_digits(x: u128, len: int) -> u128 {
    if len >= 32 {
        x
    } else if len <= 0 {
        0
    } else {
        x >> ((4 * (32 - len)) as u128)
    }
}

fn leading(x: u128, len: u8) -> (digits: u128)
    ensures
        digits == leading_digits(x, len as int),
{
    if len >= 32 {
        x
    } else if len == 0 {
        0
    } else {
        let shift: u128 = 4 * (32 - len as u128);
        x >> shift
    }
}

impl ChangesetIdPrefix {
    /// The prefix that is all of `id`.
    pub fn from_id(id: ChangesetId) -> (prefix: Self)
        ensures
            prefix == (ChangesetIdPrefix { hi: id.hi, lo: id.lo, len: 64 }),
    {
        ChangesetIdPrefix { hi: id.hi, lo: id.lo, len: 64 }
    }

    /// Whether the id `id` begins with this prefix.
    pub open spec fn matches(&self, id: ChangesetId) -> bool {
        if self.len >= 64 {
            id.hi == self.hi && id.lo == self.lo
        } else if self.len > 32 {
            id.hi == self.hi && leading_digits(id.lo, self.len - 32) == leading_digits(
                self.lo,
                self.len - 32,
            )
        } else {
            leading_digits(id.hi, self.len as int) == leading_digits(self.hi, self.len as int)
        }
    }

    /// Whether `id` begins with this prefix.
    pub fn is_prefix_of(&self, id: ChangesetId) -> (matches: bool)
        ensures
            matches == self.matches(id),
    {
        if self.len >= 64 {
            id.hi == self.hi && id.lo == self.lo
        } else if self.len > 32 {
            id.hi == self.hi && leading(id.lo, self.len - 32) == leading(self.lo, self.len - 32)
        } else {
            leading(id.hi, self.len) == leading(self.hi, self.len)
        }
    }

    /// The id that the prefix is, where it holds all digits of one.
    pub fn into_changeset_id(self) -> (id: Option<ChangesetId>)
        ensures
            self.len >= 64 ==> id == Some(ChangesetId { hi: self.hi, lo: self.lo }),
            self.len < 64 ==> id is None,
    {
        if self.len >= 64 {
            Some(ChangesetId { hi: self.hi, lo: self.lo })
        } else {
            None
        }
    }
}

/// The changesets of a repository that begin with a prefix.
#[derive(Clone, Debug, PartialEq, Eq)]
pub enum ChangesetIdsResolvedFromPrefix {
    /// Exactly one changeset begins with it.
    Single(ChangesetId),
    /// Several do, and no more than were asked for: these.
    Multiple(Vec<ChangesetId>),
    /// More do than were asked for: these are as many as were asked for.
    TooMany(Vec<ChangesetId>),
    /// None does.
    NoMatch,
}

/// Whether every entry stands under its own repository and id.
pub open spec fn well_keyed(entries: Map<(RepositoryId, ChangesetId), ChangesetEntryView>) -> bool {
    forall|k: (RepositoryId, ChangesetId)| #[trigger]
        entries.contains_key(k) ==> entries[k].repo_id == k.0 && entries[k].cs_id == k.1
}

/// Whether `found` answers a lookup of `cs_ids` in the repository `repo_id`:
/// it holds the entry of each of the `cs_ids` that has one, once, and
/// nothing else.
pub open spec fn is_entries_of(
    found: Seq<ChangesetEntry>,
    entries: Map<(RepositoryId, ChangesetId), ChangesetEntryView>,
    repo_id: RepositoryId,
    cs_ids: Seq<ChangesetId>,
) -> bool {
    &&& forall|i: int|
        0 <= i < found.len() ==> cs_ids.contains((#[trigger] found[i]).cs_id) && found[i].repo_id
            == repo_id && entries.contains_key((repo_id, found[i].cs_id)) && entries[(
            repo_id,
            found[i].cs_id,
        )] == found[i]@
    &&& forall|j: int|
        0 <= j < cs_ids.len() && entries.contains_key((repo_id, #[trigger] cs_ids[j]))
            ==> exists|i: int| 0 <= i < found.len() && (#[trigger] found[i]).cs_id == cs_ids[j]
    &&& forall|i: int, j: int|
        0 <= i < j < found.len() ==> (#[trigger] found[i]).cs_id != (#[trigger] found[j]).cs_id
}

/// What a lookup has found, the store holds: each entry found is the
/// store's entry of its own repository and changeset.
pub proof fn law_found_entries_are_held(
    found: Seq<ChangesetEntry>,
    entries: Map<(RepositoryId, ChangesetId), ChangesetEntryView>,
    repo_id: RepositoryId,
    cs_ids: Seq<ChangesetId>,
)
    requires
        is_entries_of(found, entries, repo_id, cs_ids),
    ensures
        forall|i: int|
            0 <= i < found.len() ==> entry_of(entries, (#[trigger] found[i]).repo_id, found[i].cs_id)
                == Some(found[i]@),
{
}

/// The entry of `(repo_id, cs_id)` in `entries`, if there is one.
pub open spec fn entry_of(
    entries: Map<(RepositoryId, ChangesetId), ChangesetEntryView>,
    repo_id: RepositoryId,
    cs_id: ChangesetId,
) -> Option<ChangesetEntryView> {
    if entries.contains_key((repo_id, cs_id)) {
        Some(entries[(repo_id, cs_id)])
    } else {
        None
    }
}

/// An entry, if there is one, as a mathematical value.
pub open spec fn view_of(entry: Option<ChangesetEntry>) -> Option<ChangesetEntryView> {
    match entry {
        Some(entry) => Some(entry@),
        None => None,
    }
}

/// A store of changeset entries. An entry, once added, never changes.
pub trait Changesets {
    spec fn wf(&self) -> bool;

    /// The entries that the store holds, by repository and changeset.
    spec fn entries(&self) -> Map<(RepositoryId, ChangesetId), ChangesetEntryView>;

    proof fn keyed_by_identity(&self)
        requires
            self.wf(),
        ensures
            well_keyed(self.entries()),
    ;

    /// Adds a changeset, and says whether it was new to the store.
    fn add(&mut self, cs: ChangesetInsert) -> (res: Result<bool, Error>)
        requires
            old(self).wf(),
        ensures
            final(self).wf(),
            res matches Ok(added) ==> added == !old(self).entries().contains_key(
                (cs.repo_id, cs.cs_id),
            ),
            res matches Ok(true) ==> {
                let key = (cs.repo_id, cs.cs_id);
                let after = final(self).entries();
                &&& after.contains_key(key)
                &&& after[key].parents == cs.parents@
                &&& after == old(self).entries().insert(key, after[key])
            },
            !(res matches Ok(true)) ==> final(self).entries() == old(self).entries(),
    ;

    /// The entry of one changeset.
    fn get(&mut self, repo_id: RepositoryId, cs_id: ChangesetId) -> (res: Result<
        Option<ChangesetEntry>,
        Error,
    >)
        requires
            old(self).wf(),
        ensures
            final(self).wf(),
            final(self).entries() == old(self).entries(),
            res matches Ok(found) ==> view_of(found) == entry_of(old(self).entries(), repo_id, cs_id),
            res matches Ok(Some(entry)) ==> entry.repo_id == repo_id && entry.cs_id == cs_id,
    ;

    /// The entries of those among `cs_ids` that the store holds.
    fn get_many(&mut self, repo_id: RepositoryId, cs_ids: Vec<ChangesetId>) -> (res: Result<
        Vec<ChangesetEntry>,
        Error,
    >)
        requires
            old(self).wf(),
        ensures
            final(self).wf(),
            final(self).entries() == old(self).entries(),
            res matches Ok(found) ==> is_entries_of(found@, old(self).entries(), repo_id, cs_ids@),
    ;

    /// The changesets of `repo_id` that begin with `cs_prefix`, up to
    /// `limit` of them. Each changeset named is in the store and begins with
    /// the prefix. A prefix that is a whole id resolves to that id where the
    /// store holds it and `limit` is not 0, and to nothing otherwise.
    fn get_many_by_prefix(
        &mut self,
        repo_id: RepositoryId,
        cs_prefix: ChangesetIdPrefix,
        limit: usize,
    ) -> (res: Result<ChangesetIdsResolvedFromPrefix, Error>)
        requires
            old(self).wf(),
        ensures
            final(self).wf(),
            final(self).entries() == old(self).entries(),
            res matches Ok(resolved) ==> resolves(resolved, old(self).entries(), repo_id, cs_prefix, limit),
    ;

    /// Has the entries `changesets`, which the store holds, remembered by
    /// whatever cache stands in front of the store.
    ///
    /// A cache answers from what it remembers without asking the store, so
    /// it can only be handed what the store holds. A caller has such entries
    /// from `get` and `get_many` of this store, whose results are entries of
    /// the store (`law_found_entries_are_held`), and they stay so: nothing here
    /// takes an entry away or changes one.
    fn prime_cache(&mut self, changesets: &[ChangesetEntry])
        requires
            old(self).wf(),
            forall|i: int|
                0 <= i < changesets@.len() ==> entry_of(
                    old(self).entries(),
                    (#[trigger] changesets@[i]).repo_id,
                    changesets@[i].cs_id,
                ) == Some(changesets@[i]@),
        ensures
            final(self).wf(),
            final(self).entries() == old(self).entries(),
    ;
}

/// Whether `id` is a changeset of `repo_id` in `entries` that begins with
/// `cs_prefix`.
pub open spec fn is_match(
    entries: Map<(RepositoryId, ChangesetId), ChangesetEntryView>,
    repo_id: RepositoryId,
    cs_prefix: ChangesetIdPrefix,
    id: ChangesetId,
) -> bool {
    entries.contains_key((repo_id, id)) && cs_prefix.matches(id)
}

/// What a resolution of `cs_prefix` says of the changesets of `repo_id`
/// that begin with the prefix: that there is none, or that nothing was asked
/// for; that there is one, and which; that there are several, and which; or
/// that there are more than were asked for, with as many of them as were.
pub open spec fn resolves(
    resolved: ChangesetIdsResolvedFromPrefix,
    entries: Map<(RepositoryId, ChangesetId), ChangesetEntryView>,
    repo_id: RepositoryId,
    cs_prefix: ChangesetIdPrefix,
    limit: usize,
) -> bool {
    &&& resolved is NoMatch <==> limit == 0 || forall|id: ChangesetId|
        !is_match(entries, repo_id, cs_prefix, id)
    &&& resolved matches ChangesetIdsResolvedFromPrefix::Single(id) ==> forall|other: ChangesetId|
        is_match(entries, repo_id, cs_prefix, other) <==> other == id
    &&& resolved matches ChangesetIdsResolvedFromPrefix::Multiple(ids) ==> 2 <= ids@.len() <= limit
        && ids@.no_duplicates() && forall|id: ChangesetId|
        is_match(entries, repo_id, cs_prefix, id) <==> ids@.contains(id)
    &&& resolved matches ChangesetIdsResolvedFromPrefix::TooMany(ids) ==> ids@.len() == limit
        && ids@.no_duplicates() && (forall|i: int|
        0 <= i < ids@.len() ==> is_match(entries, repo_id, cs_prefix, #[trigger] ids@[i]))
        && exists|id: ChangesetId| is_match(entries, repo_id, cs_prefix, id) && !ids@.contains(id)
}

/// A store that holds its entries in memory.
pub struct MemChangesets {
    rows: Vec<ChangesetEntry>,
}

/// The greatest generation among the entries of `parents` in `entries`, and
/// 0 where there is none.
pub open spec fn max_parent_gen(
    entries: Map<(RepositoryId, ChangesetId), ChangesetEntryView>,
    repo_id: RepositoryId,
    parents: Seq<ChangesetId>,
) -> u64
    decreases parents.len(),
{
    if parents.len() == 0 {
        0
    } else {
        let rest = max_parent_gen(entries, repo_id, parents.drop_last());
        let last = entries[(repo_id, parents.last())].gen;
        if last > rest {
            last
        } else {
            rest
        }
    }
}

impl MemChangesets {
    pub closed spec fn distinct(&self) -> bool {
        forall|i: int, j: int|
            0 <= i < j < self.rows@.len() ==> !((#[trigger] self.rows@[i]).repo_id == (
            #[trigger] self.rows@[j]).repo_id && self.rows@[i].cs_id == self.rows@[j].cs_id)
    }

    pub closed spec fn held(&self) -> Map<(RepositoryId, ChangesetId), ChangesetEntryView> {
        Map::new(
            |k: (RepositoryId, ChangesetId)|
                exists|i: int|
                    0 <= i < self.rows@.len() && (#[trigger] self.rows@[i]).repo_id == k.0
                        && self.rows@[i].cs_id == k.1,
            |k: (RepositoryId, ChangesetId)|
                self.rows@[choose|i: int|
                    0 <= i < self.rows@.len() && (#[trigger] self.rows@[i]).repo_id == k.0
                        && self.rows@[i].cs_id == k.1]@,
        )
    }

    proof fn lemma_held_at(&self, i: int)
        requires
            self.distinct(),
            0 <= i < self.rows@.len(),
        ensures
            self.held().contains_key((self.rows@[i].repo_id, self.rows@[i].cs_id)),
            self.held()[(self.rows@[i].repo_id, self.rows@[i].cs_id)] == self.rows@[i]@,
    {
        let k = (self.rows@[i].repo_id, self.rows@[i].cs_id);
        let c = choose|c: int|
            0 <= c < self.rows@.len() && (#[trigger] self.rows@[c]).repo_id == k.0
                && self.rows@[c].cs_id == k.1;
        if c < i {
            assert(!(self.rows@[c].repo_id == self.rows@[i].repo_id && self.rows@[c].cs_id
                == self.rows@[i].cs_id));
        } else if i < c {
            assert(!(self.rows@[i].repo_id == self.rows@[c].repo_id && self.rows@[i].cs_id
                == self.rows@[c].cs_id));
        }
    }

    /// A store without entries.
    pub fn new() -> (store: Self)
        ensures
            store.wf(),
            store.entries() == Map::<(RepositoryId, ChangesetId), ChangesetEntryView>::empty(),
    {
        let store = MemChangesets { rows: Vec::new() };
        assert(store.held() =~= Map::<(RepositoryId, ChangesetId), ChangesetEntryView>::empty());
        store
    }

    /// Where the entry of `(repo_id, cs_id)` stands, if there is one.
    fn find(&self, repo_id: RepositoryId, cs_id: ChangesetId) -> (at: Option<usize>)
        requires
            self.distinct(),
        ensures
            at matches Some(i) ==> i < self.rows@.len() && self.rows@[i as int].repo_id == repo_id
                && self.rows@[i as int].cs_id == cs_id && self.held().contains_key((repo_id, cs_id))
                && self.held()[(repo_id, cs_id)] == self.rows@[i as int]@,
            at is None ==> !self.held().contains_key((repo_id, cs_id)),
    {
        let mut i: usize = 0;
        while i < self.rows.len()
            invariant
                self.distinct(),
                i <= self.rows.len(),
                forall|j: int|
                    0 <= j < i ==> !((#[trigger] self.rows@[j]).repo_id == repo_id
                        && self.rows@[j].cs_id == cs_id),
            decreases self.rows.len() - i,
        {
            if self.rows[i].repo_id == repo_id && self.rows[i].cs_id == cs_id {
                proof {
                    self.lemma_held_at(i as int);
                }
                return Some(i);
            }
            i += 1;
        }
        None
    }

    proof fn lemma_pushed(before: Self, after: Self, entry: ChangesetEntry)
        requires
            before.distinct(),
            after.rows@ == before.rows@.push(entry),
            !before.held().contains_key((entry.repo_id, entry.cs_id)),
        ensures
            after.distinct(),
            after.held() == before.held().insert((entry.repo_id, entry.cs_id), entry@),
    {
        let last = before.rows@.len() as int;
        let key = (entry.repo_id, entry.cs_id);
        assert forall|i: int, j: int| 0 <= i < j < after.rows@.len() implies !((
        #[trigger] after.rows@[i]).repo_id == (#[trigger] after.rows@[j]).repo_id
            && after.rows@[i].cs_id == after.rows@[j].cs_id) by {
            if j < last {
                assert(!(before.rows@[i].repo_id == before.rows@[j].repo_id && before.rows@[i].cs_id
                    == before.rows@[j].cs_id));
            } else {
                if before.rows@[i].repo_id == entry.repo_id && before.rows@[i].cs_id == entry.cs_id {
                    assert(before.held().contains_key(key));
                }
            }
        }
        assert forall|k: (RepositoryId, ChangesetId)|
            after.held().contains_key(k) <==> before.held().insert(key, entry@).contains_key(k) by {
            if after.held().contains_key(k) {
                let i = choose|i: int|
                    0 <= i < after.rows@.len() && (#[trigger] after.rows@[i]).repo_id == k.0
                        && after.rows@[i].cs_id == k.1;
                if i < last {
                    assert(before.rows@[i].repo_id == k.0 && before.rows@[i].cs_id == k.1);
                }
            }
            if before.held().contains_key(k) {
                let i = choose|i: int|
                    0 <= i < before.rows@.len() && (#[trigger] before.rows@[i]).repo_id == k.0
                        && before.rows@[i].cs_id == k.1;
                assert(after.rows@[i].repo_id == k.0 && after.rows@[i].cs_id == k.1);
            }
            if k == key {
                assert(after.rows@[last].repo_id == k.0 && after.rows@[last].cs_id == k.1);
            }
        }
        assert forall|k: (RepositoryId, ChangesetId)| after.held().contains_key(k) implies after.held()[k]
            == before.held().insert(key, entry@)[k] by {
            let i = choose|i: int|
                0 <= i < after.rows@.len() && (#[trigger] after.rows@[i]).repo_id == k.0
                    && after.rows@[i].cs_id == k.1;
            after.lemma_held_at(i);
            if i < last {
                assert(after.rows@[i] == before.rows@[i]);
                before.lemma_held_at(i);
            }
        }
        assert(after.held() =~= before.held().insert(key, entry@));
    }
}

impl Changesets for MemChangesets {
    open spec fn wf(&self) -> bool {
        self.distinct()
    }

    open spec fn entries(&self) -> Map<(RepositoryId, ChangesetId), ChangesetEntryView> {
        self.held()
    }

    proof fn keyed_by_identity(&self) {
        assert forall|k: (RepositoryId, ChangesetId)| #[trigger]
            self.held().contains_key(k) implies self.held()[k].repo_id == k.0 && self.held()[k].cs_id
            == k.1 by {
            let i = choose|i: int|
                0 <= i < self.rows@.len() && (#[trigger] self.rows@[i]).repo_id == k.0
                    && self.rows@[i].cs_id == k.1;
            self.lemma_held_at(i);
        }
    }

    /// A changeset is added after its parents: one whose parent the store
    /// lacks is refused. Its generation is one more than the greatest among
    /// its parents.
    fn add(&mut self, cs: ChangesetInsert) -> (res: Result<bool, Error>)
        ensures
            res is Err <==> !old(self).entries().contains_key((cs.repo_id, cs.cs_id)) && exists|j: int|
                0 <= j < cs.parents@.len() && !old(self).entries().contains_key(
                    (cs.repo_id, #[trigger] cs.parents@[j]),
                ),
            res matches Ok(true) ==> final(self).entries()[(cs.repo_id, cs.cs_id)]
                == (ChangesetEntryView {
                repo_id: cs.repo_id,
                cs_id: cs.cs_id,
                parents: cs.parents@,
                gen: crate::generation::next_generation(
                    max_parent_gen(old(self).entries(), cs.repo_id, cs.parents@),
                ),
            }),
    {
        if self.find(cs.repo_id, cs.cs_id).is_some() {
            return Ok(false);
        }
        let mut max: u64 = 0;
        let mut j: usize = 0;
        while j < cs.parents.len()
            invariant
                *self == *old(self),
                self.distinct(),
                j <= cs.parents.len(),
                !self.held().contains_key((cs.repo_id, cs.cs_id)),
                forall|k: int|
                    0 <= k < j ==> self.held().contains_key((cs.repo_id, #[trigger] cs.parents@[k])),
                max == max_parent_gen(self.held(), cs.repo_id, cs.parents@.take(j as int)),
            decreases cs.parents.len() - j,
        {
            proof {
                assert(cs.parents@.take(j + 1).drop_last() =~= cs.parents@.take(j as int));
            }
            match self.find(cs.repo_id, cs.parents[j]) {
                Some(at) => {
                    if self.rows[at].gen > max {
                        max = self.rows[at].gen;
                    }
                },
                None => {
                    assert(!self.held().contains_key((cs.repo_id, cs.parents@[j as int])));
                    return Err(Error::NotFound(cs.parents[j]));
                },
            }
            j += 1;
        }
        proof {
            assert(cs.parents@.take(cs.parents@.len() as int) =~= cs.parents@);
        }
        let gen = if max < u64::MAX {
            max + 1
        } else {
            u64::MAX
        };
        let entry = ChangesetEntry { repo_id: cs.repo_id, cs_id: cs.cs_id, parents: cs.parents, gen };
        let ghost before = *self;
        self.rows.push(entry);
        proof {
            Self::lemma_pushed(before, *self, entry);
        }
        Ok(true)
    }

    /// Never fails.
    fn get(&mut self, repo_id: RepositoryId, cs_id: ChangesetId) -> (res: Result<
        Option<ChangesetEntry>,
        Error,
    >)
        ensures
            res is Ok,
    {
        match self.find(repo_id, cs_id) {
            Some(at) => Ok(Some(self.rows[at].duplicate())),
            None => Ok(None),
        }
    }

    /// Never fails.
    fn get_many(&mut self, repo_id: RepositoryId, cs_ids: Vec<ChangesetId>) -> (res: Result<
        Vec<ChangesetEntry>,
        Error,
    >)
        ensures
            res is Ok,
    {
        let mut found: Vec<ChangesetEntry> = Vec::new();
        let ghost mut origin: Seq<int> = Seq::empty();
        let mut i: usize = 0;
        while i < self.rows.len()
            invariant
                *self == *old(self),
                self.distinct(),
                i <= self.rows.len(),
                origin.len() == found@.len(),
                forall|k: int|
                    0 <= k < found@.len() ==> 0 <= #[trigger] origin[k] < i && found@[k]@
                        == self.rows@[origin[k]]@ && found@[k].repo_id == repo_id && found@[k].cs_id
                        == self.rows@[origin[k]].cs_id && self.rows@[origin[k]].repo_id == repo_id
                        && cs_ids@.contains(found@[k].cs_id),
                forall|k: int, l: int| 0 <= k < l < found@.len() ==> origin[k] < origin[l],
                forall|j: int|
                    0 <= j < i && (#[trigger] self.rows@[j]).repo_id == repo_id && cs_ids@.contains(
                        self.rows@[j].cs_id,
                    ) ==> exists|k: int| 0 <= k < found@.len() && #[trigger] origin[k] == j,
            decreases self.rows.len() - i,
        {
            if self.rows[i].repo_id == repo_id && contains_id(&cs_ids, self.rows[i].cs_id) {
                found.push(self.rows[i].duplicate());
                proof {
                    let ghost before = origin;
                    origin = origin.push(i as int);
                    assert forall|j: int|
                        0 <= j < i + 1 && (#[trigger] self.rows@[j]).repo_id == repo_id
                            && cs_ids@.contains(self.rows@[j].cs_id) implies exists|k: int|
                        0 <= k < found@.len() && #[trigger] origin[k] == j by {
                        if j < i {
                            let k = choose|k: int| 0 <= k < before.len() && #[trigger] before[k] == j;
                            assert(origin[k] == j);
                        } else {
                            assert(origin[found@.len() - 1] == j);
                        }
                    }
                }
            }
            i += 1;
        }
        proof {
            let entries = self.held();
            assert forall|k: int| 0 <= k < found@.len() implies cs_ids@.contains(
                (#[trigger] found@[k]).cs_id,
            ) && found@[k].repo_id == repo_id && entries.contains_key((repo_id, found@[k].cs_id))
                && entries[(repo_id, found@[k].cs_id)] == found@[k]@ by {
                self.lemma_held_at(origin[k]);
            }
            assert forall|j: int|
                0 <= j < cs_ids@.len() && entries.contains_key(
                    (repo_id, #[trigger] cs_ids@[j]),
                ) implies exists|k: int| 0 <= k < found@.len() && (#[trigger] found@[k]).cs_id == cs_ids@[j] by {
                let c = cs_ids@[j];
                let at = choose|at: int|
                    0 <= at < self.rows@.len() && (#[trigger] self.rows@[at]).repo_id == repo_id
                        && self.rows@[at].cs_id == c;
                assert(cs_ids@.contains(self.rows@[at].cs_id));
                let k = choose|k: int| 0 <= k < found@.len() && #[trigger] origin[k] == at;
                assert(found@[k].cs_id == c);
            }
            assert forall|k: int, l: int| 0 <= k < l < found@.len() implies (
            #[trigger] found@[k]).cs_id != (#[trigger] found@[l]).cs_id by {
                assert(origin[k] < origin[l]);
                assert(!(self.rows@[origin[k]].repo_id == self.rows@[origin[l]].repo_id
                    && self.rows@[origin[k]].cs_id == self.rows@[origin[l]].cs_id));
            }
        }
        Ok(found)
    }

    /// Never fails. The changesets are named in the order in which they
    /// were added.
    fn get_many_by_prefix(
        &mut self,
        repo_id: RepositoryId,
        cs_prefix: ChangesetIdPrefix,
        limit: usize,
    ) -> (res: Result<ChangesetIdsResolvedFromPrefix, Error>)
        ensures
            res is Ok,
    {
        if limit == 0 {
            return Ok(ChangesetIdsResolvedFromPrefix::NoMatch);
        }
        match cs_prefix.into_changeset_id() {
            Some(id) => {
                proof {
                    assert forall|other: ChangesetId| cs_prefix.matches(other) implies other == id by {
                        assert(other.hi == id.hi && other.lo == id.lo);
                    }
                }
                return match self.find(repo_id, id) {
                    Some(_) => {
                        assert(is_match(self.held(), repo_id, cs_prefix, id));
                        Ok(ChangesetIdsResolvedFromPrefix::Single(id))
                    },
                    None => {
                        assert forall|other: ChangesetId| !is_match(
                            self.held(),
                            repo_id,
                            cs_prefix,
                            other,
                        ) by {
                            if cs_prefix.matches(other) {
                                assert(other == id);
                            }
                        }
                        Ok(ChangesetIdsResolvedFromPrefix::NoMatch)
                    },
                };
            },
            None => {},
        }
        let mut ids: Vec<ChangesetId> = Vec::new();
        let ghost mut origin: Seq<int> = Seq::empty();
        let ghost mut beyond: int = 0;
        let mut more = false;
        let mut i: usize = 0;
        while i < self.rows.len()
            invariant
                *self == *old(self),
                self.distinct(),
                limit > 0,
                i <= self.rows.len(),
                ids@.len() <= limit,
                origin.len() == ids@.len(),
                forall|k: int|
                    0 <= k < ids@.len() ==> 0 <= #[trigger] origin[k] < i && ids@[k]
                        == self.rows@[origin[k]].cs_id && self.rows@[origin[k]].repo_id == repo_id
                        && cs_prefix.matches(ids@[k]),
                forall|k: int, l: int| 0 <= k < l < ids@.len() ==> origin[k] < origin[l],
                !more ==> forall|j: int|
                    0 <= j < i && (#[trigger] self.rows@[j]).repo_id == repo_id && cs_prefix.matches(
                        self.rows@[j].cs_id,
                    ) ==> exists|k: int| 0 <= k < ids@.len() && #[trigger] origin[k] == j,
                more ==> ids@.len() == limit && 0 <= beyond < i && self.rows@[beyond].repo_id
                    == repo_id && cs_prefix.matches(self.rows@[beyond].cs_id) && forall|k: int|
                    0 <= k < ids@.len() ==> #[trigger] origin[k] < beyond,
            decreases self.rows.len() - i,
        {
            if self.rows[i].repo_id == repo_id && cs_prefix.is_prefix_of(self.rows[i].cs_id) {
                if ids.len() < limit {
                    ids.push(self.rows[i].cs_id);
                    proof {
                        let ghost before = origin;
                        origin = origin.push(i as int);
                        assert forall|j: int|
                            0 <= j < i + 1 && (#[trigger] self.rows@[j]).repo_id == repo_id
                                && cs_prefix.matches(self.rows@[j].cs_id) implies exists|k: int|
                            0 <= k < ids@.len() && #[trigger] origin[k] == j by {
                            if j < i {
                                let k = choose|k: int|
                                    0 <= k < before.len() && #[trigger] before[k] == j;
                                assert(origin[k] == j);
                            } else {
                                assert(origin[ids@.len() - 1] == j);
                            }
                        }
                    }
                } else {
                    proof {
                        if !more {
                            beyond = i as int;
                        }
                    }
                    more = true;
                }
            }
            i += 1;
        }
        proof {
            let entries = self.held();
            // what was collected are changesets of the store, each once
            assert forall|k: int| 0 <= k < ids@.len() implies is_match(
                entries,
                repo_id,
                cs_prefix,
                #[trigger] ids@[k],
            ) by {
                self.lemma_held_at(origin[k]);
            }
            assert(ids@.no_duplicates()) by {
                assert forall|k: int, l: int|
                    0 <= k < ids@.len() && 0 <= l < ids@.len() && k != l implies ids@[k] != ids@[l] by {
                    if k < l {
                        assert(origin[k] < origin[l]);
                        assert(!((#[trigger] self.rows@[origin[k]]).repo_id == (
                        #[trigger] self.rows@[origin[l]]).repo_id && self.rows@[origin[k]].cs_id
                            == self.rows@[origin[l]].cs_id));
                    } else {
                        assert(origin[l] < origin[k]);
                        assert(!((#[trigger] self.rows@[origin[l]]).repo_id == (
                        #[trigger] self.rows@[origin[k]]).repo_id && self.rows@[origin[l]].cs_id
                            == self.rows@[origin[k]].cs_id));
                    }
                }
            }
            if !more {
                assert forall|id: ChangesetId| is_match(entries, repo_id, cs_prefix, id) implies ids@.contains(
                    id,
                ) by {
                    let at = choose|at: int|
                        0 <= at < self.rows@.len() && (#[trigger] self.rows@[at]).repo_id == repo_id
                            && self.rows@[at].cs_id == id;
                    assert(cs_prefix.matches(self.rows@[at].cs_id));
                    let k = choose|k: int| 0 <= k < ids@.len() && #[trigger] origin[k] == at;
                    assert(ids@[k] == id);
                }
            } else {
                let id = self.rows@[beyond].cs_id;
                self.lemma_held_at(beyond);
                assert(is_match(entries, repo_id, cs_prefix, id));
                assert(!ids@.contains(id)) by {
                    if ids@.contains(id) {
                        let k = choose|k: int| 0 <= k < ids@.len() && ids@[k] == id;
                        assert(origin[k] < beyond);
                        assert(!((#[trigger] self.rows@[origin[k]]).repo_id == (
                        #[trigger] self.rows@[beyond]).repo_id && self.rows@[origin[k]].cs_id
                            == self.rows@[beyond].cs_id));
                    }
                }
            }
        }
        if ids.len() == 0 {
            Ok(ChangesetIdsResolvedFromPrefix::NoMatch)
        } else if more {
            Ok(ChangesetIdsResolvedFromPrefix::TooMany(ids))
        } else if ids.len() == 1 {
            proof {
                assert forall|other: ChangesetId|
                    is_match(self.held(), repo_id, cs_prefix, other) <==> other == ids@[0] by {
                    if is_match(self.held(), repo_id, cs_prefix, other) {
                        assert(ids@.contains(other));
                    }
                }
            }
            Ok(ChangesetIdsResolvedFromPrefix::Single(ids[0]))
        } else {
            Ok(ChangesetIdsResolvedFromPrefix::Multiple(ids))
        }
    }

    /// There is no cache to prime.
    fn prime_cache(&mut self, _changesets: &[ChangesetEntry]) {
    }
}

} // verus!
