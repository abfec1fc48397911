//! Mappings from changesets to their derived values.
//!
//! A mapping remembers, for one kind of derived data, which changesets have a
//! value. It is the source of truth for the derivation engine: a value is
//! derived once, written once, and read from then on.

use crate::error::Error;
use crate::types::ChangesetId;
use vstd::prelude::*;
use vstd::string::StringExecFns;

verus! {

/// Whether `found` answers a lookup of `csids` in `entries`: it holds each
/// of the `csids` that has a value, once, with that value, and nothing else.
pub open spec fn is_lookup_result<V>(
    found: Seq<(ChangesetId, V)>,
    entries: Map<ChangesetId, V>,
    csids: Seq<ChangesetId>,
) -> bool {
    &&& forall|i: int|
        0 <= i < found.len() ==> csids.contains((#[trigger] found[i]).0) && entries.contains_key(
            found[i].0,
        ) && entries[found[i].0] == found[i].1
    &&& forall|j: int|
        0 <= j < csids.len() && entries.contains_key(#[trigger] csids[j]) ==> exists|i: int|
            0 <= i < found.len() && (#[trigger] found[i]).0 == csids[j]
    &&& forall|i: int, j: int|
        0 <= i < j < found.len() ==> (#[trigger] found[i]).0 != (#[trigger] found[j]).0
}

/// A store of derived values, one for a changeset at most.
pub trait BonsaiDerivedMapping {
    type Value: Copy;

    /// What a mapping's methods rely on and keep.
    spec fn wf(&self) -> bool;

    /// The value of each changeset that has one.
    spec fn entries(&self) -> Map<ChangesetId, Self::Value>;

    /// Fetches the values of those among `csids` that have one. The
    /// mapping holds afterwards what it held.
    fn get(&mut self, csids: Vec<ChangesetId>) -> (res: Result<
        Vec<(ChangesetId, Self::Value)>,
        Error,
    >)
        requires
            old(self).wf(),
        ensures
            final(self).wf(),
            final(self).entries() == old(self).entries(),
            res matches Ok(found) ==> is_lookup_result(found@, old(self).entries(), csids@),
    ;

    /// Saves `id` as the value of `csid`. Where this fails, the mapping holds
    /// what it held; at most it has taken the value all the same, for a
    /// changeset that had none.
    fn put(&mut self, csid: ChangesetId, id: Self::Value) -> (res: Result<(), Error>)
        requires
            old(self).wf(),
        ensures
            final(self).wf(),
            res is Ok ==> final(self).entries() == old(self).entries().insert(csid, id),
            res is Err ==> final(self).entries() == old(self).entries() || (!old(self).entries().contains_key(csid) && final(self).entries() == old(self).entries().insert(
                csid,
                id,
            )),
    ;
}

/// The value that `found` holds for `csid`, if it holds one.
pub fn find_value<V: Copy>(found: &Vec<(ChangesetId, V)>, csid: ChangesetId) -> (value: Option<V>)
    ensures
        value matches Some(v) ==> exists|i: int|
            0 <= i < found@.len() && #[trigger] found@[i] == (csid, v),
        value is None ==> forall|i: int| 0 <= i < found@.len() ==> (#[trigger] found@[i]).0 != csid,
{
    let mut i: usize = 0;
    while i < found.len()
        invariant
            i <= found.len(),
            forall|j: int| 0 <= j < i ==> (#[trigger] found@[j]).0 != csid,
        decreases found.len() - i,
    {
        if found[i].0 == csid {
            return Some(found[i].1);
        }
        i += 1;
    }
    None
}

/// Whether `csid` occurs in `csids`.
pub fn contains_id(csids: &Vec<ChangesetId>, csid: ChangesetId) -> (found: bool)
    ensures
        found == csids@.contains(csid),
{
    let mut i: usize = 0;
    while i < csids.len()
        invariant
            i <= csids.len(),
            forall|j: int| 0 <= j < i ==> csids@[j] != csid,
        decreases csids.len() - i,
    {
        if csids[i] == csid {
            return true;
        }
        i += 1;
    }
    false
}

/// A lookup result read as a function: what it says of one changeset.
pub proof fn lemma_lookup_result<V>(
    found: Seq<(ChangesetId, V)>,
    entries: Map<ChangesetId, V>,
    csids: Seq<ChangesetId>,
    csid: ChangesetId,
)
    requires
        is_lookup_result(found, entries, csids),
        csids.contains(csid),
    ensures
        entries.contains_key(csid) <==> exists|i: int|
            0 <= i < found.len() && (#[trigger] found[i]).0 == csid,
        forall|i: int|
            0 <= i < found.len() && (#[trigger] found[i]).0 == csid ==> found[i].1 == entries[csid],
{
    let j = choose|j: int| 0 <= j < csids.len() && csids[j] == csid;
    assert(csids[j] == csid);
}


/// A mapping that holds its values in memory. It can be made unavailable,
/// as a store that cannot be reached: it then answers nothing and takes
/// nothing, and keeps what it holds.
pub struct MemMapping<V> {
    pairs: Vec<(ChangesetId, V)>,
    available: bool,
}

/// The error of a mapping that is unavailable.
pub open spec fn is_unavailable(e: Error) -> bool {
    e matches Error::Store(what) && what@ == "the mapping is unavailable"@
}

impl<V: Copy> MemMapping<V> {
    /// No changeset occurs twice.
    pub closed spec fn distinct(&self) -> bool {
        forall|i: int, j: int|
            0 <= i < j < self.pairs@.len() ==> (#[trigger] self.pairs@[i]).0 != (
            #[trigger] self.pairs@[j]).0
    }

    /// The value of each changeset that has one.
    pub closed spec fn held(&self) -> Map<ChangesetId, V> {
        Map::new(
            |c: ChangesetId| exists|i: int| 0 <= i < self.pairs@.len() && (#[trigger] self.pairs@[i]).0 == c,
            |c: ChangesetId|
                self.pairs@[choose|i: int| 0 <= i < self.pairs@.len() && (#[trigger] self.pairs@[i]).0 == c].1,
        )
    }

    proof fn lemma_held_at(&self, i: int)
        requires
            self.distinct(),
            0 <= i < self.pairs@.len(),
        ensures
            self.held().contains_key(self.pairs@[i].0),
            self.held()[self.pairs@[i].0] == self.pairs@[i].1,
    {
        let c = self.pairs@[i].0;
        let k = choose|k: int| 0 <= k < self.pairs@.len() && (#[trigger] self.pairs@[k]).0 == c;
        assert(k == i) by {
            if k < i {
                assert(self.pairs@[k].0 != self.pairs@[i].0);
            } else if i < k {
                assert(self.pairs@[i].0 != self.pairs@[k].0);
            }
        }
    }

    pub closed spec fn available(&self) -> bool {
        self.available
    }

    /// Makes the mapping available, or unavailable.
    pub fn set_available(&mut self, available: bool)
        ensures
            final(self).available() == available,
            final(self).distinct() == old(self).distinct(),
            final(self).held() == old(self).held(),
    {
        self.available = available;
        proof {
            assert(self.pairs@ == old(self).pairs@);
            if old(self).distinct() {
                assert forall|i: int, j: int| 0 <= i < j < self.pairs@.len() implies (
                #[trigger] self.pairs@[i]).0 != (#[trigger] self.pairs@[j]).0 by {
                    assert(old(self).pairs@[i].0 != old(self).pairs@[j].0);
                }
            }
            if self.distinct() {
                assert forall|i: int, j: int| 0 <= i < j < old(self).pairs@.len() implies (
                #[trigger] old(self).pairs@[i]).0 != (#[trigger] old(self).pairs@[j]).0 by {
                    assert(self.pairs@[i].0 != self.pairs@[j].0);
                }
            }
            assert(self.held() =~= old(self).held());
        }
    }

    fn unavailable() -> (e: Error)
        ensures
            is_unavailable(e),
    {
        Error::Store(String::from_str("the mapping is unavailable"))
    }

    /// A mapping without values, which is available.
    pub fn new() -> (mapping: Self)
        ensures
            mapping.wf(),
            mapping.available(),
            mapping.entries() == Map::<ChangesetId, V>::empty(),
    {
        let mapping = MemMapping { pairs: Vec::new(), available: true };
        assert(mapping.held() =~= Map::<ChangesetId, V>::empty());
        mapping
    }

    /// The number of changesets that have a value.
    pub fn len(&self) -> (n: usize)
        requires
            self.wf(),
        ensures
            n == self.entries().dom().len(),
            self.entries().dom().finite(),
    {
        proof {
            self.lemma_dom_len(self.pairs@.len() as int);
            assert(self.held().dom() =~= self.keys_below(self.pairs@.len() as int));
        }
        self.pairs.len()
    }

    spec fn keys_below(&self, n: int) -> Set<ChangesetId> {
        Set::new(|c: ChangesetId| exists|i: int| 0 <= i < n && (#[trigger] self.pairs@[i]).0 == c)
    }

    proof fn lemma_dom_len(&self, n: int)
        requires
            self.distinct(),
            0 <= n <= self.pairs@.len(),
        ensures
            self.keys_below(n).finite(),
            self.keys_below(n).len() == n,
        decreases n,
    {
        if n == 0 {
            assert(self.keys_below(0) =~= Set::<ChangesetId>::empty());
        } else {
            self.lemma_dom_len(n - 1);
            let c = self.pairs@[n - 1].0;
            assert(!self.keys_below(n - 1).contains(c)) by {
                if self.keys_below(n - 1).contains(c) {
                    let i = choose|i: int| 0 <= i < n - 1 && (#[trigger] self.pairs@[i]).0 == c;
                    assert(self.pairs@[i].0 != self.pairs@[n - 1].0);
                }
            }
            assert(self.keys_below(n) =~= self.keys_below(n - 1).insert(c)) by {
                assert forall|d: ChangesetId| self.keys_below(n).contains(d) implies self.keys_below(
                    n - 1,
                ).insert(c).contains(d) by {
                    let i = choose|i: int| 0 <= i < n && (#[trigger] self.pairs@[i]).0 == d;
                    if i < n - 1 {
                        assert(self.pairs@[i].0 == d);
                    }
                }
                assert forall|d: ChangesetId|
                    self.keys_below(n - 1).insert(c).contains(d) implies self.keys_below(
                    n,
                ).contains(d) by {
                    if d == c {
                        assert(self.pairs@[n - 1].0 == d);
                    } else {
                        let i = choose|i: int| 0 <= i < n - 1 && (#[trigger] self.pairs@[i]).0 == d;
                        assert(self.pairs@[i].0 == d);
                    }
                }
            }
        }
    }
}

impl<V: Copy> BonsaiDerivedMapping for MemMapping<V> {
    type Value = V;

    open spec fn wf(&self) -> bool {
        self.distinct()
    }

    open spec fn entries(&self) -> Map<ChangesetId, V> {
        self.held()
    }

    /// Fails where the mapping is unavailable, and nowhere else.
    fn get(&mut self, csids: Vec<ChangesetId>) -> (res: Result<Vec<(ChangesetId, V)>, Error>)
        ensures
            final(self).available() == old(self).available(),
            res is Ok <==> old(self).available(),
            res matches Err(e) ==> is_unavailable(e),
    {
        if !self.available {
            return Err(Self::unavailable());
        }
        let mut found: Vec<(ChangesetId, V)> = Vec::new();
        let ghost mut origin: Seq<int> = Seq::empty();
        let mut i: usize = 0;
        while i < self.pairs.len()
            invariant
                *self == *old(self),
                self.distinct(),
                i <= self.pairs.len(),
                origin.len() == found@.len(),
                forall|k: int|
                    0 <= k < found@.len() ==> 0 <= #[trigger] origin[k] < i && found@[k]
                        == self.pairs@[origin[k]] && csids@.contains(found@[k].0),
                forall|k: int, l: int| 0 <= k < l < found@.len() ==> origin[k] < origin[l],
                forall|j: int|
                    0 <= j < i && csids@.contains((#[trigger] self.pairs@[j]).0) ==> exists|k: int|
                        0 <= k < found@.len() && #[trigger] origin[k] == j,
            decreases self.pairs.len() - i,
        {
            if contains_id(&csids, self.pairs[i].0) {
                found.push(self.pairs[i]);
                proof {
                    let ghost before = origin;
                    origin = origin.push(i as int);
                    assert forall|j: int|
                        0 <= j < i + 1 && csids@.contains(
                            (#[trigger] self.pairs@[j]).0,
                        ) implies exists|k: int|
                        0 <= k < found@.len() && #[trigger] origin[k] == j by {
                        if j < i {
                            let k = choose|k: int| 0 <= k < before.len() && #[trigger] before[k] == j;
                            assert(origin[k] == j);
                        } else {
                            assert(origin[found@.len() - 1] == j);
                        }
                    }
                }
            }
            i += 1;
        }
        proof {
            assert forall|k: int| 0 <= k < found@.len() implies csids@.contains(
                (#[trigger] found@[k]).0,
            ) && self.held().contains_key(found@[k].0) && self.held()[found@[k].0] == found@[k].1 by {
                self.lemma_held_at(origin[k]);
            }
            assert forall|j: int|
                0 <= j < csids@.len() && self.held().contains_key(
                    #[trigger] csids@[j],
                ) implies exists|k: int| 0 <= k < found@.len() && (#[trigger] found@[k]).0 == csids@[j] by {
                let c = csids@[j];
                let at = choose|at: int| 0 <= at < self.pairs@.len() && (#[trigger] self.pairs@[at]).0 == c;
                assert(csids@.contains(self.pairs@[at].0));
                let k = choose|k: int| 0 <= k < found@.len() && #[trigger] origin[k] == at;
                assert(found@[k].0 == c);
            }
            assert forall|k: int, l: int| 0 <= k < l < found@.len() implies (#[trigger] found@[k]).0 != (
            #[trigger] found@[l]).0 by {
                assert(origin[k] < origin[l]);
                assert(self.pairs@[origin[k]].0 != self.pairs@[origin[l]].0);
            }
        }
        Ok(found)
    }

    /// Fails where the mapping is unavailable, and nowhere else; it then
    /// holds what it held.
    fn put(&mut self, csid: ChangesetId, id: V) -> (res: Result<(), Error>)
        ensures
            final(self).available() == old(self).available(),
            res is Ok <==> old(self).available(),
            res matches Err(e) ==> is_unavailable(e) && final(self).entries() == old(self).entries(),
    {
        if !self.available {
            return Err(Self::unavailable());
        }
        let ghost before = *self;
        let mut i: usize = 0;
        while i < self.pairs.len()
            invariant
                *self == before,
                before == *old(self),
                before.distinct(),
                before.available,
                i <= self.pairs.len(),
                forall|j: int| 0 <= j < i ==> (#[trigger] self.pairs@[j]).0 != csid,
            decreases self.pairs.len() - i,
        {
            if self.pairs[i].0 == csid {
                self.pairs[i] = (csid, id);
                proof {
                    assert(self.distinct()) by {
                        assert forall|a: int, b: int| 0 <= a < b < self.pairs@.len() implies (
                        #[trigger] self.pairs@[a]).0 != (#[trigger] self.pairs@[b]).0 by {
                            assert(before.pairs@[a].0 != before.pairs@[b].0);
                        }
                    }
                    assert(self.held() =~= before.held().insert(csid, id)) by {
                        assert forall|c: ChangesetId| self.held().contains_key(c) <==> before.held().insert(
                            csid,
                            id,
                        ).contains_key(c) by {
                            if self.held().contains_key(c) {
                                let k = choose|k: int|
                                    0 <= k < self.pairs@.len() && (#[trigger] self.pairs@[k]).0 == c;
                                assert(before.pairs@[k].0 == c);
                            }
                            if before.held().contains_key(c) {
                                let k = choose|k: int|
                                    0 <= k < before.pairs@.len() && (#[trigger] before.pairs@[k]).0 == c;
                                assert(self.pairs@[k].0 == c);
                            }
                            if c == csid {
                                assert(self.pairs@[i as int].0 == c);
                            }
                        }
                        assert forall|c: ChangesetId| self.held().contains_key(c) implies self.held()[c]
                            == before.held().insert(csid, id)[c] by {
                            let k = choose|k: int|
                                0 <= k < self.pairs@.len() && (#[trigger] self.pairs@[k]).0 == c;
                            self.lemma_held_at(k);
                            if c != csid {
                                assert(k != i);
                                before.lemma_held_at(k);
                            } else {
                                assert(k == i) by {
                                    if k < i {
                                        assert(self.pairs@[k].0 != self.pairs@[i as int].0);
                                    } else if i < k {
                                        assert(self.pairs@[i as int].0 != self.pairs@[k].0);
                                    }
                                }
                            }
                        }
                    }
                }
                return Ok(());
            }
            i += 1;
        }
        self.pairs.push((csid, id));
        proof {
            assert(self.distinct()) by {
                assert forall|a: int, b: int| 0 <= a < b < self.pairs@.len() implies (
                #[trigger] self.pairs@[a]).0 != (#[trigger] self.pairs@[b]).0 by {
                    if b < before.pairs@.len() {
                        assert(before.pairs@[a].0 != before.pairs@[b].0);
                    } else {
                        assert(before.pairs@[a].0 != csid);
                    }
                }
            }
            assert(self.held() =~= before.held().insert(csid, id)) by {
                let last = self.pairs@.len() - 1;
                assert forall|c: ChangesetId| self.held().contains_key(c) <==> before.held().insert(
                    csid,
                    id,
                ).contains_key(c) by {
                    if self.held().contains_key(c) {
                        let k = choose|k: int|
                            0 <= k < self.pairs@.len() && (#[trigger] self.pairs@[k]).0 == c;
                        if k < last {
                            assert(before.pairs@[k].0 == c);
                        }
                    }
                    if before.held().contains_key(c) {
                        let k = choose|k: int|
                            0 <= k < before.pairs@.len() && (#[trigger] before.pairs@[k]).0 == c;
                        assert(self.pairs@[k].0 == c);
                    }
                    if c == csid {
                        assert(self.pairs@[last].0 == c);
                    }
                }
                assert forall|c: ChangesetId| self.held().contains_key(c) implies self.held()[c]
                    == before.held().insert(csid, id)[c] by {
                    let k = choose|k: int|
                        0 <= k < self.pairs@.len() && (#[trigger] self.pairs@[k]).0 == c;
                    self.lemma_held_at(k);
                    if k < last {
                        assert(before.pairs@[k] == self.pairs@[k]);
                        before.lemma_held_at(k);
                    }
                }
            }
        }
        Ok(())
    }
}


/// Those of `ids` that are not among `set`, in their order.
pub open spec fn not_among(set: Set<ChangesetId>, ids: Seq<ChangesetId>) -> Seq<ChangesetId>
    decreases ids.len(),
{
    if ids.len() == 0 {
        Seq::empty()
    } else if set.contains(ids.last()) {
        not_among(set, ids.drop_last())
    } else {
        not_among(set, ids.drop_last()).push(ids.last())
    }
}

/// What one more id adds to those that are not among `set`.
pub proof fn lemma_not_among_step(set: Set<ChangesetId>, ids: Seq<ChangesetId>, i: int)
    requires
        0 <= i < ids.len(),
    ensures
        not_among(set, ids.take(i + 1)) == if set.contains(ids[i]) {
            not_among(set, ids.take(i))
        } else {
            not_among(set, ids.take(i)).push(ids[i])
        },
{
    assert(ids.take(i + 1).drop_last() =~= ids.take(i));
    assert(ids.take(i + 1).last() == ids[i]);
}

/// An id is among those that are not among `set` exactly where it is one
/// of `ids` and not in `set`.
pub proof fn lemma_not_among_holds(set: Set<ChangesetId>, ids: Seq<ChangesetId>)
    ensures
        forall|c: ChangesetId|
            #![trigger not_among(set, ids).contains(c)]
            #![trigger ids.contains(c)]
            not_among(set, ids).contains(c) <==> ids.contains(c) && !set.contains(c),
    decreases ids.len(),
{
    let all = not_among(set, ids);
    if ids.len() == 0 {
        assert forall|c: ChangesetId| all.contains(c) <==> ids.contains(c) && !set.contains(c) by {}
    } else {
        let rest = not_among(set, ids.drop_last());
        let last = ids.last();
        lemma_not_among_holds(set, ids.drop_last());
        assert forall|c: ChangesetId| all.contains(c) implies ids.contains(c) && !set.contains(c) by {
            let k = choose|k: int| 0 <= k < all.len() && all[k] == c;
            if k < rest.len() {
                assert(rest[k] == c);
                assert(rest.contains(c));
                assert(rest.contains(c) <==> ids.drop_last().contains(c) && !set.contains(c));
                let j = choose|j: int| 0 <= j < ids.drop_last().len() && ids.drop_last()[j] == c;
                assert(ids[j] == c);
            } else {
                assert(c == last);
                assert(ids[ids.len() - 1] == c);
            }
        }
        assert forall|c: ChangesetId| ids.contains(c) && !set.contains(c) implies all.contains(c) by {
            let j = choose|j: int| 0 <= j < ids.len() && ids[j] == c;
            if j < ids.len() - 1 {
                assert(ids.drop_last()[j] == c);
                assert(ids.drop_last().contains(c));
                assert(rest.contains(c) <==> ids.drop_last().contains(c) && !set.contains(c));
                let k = choose|k: int| 0 <= k < rest.len() && rest[k] == c;
                assert(all[k] == c);
            } else {
                assert(all[rest.len() as int] == c);
            }
        }
    }
}

/// A mapping that ignores the values of some changesets until they are put
/// again. It serves to derive anew for chosen changesets while the values of
/// all others stay in use.
pub struct RegenerateMapping<M> {
    regenerate: Vec<ChangesetId>,
    base: M,
}

impl<M: BonsaiDerivedMapping> RegenerateMapping<M> {
    /// A mapping that ignores nothing yet.
    pub fn new(base: M) -> (mapping: Self)
        ensures
            mapping.base() == base,
            mapping.flagged() == Set::<ChangesetId>::empty(),
    {
        let mapping = Self { regenerate: Vec::new(), base };
        assert(mapping.regenerate@.to_set() =~= Set::<ChangesetId>::empty());
        mapping
    }

    /// The mapping underneath.
    pub closed spec fn base(&self) -> M {
        self.base
    }

    /// The changesets whose values are ignored.
    pub closed spec fn flagged(&self) -> Set<ChangesetId> {
        self.regenerate@.to_set()
    }

    /// Has the values of `csids` ignored from now on.
    pub fn regenerate(&mut self, csids: Vec<ChangesetId>)
        ensures
            final(self).base() == old(self).base(),
            final(self).flagged() == old(self).flagged().union(csids@.to_set()),
    {
        let mut i: usize = 0;
        while i < csids.len()
            invariant
                i <= csids.len(),
                self.base == old(self).base,
                self.regenerate@.to_set() == old(self).regenerate@.to_set().union(
                    csids@.take(i as int).to_set(),
                ),
            decreases csids.len() - i,
        {
            let ghost before = self.regenerate@;
            self.regenerate.push(csids[i]);
            proof {
                assert(csids@.take(i + 1).to_set() =~= csids@.take(i as int).to_set().insert(
                    csids@[i as int],
                )) by {
                    assert(csids@.take(i + 1) =~= csids@.take(i as int).push(csids@[i as int]));
                    lemma_push_to_set(csids@.take(i as int), csids@[i as int]);
                }
                lemma_push_to_set(before, csids@[i as int]);
                assert(self.regenerate@.to_set() =~= old(self).regenerate@.to_set().union(
                    csids@.take(i + 1).to_set(),
                ));
            }
            i += 1;
        }
        proof {
            assert(csids@.take(csids@.len() as int) =~= csids@);
        }
    }

    /// Whether the value of `csid` is ignored.
    pub fn is_flagged(&self, csid: ChangesetId) -> (flagged: bool)
        ensures
            flagged == self.flagged().contains(csid),
    {
        contains_id(&self.regenerate, csid)
    }

    /// Those of `csids` whose values are not ignored, in their order: what
    /// the mapping underneath is asked for.
    pub fn unflagged(&self, csids: &Vec<ChangesetId>) -> (kept: Vec<ChangesetId>)
        ensures
            kept@ == not_among(self.flagged(), csids@),
    {
        let mut kept: Vec<ChangesetId> = Vec::new();
        let mut i: usize = 0;
        while i < csids.len()
            invariant
                i <= csids.len(),
                kept@ == not_among(self.flagged(), csids@.take(i as int)),
            decreases csids.len() - i,
        {
            proof {
                lemma_not_among_step(self.flagged(), csids@, i as int);
            }
            if !contains_id(&self.regenerate, csids[i]) {
                kept.push(csids[i]);
            }
            i += 1;
        }
        proof {
            assert(csids@.take(csids@.len() as int) =~= csids@);
        }
        kept
    }

    /// What follows a write of a value for `csid` to the mapping
    /// underneath, of which `outcome` tells: once the value is written the
    /// changeset is no longer ignored, and where the write failed it stays
    /// so. The outcome is handed on.
    pub fn written(&mut self, csid: ChangesetId, outcome: Result<(), Error>) -> (res: Result<
        (),
        Error,
    >)
        ensures
            res == outcome,
            final(self).base() == old(self).base(),
            outcome is Ok ==> final(self).flagged() == old(self).flagged().remove(csid),
            outcome is Err ==> final(self).flagged() == old(self).flagged(),
    {
        if outcome.is_err() {
            return outcome;
        }
        let mut kept: Vec<ChangesetId> = Vec::new();
        let mut i: usize = 0;
        while i < self.regenerate.len()
            invariant
                *self == *old(self),
                i <= self.regenerate.len(),
                kept@.to_set() == self.regenerate@.take(i as int).to_set().remove(csid),
            decreases self.regenerate.len() - i,
        {
            let ghost before = kept@;
            proof {
                assert(self.regenerate@.take(i + 1) =~= self.regenerate@.take(i as int).push(
                    self.regenerate@[i as int],
                ));
                lemma_push_to_set(self.regenerate@.take(i as int), self.regenerate@[i as int]);
            }
            if self.regenerate[i] != csid {
                kept.push(self.regenerate[i]);
                proof {
                    lemma_push_to_set(before, self.regenerate@[i as int]);
                    assert(kept@.to_set() =~= self.regenerate@.take(i + 1).to_set().remove(csid));
                }
            } else {
                proof {
                    assert(kept@.to_set() =~= self.regenerate@.take(i + 1).to_set().remove(csid));
                }
            }
            i += 1;
        }
        proof {
            assert(self.regenerate@.take(self.regenerate@.len() as int) =~= self.regenerate@);
        }
        self.regenerate = kept;
        outcome
    }
}

/// The members of a sequence with one more pushed are its members and that one.
pub proof fn lemma_push_to_set<A>(s: Seq<A>, a: A)
    ensures
        s.push(a).to_set() == s.to_set().insert(a),
{
    assert forall|x: A| s.push(a).to_set().contains(x) <==> s.to_set().insert(a).contains(x) by {
        if s.push(a).contains(x) {
            let i = choose|i: int| 0 <= i < s.push(a).len() && s.push(a)[i] == x;
            if i < s.len() {
                assert(s[i] == x);
            }
        }
        if s.contains(x) {
            let i = choose|i: int| 0 <= i < s.len() && s[i] == x;
            assert(s.push(a)[i] == x);
        }
        if x == a {
            assert(s.push(a)[s.len() as int] == x);
        }
    }
    assert(s.push(a).to_set() =~= s.to_set().insert(a));
}

impl<M: BonsaiDerivedMapping> BonsaiDerivedMapping for RegenerateMapping<M> {
    type Value = M::Value;

    open spec fn wf(&self) -> bool {
        self.base().wf()
    }

    /// The values of the mapping underneath, without those that are ignored.
    open spec fn entries(&self) -> Map<ChangesetId, M::Value> {
        self.base().entries().remove_keys(self.flagged())
    }

    /// Asks the mapping underneath for those among `csids` that are not
    /// ignored.
    fn get(&mut self, csids: Vec<ChangesetId>) -> (res: Result<Vec<(ChangesetId, M::Value)>, Error>)
        ensures
            final(self).flagged() == old(self).flagged(),
            final(self).base().entries() == old(self).base().entries(),
    {
        let kept = self.unflagged(&csids);
        proof {
            lemma_not_among_holds(self.flagged(), csids@);
        }
        let ghost entries_before = self.base.entries();
        let res = self.base.get(kept);
        proof {
            match &res {
                Ok(found) => {
                    let entries = entries_before;
                    let visible = entries.remove_keys(self.flagged());
                    assert forall|j: int|
                        0 <= j < csids@.len() && visible.contains_key(
                            #[trigger] csids@[j],
                        ) implies exists|k: int|
                        0 <= k < found@.len() && (#[trigger] found@[k]).0 == csids@[j] by {
                        let c = csids@[j];
                        assert(kept@.contains(c));
                        let at = choose|at: int| 0 <= at < kept@.len() && kept@[at] == c;
                        assert(entries.contains_key(kept@[at]));
                    }
                    assert forall|k: int| 0 <= k < found@.len() implies csids@.contains(
                        (#[trigger] found@[k]).0,
                    ) && visible.contains_key(found@[k].0) && visible[found@[k].0] == found@[k].1 by {
                        let c = found@[k].0;
                        assert(kept@.contains(c));
                        let at = choose|at: int| 0 <= at < kept@.len() && kept@[at] == c;
                        assert(!self.flagged().contains(kept@[at]));
                    }
                },
                Err(_) => {},
            }
        }
        res
    }

    /// Saves the value in the mapping underneath and, once that has taken
    /// it, stops ignoring `csid`. Where the mapping underneath fails, the
    /// changeset stays flagged.
    fn put(&mut self, csid: ChangesetId, id: M::Value) -> (res: Result<(), Error>)
        ensures
            res is Ok ==> final(self).flagged() == old(self).flagged().remove(csid),
            res is Ok ==> final(self).base().entries() == old(self).base().entries().insert(
                csid,
                id,
            ),
            res is Err ==> final(self).flagged() == old(self).flagged(),
            res is Err ==> old(self).base().entries().submap_of(final(self).base().entries()),
    {
        let ghost flagged = self.flagged();
        let ghost before = self.base.entries();
        let outcome = self.base.put(csid, id);
        let ghost after = self.base.entries();
        let res = self.written(csid, outcome);
        proof {
            if res is Ok {
                assert(after.remove_keys(flagged.remove(csid)) =~= before.remove_keys(
                    flagged,
                ).insert(csid, id));
            } else if after != before {
                if flagged.contains(csid) {
                    assert(after.remove_keys(flagged) =~= before.remove_keys(flagged));
                } else {
                    assert(after.remove_keys(flagged) =~= before.remove_keys(flagged).insert(
                        csid,
                        id,
                    ));
                }
            }
        }
        res
    }
}


/// A mapping that is handed, a second time, the value that it holds for a
/// changeset, holds what it held.
pub proof fn law_second_put_changes_nothing<V>(
    before: Map<ChangesetId, V>,
    once: Map<ChangesetId, V>,
    twice: Map<ChangesetId, V>,
    csid: ChangesetId,
    value: V,
)
    requires
        once == before.insert(csid, value),
        twice == once.insert(csid, value),
    ensures
        twice == once,
{
    assert(twice =~= once);
}

/// The value of a changeset that was flagged is not found, though the
/// mapping underneath holds it; and once a value is put for the changeset,
/// the flag is gone and that value is found.
pub proof fn law_regenerate_override<M: BonsaiDerivedMapping>(
    flagged: RegenerateMapping<M>,
    put: RegenerateMapping<M>,
    csid: ChangesetId,
    value: M::Value,
    asked: Seq<ChangesetId>,
    found: Seq<(ChangesetId, M::Value)>,
)
    requires
        flagged.flagged().contains(csid),
        is_lookup_result(found, flagged.entries(), asked),
        put.flagged() == flagged.flagged().remove(csid),
        put.entries() == flagged.entries().insert(csid, value),
    ensures
        forall|i: int| 0 <= i < found.len() ==> (#[trigger] found[i]).0 != csid,
        !put.flagged().contains(csid),
        put.entries().contains_key(csid) && put.entries()[csid] == value,
{
    assert(!flagged.entries().contains_key(csid));
}

} // verus!
