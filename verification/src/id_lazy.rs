//! A set of ids that is read from a source of ids as far as it is needed.

use crate::error::Error;
use indexmap::IndexSet;
use vstd::prelude::*;
use vstd::std_specs::iter::IteratorSpec;
use vstd::string::StringExecFns;

verus! {

/// `indexmap::IndexSet`: a hash set that keeps its items in the order in
/// which they were inserted. Nothing is claimed of what is inside a set
/// but through `index_set_items`.
#[verifier::external_type_specification]
#[verifier::external_body]
#[verifier::reject_recursive_types(T)]
#[verifier::reject_recursive_types(S)]
pub struct ExIndexSet<T, S>(IndexSet<T, S>);

/// The ids that an `IndexSet` holds, in the order in which they were
/// inserted.
pub uninterp spec fn index_set_items(set: IndexSet<u64>) -> Seq<u64>;

/// `IndexSet::new` makes a set that holds nothing.
#[verifier::external_body]
fn visited_new() -> (set: IndexSet<u64>)
    ensures
        index_set_items(set) == Seq::<u64>::empty(),
{
    IndexSet::new()
}

/// `IndexSet::insert` puts an id that the set lacks behind all that it holds
/// and returns true; an id that the set holds it leaves where it is, and
/// returns false.
#[verifier::external_body]
fn visited_insert(set: &mut IndexSet<u64>, id: u64) -> (inserted: bool)
    ensures
        inserted == !index_set_items(*old(set)).contains(id),
        index_set_items(*final(set)) == if inserted {
            index_set_items(*old(set)).push(id)
        } else {
            index_set_items(*old(set))
        },
{
    set.insert(id)
}

/// `IndexSet::len` is the number of ids that the set holds.
#[verifier::external_body]
fn visited_len(set: &IndexSet<u64>) -> (len: usize)
    ensures
        len == index_set_items(*set).len(),
{
    set.len()
}

/// `IndexSet::get_index` is the id at a position in the order of insertion,
/// counted from 0, and nothing beyond the last.
#[verifier::external_body]
fn visited_get_index(set: &IndexSet<u64>, index: usize) -> (id: Option<u64>)
    ensures
        id == if index < index_set_items(*set).len() {
            Some(index_set_items(*set)[index as int])
        } else {
            None
        },
{
    set.get_index(index).copied()
}

/// `IndexSet::contains` says whether the set holds an id.
#[verifier::external_body]
fn visited_contains(set: &IndexSet<u64>, id: u64) -> (found: bool)
    ensures
        found == index_set_items(*set).contains(id),
{
    set.contains(&id)
}

/// An id of a vertex in the graph.
#[derive(Clone, Copy, Debug, PartialEq, Eq, Hash, PartialOrd, Ord, Structural)]
pub struct Id(pub u64);

/// The name of a vertex: the bytes of a commit hash, or whatever names the
/// vertices of the graph.
#[derive(Clone, Debug, PartialEq, Eq, Hash, PartialOrd, Ord)]
pub struct VertexName(pub Vec<u8>);

/// The part of the graph that an id belongs to.
#[derive(Clone, Copy, Debug, PartialEq, Eq, Hash, Structural)]
pub enum Group {
    Master,
    NonMaster,
}

/// The two-way map between the ids and the names of vertices.
pub trait IdConvert {
    fn vertex_id(&self, name: VertexName) -> Result<Id, Error>;

    fn vertex_id_with_max_group(&self, name: &VertexName, max_group: Group) -> Result<
        Option<Id>,
        Error,
    >;

    fn vertex_name(&self, id: Id) -> Result<VertexName, Error>;

    fn contains_vertex_name(&self, name: &VertexName) -> Result<bool, Error>;
}

/// How far the source of a lazy set has been read.
#[derive(Copy, Clone, Debug, PartialEq, Eq, Structural)]
pub enum State {
    /// The source may hold more ids.
    Incomplete,
    /// The source is exhausted: the set holds all its ids.
    Complete,
    /// The source has failed: the set is unusable.
    Error,
}

/// A set backed by a lazy source of ids. It holds the ids that it has read
/// in the order in which the source gave them, each once, and reads on when
/// asked for more than it holds.
///
/// The fields are open to view so that what the set has read can be told
/// against what its source gives; a set is made by `from_iter_idmap`.
pub struct IdLazySet<I, M> {
    /// The source of the ids.
    pub iter: I,
    /// The ids read so far.
    pub visited: IndexSet<u64>,
    /// How far the source has been read.
    pub state: State,
    /// The map between the ids and the names of vertices.
    pub map: M,
}

/// The ids of a lazy set, read to the end of its source.
#[derive(Clone, Debug, PartialEq, Eq)]
pub struct IdStaticSet {
    pub ids: Vec<Id>,
}

/// A position in a lazy set, from which `next` goes on.
pub struct Iter {
    index: usize,
}

/// The ids `ids` as numbers.
pub open spec fn numbers(ids: Seq<Id>) -> Seq<u64> {
    Seq::new(ids.len(), |i: int| ids[i].0)
}

/// `items` with `id` behind them, unless they hold it.
pub open spec fn with_id(items: Seq<u64>, id: u64) -> Seq<u64> {
    if items.contains(id) {
        items
    } else {
        items.push(id)
    }
}

/// `items` with the ids among `read` behind them, in the order of `read`,
/// each unless the items before it hold it.
pub open spec fn absorbed(items: Seq<u64>, read: Seq<Result<Id, Error>>) -> Seq<u64>
    decreases read.len(),
{
    if read.len() == 0 {
        items
    } else {
        match read.last() {
            Ok(id) => with_id(absorbed(items, read.drop_last()), id.0),
            Err(_) => absorbed(items, read.drop_last()),
        }
    }
}

/// Whether all of `read` are ids.
pub open spec fn all_ids(read: Seq<Result<Id, Error>>) -> bool {
    forall|j: int| 0 <= j < read.len() ==> (#[trigger] read[j]) is Ok
}

/// The ids that `read` holds, where all of it are ids.
pub open spec fn ids_read(read: Seq<Result<Id, Error>>) -> Seq<Id> {
    Seq::new(
        read.len(),
        |j: int|
            match read[j] {
                Ok(id) => id,
                Err(_) => Id(0),
            },
    )
}

/// The failure that a result holds, if it holds one.
pub open spec fn failure_of<T>(res: Result<T, Error>) -> Option<Error> {
    match res {
        Ok(_) => None,
        Err(e) => Some(e),
    }
}

/// Whether a set that held `items`, before a source that was to give
/// `source`, has read `k` ids of the source and stands as told.
///
/// The first `k` items of the source are ids and have joined the set in
/// their order. Where the set may read on, the source is left with the
/// rest. Where the set is complete, the source had no more than these and
/// has said so. Where the set has failed, the next item of the source was
/// the failure `failure`, and the source is left with what is behind it.
pub open spec fn has_read(
    items: Seq<u64>,
    source: Seq<Result<Id, Error>>,
    k: int,
    items_after: Seq<u64>,
    source_after: Seq<Result<Id, Error>>,
    state_after: State,
    failure: Option<Error>,
) -> bool {
    &&& 0 <= k <= source.len()
    &&& all_ids(source.take(k))
    &&& items_after == absorbed(items, source.take(k))
    &&& match state_after {
        State::Incomplete => source_after == source.skip(k) && failure is None,
        State::Complete => k == source.len() && source_after == source.skip(k) && failure is None,
        State::Error => k < source.len() && source[k] is Err && failure == Some(source[k]->Err_0)
            && source_after == source.skip(k + 1),
    }
}

/// Whether a set that held `items`, before a source that was to give
/// `source`, has read the source to its end, or to its first failure.
pub open spec fn has_read_out(
    items: Seq<u64>,
    source: Seq<Result<Id, Error>>,
    items_after: Seq<u64>,
    source_after: Seq<Result<Id, Error>>,
    state_after: State,
    failure: Option<Error>,
) -> bool {
    exists|k: int| #[trigger]
        has_read(items, source, k, items_after, source_after, state_after, failure) && state_after
            != State::Incomplete
}

/// What has joined: a set that held no id twice holds none twice after
/// ids have joined it; it holds what it held, in front; and it holds an id
/// exactly where it held it or the id is among those read.
pub proof fn lemma_absorbed(items: Seq<u64>, read: Seq<Result<Id, Error>>)
    requires
        items.no_duplicates(),
    ensures
        absorbed(items, read).no_duplicates(),
        items.is_prefix_of(absorbed(items, read)),
        forall|x: u64|
            absorbed(items, read).contains(x) <==> items.contains(x) || read.contains(
                Ok::<Id, Error>(Id(x)),
            ),
    decreases read.len(),
{
    let all = absorbed(items, read);
    if read.len() == 0 {
        assert forall|x: u64| all.contains(x) <==> items.contains(x) || read.contains(
            Ok::<Id, Error>(Id(x)),
        ) by {}
    } else {
        let rest = absorbed(items, read.drop_last());
        let last = read.last();
        lemma_absorbed(items, read.drop_last());
        assert(rest.is_prefix_of(all));
        assert forall|x: u64| rest.contains(x) implies all.contains(x) by {
            let j = choose|j: int| 0 <= j < rest.len() && rest[j] == x;
            assert(all[j] == x);
        }
        assert forall|x: u64| all.contains(x) && !rest.contains(x) implies last == Ok::<Id, Error>(
            Id(x),
        ) by {
            let j = choose|j: int| 0 <= j < all.len() && all[j] == x;
            if j < rest.len() {
                assert(rest[j] == x);
            }
        }
        assert forall|x: u64| last == Ok::<Id, Error>(Id(x)) implies all.contains(x) by {
            if !rest.contains(x) {
                assert(all == rest.push(x));
                assert(all[rest.len() as int] == x);
            }
        }
        assert forall|x: u64|
            all.contains(x) implies items.contains(x) || read.contains(Ok::<Id, Error>(Id(x))) by {
            let wanted = Ok::<Id, Error>(Id(x));
            if rest.contains(x) {
                if !items.contains(x) {
                    assert(read.drop_last().contains(wanted));
                    let j = choose|j: int|
                        0 <= j < read.drop_last().len() && read.drop_last()[j] == wanted;
                    assert(read[j] == wanted);
                }
            } else {
                assert(last == wanted);
                assert(read[read.len() - 1] == wanted);
            }
        }
        assert forall|x: u64|
            items.contains(x) || read.contains(Ok::<Id, Error>(Id(x))) implies all.contains(x) by {
            let wanted = Ok::<Id, Error>(Id(x));
            if items.contains(x) {
                assert(rest.contains(x));
            } else {
                let j = choose|j: int| 0 <= j < read.len() && read[j] == wanted;
                if j < read.len() - 1 {
                    assert(read.drop_last()[j] == wanted);
                    assert(read.drop_last().contains(wanted));
                    assert(rest.contains(x));
                } else {
                    assert(last == wanted);
                }
            }
        }
    }
}

/// The ids of a source that gives ids alone, each once, in the order of
/// their first occurrence: what a fresh set holds once it has read the
/// source, and so what it yields and what it counts.
pub open spec fn distinct_ids(source: Seq<Result<Id, Error>>) -> Seq<u64> {
    absorbed(Seq::<u64>::empty(), source)
}

/// A fresh set that has read its source to the end holds the distinct ids
/// of the source: each id of the source once, and as many as the source
/// has different ids.
pub proof fn law_read_out_holds_the_distinct_ids(
    source: Seq<Result<Id, Error>>,
    items_after: Seq<u64>,
    source_after: Seq<Result<Id, Error>>,
)
    requires
        has_read_out(
            Seq::<u64>::empty(),
            source,
            items_after,
            source_after,
            State::Complete,
            None,
        ),
    ensures
        items_after == distinct_ids(source),
        items_after.no_duplicates(),
        forall|x: u64| items_after.contains(x) <==> source.contains(Ok::<Id, Error>(Id(x))),
        items_after.len() == items_after.to_set().len(),
        items_after.len() <= source.len(),
{
    let k = choose|k: int| #[trigger]
        has_read(Seq::<u64>::empty(), source, k, items_after, source_after, State::Complete, None);
    assert(source.take(k) =~= source);
    lemma_absorbed(Seq::<u64>::empty(), source);
    assert forall|x: u64| items_after.contains(x) <==> source.contains(
        Ok::<Id, Error>(Id(x)),
    ) by {
        assert(!Seq::<u64>::empty().contains(x));
        assert(absorbed(Seq::<u64>::empty(), source).contains(x) <==> Seq::<u64>::empty().contains(
            x,
        ) || source.contains(Ok::<Id, Error>(Id(x))));
    }
    items_after.unique_seq_to_set();
    lemma_absorbed_len(Seq::<u64>::empty(), source);
}

/// No more ids join than are read.
pub proof fn lemma_absorbed_len(items: Seq<u64>, read: Seq<Result<Id, Error>>)
    ensures
        absorbed(items, read).len() <= items.len() + read.len(),
    decreases read.len(),
{
    if read.len() > 0 {
        lemma_absorbed_len(items, read.drop_last());
    }
}

/// Whether none of the first `k` items of `source` is the id `id`.
pub open spec fn none_is(source: Seq<Result<Id, Error>>, k: int, id: Id) -> bool {
    forall|j: int| 0 <= j < k ==> #[trigger] source[j] != Ok::<Id, Error>(id)
}

/// Whether a set that has read `k` ids may read on without having met `id`.
pub open spec fn seeking(
    items: Seq<u64>,
    source: Seq<Result<Id, Error>>,
    k: int,
    id: Id,
    items_now: Seq<u64>,
    source_now: Seq<Result<Id, Error>>,
    state_now: State,
) -> bool {
    has_read(items, source, k, items_now, source_now, state_now, None) && none_is(source, k, id)
}

/// Whether a set that held `items` without `id`, before a source that was
/// to give `source`, has sought `id` in the source and answers `res`.
///
/// The set has read the source up to the first occurrence of the id, and
/// no further: the answer is true. Or the source ended, or failed, before
/// the id occurred: the answer is false, or that failure.
pub open spec fn has_sought(
    items: Seq<u64>,
    source: Seq<Result<Id, Error>>,
    id: Id,
    items_after: Seq<u64>,
    source_after: Seq<Result<Id, Error>>,
    state_after: State,
    res: Result<bool, Error>,
) -> bool {
    exists|k: int| #[trigger]
        has_read(items, source, k, items_after, source_after, state_after, failure_of(res))
            && match res {
            Ok(true) => k >= 1 && state_after == State::Incomplete && source[k - 1] == Ok::<
                Id,
                Error,
            >(id) && none_is(source, k - 1, id),
            _ => state_after != State::Incomplete && none_is(source, k, id),
        }
}

/// Whether a set had fewer than `pos + 1` ids after each of the first `k`
/// reads but the last: it read on only while it lacked the id at `pos`.
pub open spec fn lacking(items: Seq<u64>, source: Seq<Result<Id, Error>>, k: int, pos: int) -> bool {
    forall|j: int| 0 <= j < k ==> (#[trigger] absorbed(items, source.take(j))).len() <= pos
}

/// Whether a set that has read `k` ids read on only while it lacked the id
/// at `pos`.
pub open spec fn stepping(
    items: Seq<u64>,
    source: Seq<Result<Id, Error>>,
    k: int,
    pos: int,
    items_now: Seq<u64>,
    source_now: Seq<Result<Id, Error>>,
    state_now: State,
) -> bool {
    has_read(items, source, k, items_now, source_now, state_now, None) && lacking(
        items,
        source,
        k,
        pos,
    )
}

/// The failure that a step holds, if it holds one.
pub open spec fn failure_of_step(step: Option<Result<Id, Error>>) -> Option<Error> {
    match step {
        Some(Err(e)) => Some(e),
        _ => None,
    }
}

/// Whether a set that held `items`, before a source that was to give
/// `source`, has stepped to the id at position `pos`: it has read on only
/// while it lacked that id, and gives the id, or the end of the set where
/// the source ended before, or the failure of the source.
pub open spec fn has_stepped(
    items: Seq<u64>,
    source: Seq<Result<Id, Error>>,
    pos: int,
    items_after: Seq<u64>,
    source_after: Seq<Result<Id, Error>>,
    state_after: State,
    step: Option<Result<Id, Error>>,
) -> bool {
    exists|k: int| #[trigger]
        has_read(items, source, k, items_after, source_after, state_after, failure_of_step(step))
            && lacking(items, source, k, pos) && match step {
            Some(Ok(id)) => 0 <= pos < items_after.len() && items_after[pos] == id.0,
            _ => items_after.len() <= pos,
        }
}

/// What has joined after a part of the source stands in front of what
/// joins after all of it.
pub proof fn lemma_absorbed_part(items: Seq<u64>, source: Seq<Result<Id, Error>>, k: int)
    requires
        items.no_duplicates(),
        0 <= k <= source.len(),
    ensures
        absorbed(items, source.take(k)).is_prefix_of(absorbed(items, source)),
        absorbed(absorbed(items, source.take(k)), source.skip(k)) == absorbed(items, source),
{
    let part = absorbed(items, source.take(k));
    let rest = source.skip(k);
    lemma_absorbed_more(items, source, k, source.len() - k);
    assert(source.take(source.len() as int) =~= source);
    assert(rest.take(source.len() - k) =~= rest);
    lemma_absorbed(items, source.take(k));
    lemma_absorbed(part, rest);
}

/// A search in a source that gives ids alone answers whether the source
/// holds the id: it neither fails nor misses an id that is to come.
pub proof fn law_search_answers_for_the_source(
    items: Seq<u64>,
    source: Seq<Result<Id, Error>>,
    id: Id,
    items_after: Seq<u64>,
    source_after: Seq<Result<Id, Error>>,
    state_after: State,
    res: Result<bool, Error>,
)
    requires
        all_ids(source),
        has_sought(items, source, id, items_after, source_after, state_after, res),
    ensures
        res == Ok::<bool, Error>(source.contains(Ok::<Id, Error>(id))),
{
    let k = choose|k: int| #[trigger]
        has_read(items, source, k, items_after, source_after, state_after, failure_of(res))
            && match res {
            Ok(true) => k >= 1 && state_after == State::Incomplete && source[k - 1] == Ok::<
                Id,
                Error,
            >(id) && none_is(source, k - 1, id),
            _ => state_after != State::Incomplete && none_is(source, k, id),
        };
    if res == Ok::<bool, Error>(true) {
        assert(source[k - 1] == Ok::<Id, Error>(id));
    } else {
        if state_after == State::Error {
            assert(source[k] is Ok);
        }
        assert(state_after == State::Complete);
        assert(res is Ok);
        if source.contains(Ok::<Id, Error>(id)) {
            let j = choose|j: int| 0 <= j < source.len() && source[j] == Ok::<Id, Error>(id);
            assert(source[j] != Ok::<Id, Error>(id));
        }
    }
}

/// The steps through a set whose source gives ids alone give the distinct
/// ids of the source in the order of their first occurrence, each the id
/// at its position, and then the end; and what the set will hold once it
/// has read its source is the same after the step as before, so that every
/// walk through the set gives the same ids.
pub proof fn law_steps_give_the_distinct_ids(
    items: Seq<u64>,
    source: Seq<Result<Id, Error>>,
    pos: int,
    items_after: Seq<u64>,
    source_after: Seq<Result<Id, Error>>,
    state_after: State,
    step: Option<Result<Id, Error>>,
)
    requires
        items.no_duplicates(),
        all_ids(source),
        0 <= pos,
        has_stepped(items, source, pos, items_after, source_after, state_after, step),
        step is None ==> state_after == State::Complete,
    ensures
        step == if pos < absorbed(items, source).len() {
            Some(Ok::<Id, Error>(Id(absorbed(items, source)[pos])))
        } else {
            None
        },
        absorbed(items_after, source_after) == absorbed(items, source),
{
    let k = choose|k: int| #[trigger]
        has_read(items, source, k, items_after, source_after, state_after, failure_of_step(step))
            && lacking(items, source, k, pos) && match step {
            Some(Ok(id)) => 0 <= pos < items_after.len() && items_after[pos] == id.0,
            _ => items_after.len() <= pos,
        };
    if state_after == State::Error {
        assert(source[k] is Ok);
    }
    lemma_absorbed_part(items, source, k);
    match step {
        Some(Ok(id)) => {
            assert(absorbed(items, source)[pos] == items_after[pos]);
        },
        Some(Err(_)) => {},
        None => {
            assert(source.take(k) =~= source);
        },
    }
}

/// A first or last id, or none, or a failure, as a step.
pub open spec fn as_step(res: Result<Option<Id>, Error>) -> Option<Result<Id, Error>> {
    match res {
        Ok(Some(id)) => Some(Ok(id)),
        Ok(None) => None,
        Err(e) => Some(Err(e)),
    }
}

/// Reading on: a set that has read `k` ids and may read on, and then reads
/// `more`, has read `k + more`.
pub proof fn lemma_read_on(
    items: Seq<u64>,
    source: Seq<Result<Id, Error>>,
    k: int,
    items_between: Seq<u64>,
    source_between: Seq<Result<Id, Error>>,
    more: int,
    items_after: Seq<u64>,
    source_after: Seq<Result<Id, Error>>,
    state_after: State,
    failure: Option<Error>,
)
    requires
        has_read(items, source, k, items_between, source_between, State::Incomplete, None),
        has_read(items_between, source_between, more, items_after, source_after, state_after, failure),
    ensures
        has_read(items, source, k + more, items_after, source_after, state_after, failure),
{
    assert forall|j: int| 0 <= j < k + more implies (#[trigger] source.take(k + more)[j]) is Ok by {
        if j < k {
            assert(source.take(k)[j] is Ok);
        } else {
            assert(source_between.take(more)[j - k] is Ok);
        }
    }
    lemma_absorbed_more(items, source, k, more);
    assert(source.skip(k).skip(more) =~= source.skip(k + more));
    if state_after == State::Error {
        assert(source.skip(k).skip(more + 1) =~= source.skip(k + more + 1));
        assert(source.skip(k)[more] == source[k + more]);
    }
}

/// What has joined after `k + more` items is what joins with `more` items
/// after the first `k` have.
pub proof fn lemma_absorbed_more(items: Seq<u64>, source: Seq<Result<Id, Error>>, k: int, more: int)
    requires
        0 <= k,
        0 <= more,
        k + more <= source.len(),
    ensures
        absorbed(items, source.take(k + more)) == absorbed(
            absorbed(items, source.take(k)),
            source.skip(k).take(more),
        ),
    decreases more,
{
    if more == 0 {
        assert(source.skip(k).take(0) =~= Seq::<Result<Id, Error>>::empty());
    } else {
        lemma_absorbed_more(items, source, k, more - 1);
        assert(source.take(k + more).drop_last() =~= source.take(k + more - 1));
        assert(source.skip(k).take(more).drop_last() =~= source.skip(k).take(more - 1));
        assert(source.take(k + more).last() == source.skip(k).take(more).last());
    }
}

/// Whether `res` answers the question whether a set holds `id`, for a set
/// that held `items` in the state `state` before it was asked, and holds
/// `items_after` in the state `state_after` now.
///
/// No id is in no set. An id that the set held is found, and nothing is
/// read. Otherwise the source is read on: the id is found where it joined
/// the set; it is not in the set where the source ended without it; and
/// where the source failed, or had failed before, there is no answer.
pub open spec fn is_membership(
    items: Seq<u64>,
    state: State,
    items_after: Seq<u64>,
    state_after: State,
    id: Option<Id>,
    res: Result<bool, Error>,
) -> bool {
    &&& items.is_prefix_of(items_after)
    &&& match id {
        None => res == Ok::<bool, Error>(false) && items_after == items && state_after == state,
        Some(id) => {
            &&& items.contains(id.0) ==> res == Ok::<bool, Error>(true) && items_after == items
                && state_after == state
            &&& res == Ok::<bool, Error>(true) ==> items_after.contains(id.0)
            &&& res == Ok::<bool, Error>(false) ==> state_after == State::Complete
                && !items_after.contains(id.0)
            &&& res is Err ==> state_after == State::Error && !items.contains(id.0)
            &&& !items.contains(id.0) && state == State::Complete ==> res == Ok::<bool, Error>(false)
            &&& !items.contains(id.0) && state == State::Error ==> res == Err::<bool, Error>(
                Error::IterationErrored,
            )
        },
    }
}

/// What the question whether a set holds `id` does to the source of the
/// set: nothing, where the answer is known without it; and otherwise it is
/// read as far as `has_sought` says.
pub open spec fn is_search(
    items: Seq<u64>,
    state: State,
    source: Seq<Result<Id, Error>>,
    items_after: Seq<u64>,
    state_after: State,
    source_after: Seq<Result<Id, Error>>,
    id: Option<Id>,
    res: Result<bool, Error>,
) -> bool {
    match id {
        Some(id) if !items.contains(id.0) && state == State::Incomplete => has_sought(
            items,
            source,
            id,
            items_after,
            source_after,
            state_after,
            res,
        ),
        _ => source_after == source && items_after == items && state_after == state,
    }
}

impl<I: Iterator<Item = Result<Id, Error>>, M: IdConvert> IdLazySet<I, M> {
    /// The ids read so far, in the order in which the source gave them.
    pub closed spec fn items(&self) -> Seq<u64> {
        index_set_items(self.visited)
    }

    pub closed spec fn state(&self) -> State {
        self.state
    }

    /// The map between the ids and the names of vertices.
    pub closed spec fn id_map(&self) -> M {
        self.map
    }

    /// The source ends, and the set holds no id twice.
    pub closed spec fn wf(&self) -> bool {
        &&& self.iter.obeys_prophetic_iter_laws()
        &&& self.iter.decrease() is Some
        &&& index_set_items(self.visited).no_duplicates()
    }

    /// A set that is well-formed holds no id twice.
    pub proof fn law_items_are_distinct(&self)
        requires
            self.wf(),
        ensures
            self.items().no_duplicates(),
    {
    }

    /// A bound on the number of ids that the source can still give.
    pub closed spec fn fuel(&self) -> nat {
        self.iter.decrease()->0
    }

    /// The set of the ids that `names` gives, up to its first failure.
    pub fn from_iter_idmap(names: I, map: M) -> (set: Self)
        requires
            names.obeys_prophetic_iter_laws(),
            names.decrease() is Some,
        ensures
            set.wf(),
            set.items() == Seq::<u64>::empty(),
            set.state() == State::Incomplete,
            set.iter == names,
            set.map == map,
    {
        Self { iter: names, visited: visited_new(), state: State::Incomplete, map }
    }

    /// Takes in what the source gave next: an id joins the set unless the
    /// set holds it, the end of the source completes the set, and a failure
    /// makes it unusable.
    pub fn absorb(&mut self, item: Option<Result<Id, Error>>) -> (res: Result<Option<Id>, Error>)
        requires
            old(self).wf(),
        ensures
            final(self).id_map() == old(self).id_map(),
            final(self).wf(),
            final(self).fuel() == old(self).fuel(),
            final(self).iter == old(self).iter,
            old(self).items().is_prefix_of(final(self).items()),
            match item {
                Some(Ok(id)) => res == Ok::<Option<Id>, Error>(Some(id)) && final(self).items()
                    == with_id(old(self).items(), id.0) && final(self).state() == old(self).state(),
                None => res == Ok::<Option<Id>, Error>(None) && final(self).items()
                    == old(self).items() && final(self).state() == State::Complete,
                Some(Err(e)) => res == Err::<Option<Id>, Error>(e) && final(self).items()
                    == old(self).items() && final(self).state() == State::Error,
            },
    {
        match item {
            Some(Ok(id)) => {
                visited_insert(&mut self.visited, id.0);
                Ok(Some(id))
            },
            None => {
                self.state = State::Complete;
                Ok(None)
            },
            Some(Err(err)) => {
                self.state = State::Error;
                Err(err)
            },
        }
    }

    /// Whether the source is exhausted. A set whose source has failed has no
    /// answer.
    pub fn is_completed(&self) -> (res: Result<bool, Error>)
        ensures
            res == (match self.state() {
                State::Error => Err::<bool, Error>(Error::IterationErrored),
                State::Complete => Ok(true),
                State::Incomplete => Ok(false),
            }),
    {
        match self.state {
            State::Error => Err(Error::IterationErrored),
            State::Complete => Ok(true),
            State::Incomplete => Ok(false),
        }
    }

    /// Reads up to `n` more ids from the source, and appends each id read
    /// to `out` where `collect` says so.
    ///
    /// A set that is complete stays as it is. Otherwise the ids that the
    /// source gives join the set in their order, until `n` were read, the
    /// source ends, or it fails; its failure is returned.
    pub fn load_more(&mut self, n: usize, out: &mut Vec<Id>, collect: bool) -> (res: Result<
        (),
        Error,
    >)
        requires
            old(self).wf(),
        ensures
            n == 0 && old(self).state() == State::Incomplete ==> res is Ok && final(self).items()
                == old(self).items() && final(self).state() == State::Incomplete && final(self).iter.remaining() == old(self).iter.remaining(),
            final(self).id_map() == old(self).id_map(),
            final(self).wf(),
            final(self).state() == State::Incomplete ==> final(self).fuel() <= old(self).fuel(),
            old(self).state() == State::Error ==> res == Err::<(), Error>(Error::IterationErrored),
            old(self).state() != State::Incomplete ==> final(self).items() == old(self).items()
                && final(self).state() == old(self).state() && final(out)@ == old(out)@,
            old(self).state() == State::Complete ==> res is Ok,
            old(self).state() == State::Incomplete ==> (res is Err <==> final(self).state()
                == State::Error),
            old(self).items().is_prefix_of(final(self).items()),
            final(self).items().len() <= old(self).items().len() + n,
            n > 0 && old(self).state() == State::Incomplete && final(self).state()
                == State::Incomplete ==> final(self).fuel() < old(self).fuel(),
            old(out)@.is_prefix_of(final(out)@),
            !collect ==> final(out)@ == old(out)@,
            final(out)@.len() - old(out)@.len() <= n,
            collect && final(self).state() == State::Incomplete && old(self).state()
                == State::Incomplete ==> final(out)@.len() - old(out)@.len() == n,
            collect ==> final(self).items().to_set() == old(self).items().to_set().union(
                numbers(final(out)@.skip(old(out)@.len() as int)).to_set(),
            ),
            old(self).state() != State::Incomplete ==> final(self).iter.remaining() == old(self).iter.remaining(),
            old(self).state() == State::Incomplete ==> exists|k: int|
                0 <= k <= n && #[trigger] has_read(
                    old(self).items(),
                    old(self).iter.remaining(),
                    k,
                    final(self).items(),
                    final(self).iter.remaining(),
                    final(self).state(),
                    failure_of(res),
                ) && (final(self).state() == State::Incomplete ==> k == n) && (final(self).state()
                    != State::Incomplete ==> k < n) && (collect ==> final(out)@ == old(out)@
                    + ids_read(old(self).iter.remaining().take(k))),
    {
        proof {
            assert(out@.skip(out@.len() as int) =~= Seq::<Id>::empty());
            assert(numbers(Seq::<Id>::empty()).to_set() =~= Set::<u64>::empty());
            assert(self.items().to_set().union(Set::<u64>::empty()) =~= self.items().to_set());
        }
        if self.is_completed()? {
            return Ok(());
        }
        proof {
            assert(old(self).iter.remaining().take(0) =~= Seq::<Result<Id, Error>>::empty());
            assert(old(self).iter.remaining().skip(0) =~= old(self).iter.remaining());
            assert(out@ + ids_read(Seq::<Result<Id, Error>>::empty()) =~= out@);
        }
        let mut i: usize = 0;
        while i < n
            invariant
                i <= n,
                self.wf(),
                self.map == old(self).map,
                has_read(
                    old(self).items(),
                    old(self).iter.remaining(),
                    i as int,
                    self.items(),
                    self.iter.remaining(),
                    State::Incomplete,
                    None,
                ),
                collect ==> out@ == old(out)@ + ids_read(old(self).iter.remaining().take(i as int)),
                self.state == State::Incomplete,
                old(self).state == State::Incomplete,
                self.fuel() <= old(self).fuel(),
                i > 0 ==> self.fuel() < old(self).fuel(),
                old(self).items().is_prefix_of(self.items()),
                self.items().len() <= old(self).items().len() + i,
                old(out)@.is_prefix_of(out@),
                !collect ==> out@ == old(out)@,
                collect ==> out@.len() == old(out)@.len() + i,
                collect ==> self.items().to_set() == old(self).items().to_set().union(
                    numbers(out@.skip(old(out)@.len() as int)).to_set(),
                ),
            decreases n - i,
        {
            let ghost items = self.items();
            let ghost collected = out@;
            let item = self.iter.next();
            let ghost given = item;
            let absorbed_item = self.absorb(item);
            proof {
                let source = old(self).iter.remaining();
                let k = i as int;
                let start = old(self).items();
                match given {
                    Some(Ok(id)) => {
                        assert(k < source.len());
                        assert(source[k] == Ok::<Id, Error>(id));
                        assert(source.skip(k).drop_first() =~= source.skip(k + 1));
                        assert(source.take(k + 1).drop_last() =~= source.take(k));
                        assert(source.take(k + 1).last() == source[k]);
                        assert forall|j: int| 0 <= j < k + 1 implies (
                        #[trigger] source.take(k + 1)[j]) is Ok by {
                            if j < k {
                                assert(source.take(k)[j] is Ok);
                            }
                        }
                        assert(ids_read(source.take(k + 1)) =~= ids_read(source.take(k)).push(id));
                        assert(absorbed(start, source.take(k + 1)) == with_id(
                            absorbed(start, source.take(k)),
                            id.0,
                        ));
                        assert(has_read(
                            start,
                            source,
                            k + 1,
                            self.items(),
                            self.iter.remaining(),
                            State::Incomplete,
                            None,
                        ));
                    },
                    Some(Err(e)) => {
                        assert(k < source.len());
                        assert(source[k] == Err::<Id, Error>(e));
                        assert(source.skip(k).drop_first() =~= source.skip(k + 1));
                        assert(has_read(
                            start,
                            source,
                            k,
                            self.items(),
                            self.iter.remaining(),
                            State::Error,
                            Some(e),
                        ));
                    },
                    None => {
                        assert(k == source.len());
                        assert(has_read(
                            start,
                            source,
                            k,
                            self.items(),
                            self.iter.remaining(),
                            State::Complete,
                            None,
                        ));
                    },
                }
            }
            match absorbed_item {
                Ok(Some(id)) => {
                    if collect {
                        out.push(id);
                        proof {
                            let read = collected.skip(old(out)@.len() as int);
                            assert(out@.skip(old(out)@.len() as int) =~= read.push(id));
                            assert(numbers(read.push(id)) =~= numbers(read).push(id.0));
                            crate::mapping::lemma_push_to_set(numbers(read), id.0);
                            crate::mapping::lemma_push_to_set(items, id.0);
                            assert(self.items().to_set() =~= items.to_set().insert(id.0));
                            assert(self.items().to_set() =~= old(self).items().to_set().union(
                                numbers(out@.skip(old(out)@.len() as int)).to_set(),
                            ));
                        }
                    }
                },
                Ok(None) => {
                    return Ok(());
                },
                Err(err) => {
                    return Err(err);
                },
            }
            i += 1;
        }
        Ok(())
    }

    /// What decreases with every step of reading: whether the source may
    /// hold more, and how much.
    pub open spec fn reading(&self) -> (nat, nat) {
        (
            if self.state() == State::Incomplete {
                1nat
            } else {
                0nat
            },
            self.fuel(),
        )
    }

    /// Reads the source to its end.
    pub fn load_all(&mut self) -> (res: Result<(), Error>)
        requires
            old(self).wf(),
        ensures
            old(self).state() != State::Incomplete ==> final(self).iter.remaining() == old(self).iter.remaining(),
            old(self).state() == State::Incomplete ==> has_read_out(
                old(self).items(),
                old(self).iter.remaining(),
                final(self).items(),
                final(self).iter.remaining(),
                final(self).state(),
                failure_of(res),
            ),
            final(self).id_map() == old(self).id_map(),
            final(self).wf(),
            old(self).items().is_prefix_of(final(self).items()),
            res is Ok ==> final(self).state() == State::Complete,
            res is Err ==> final(self).state() == State::Error,
            old(self).state() == State::Complete ==> res is Ok && final(self).items() == old(self).items(),
            old(self).state() == State::Error ==> res == Err::<(), Error>(Error::IterationErrored),
    {
        let mut scratch: Vec<Id> = Vec::new();
        proof {
            let source = self.iter.remaining();
            assert(source.take(0) =~= Seq::<Result<Id, Error>>::empty());
            assert(source.skip(0) =~= source);
            if self.state() == State::Incomplete {
                assert(has_read(
                    self.items(),
                    source,
                    0,
                    self.items(),
                    self.iter.remaining(),
                    State::Incomplete,
                    None,
                ));
            }
        }
        loop
            invariant
                self.wf(),
                self.map == old(self).map,
                old(self).items().is_prefix_of(self.items()),
                old(self).state() == State::Complete ==> self.items() == old(self).items()
                    && self.state() == State::Complete,
                old(self).state() == State::Error ==> self.state() == State::Error,
                old(self).state() != State::Incomplete ==> self.iter == old(self).iter,
                old(self).state() == State::Incomplete ==> self.state() != State::Error && exists|
                    k: int,
                | #[trigger]
                    has_read(
                        old(self).items(),
                        old(self).iter.remaining(),
                        k,
                        self.items(),
                        self.iter.remaining(),
                        self.state(),
                        None,
                    ),
            decreases self.reading().0, self.reading().1,
        {
            match self.is_completed() {
                Err(err) => {
                    return Err(err);
                },
                Ok(true) => {
                    return Ok(());
                },
                Ok(false) => {},
            }
            let ghost items_between = self.items();
            let ghost source_between = self.iter.remaining();
            let loaded = self.load_more(usize::MAX, &mut scratch, false);
            proof {
                if old(self).state() == State::Incomplete {
                    let source = old(self).iter.remaining();
                    let k = choose|k: int| #[trigger]
                        has_read(
                            old(self).items(),
                            source,
                            k,
                            items_between,
                            source_between,
                            State::Incomplete,
                            None,
                        );
                    let more = choose|more: int| #[trigger]
                        has_read(
                            items_between,
                            source_between,
                            more,
                            self.items(),
                            self.iter.remaining(),
                            self.state(),
                            failure_of(loaded),
                        );
                    lemma_read_on(
                        old(self).items(),
                        source,
                        k,
                        items_between,
                        source_between,
                        more,
                        self.items(),
                        self.iter.remaining(),
                        self.state(),
                        failure_of(loaded),
                    );
                }
            }
            match loaded {
                Err(err) => {
                    return Err(err);
                },
                Ok(()) => {},
            }
        }
    }

    /// Convert to an `IdStaticSet`: all ids of the source, in their order.
    pub fn to_static(&mut self) -> (res: Result<IdStaticSet, Error>)
        requires
            old(self).wf(),
        ensures
            final(self).id_map() == old(self).id_map(),
            old(self).state() == State::Error ==> res == Err::<IdStaticSet, Error>(Error::IterationErrored),
            old(self).state() != State::Incomplete ==> final(self).iter.remaining() == old(self).iter.remaining(),
            old(self).state() == State::Incomplete ==> has_read_out(
                old(self).items(),
                old(self).iter.remaining(),
                final(self).items(),
                final(self).iter.remaining(),
                final(self).state(),
                failure_of(res),
            ),
            final(self).wf(),
            old(self).items().is_prefix_of(final(self).items()),
            res matches Ok(all) ==> final(self).state() == State::Complete && numbers(all.ids@)
                == final(self).items(),
            res is Err ==> final(self).state() == State::Error,
            old(self).state() == State::Complete ==> res is Ok && final(self).items() == old(self).items(),
    {
        self.load_all()?;
        let len = visited_len(&self.visited);
        let mut ids: Vec<Id> = Vec::new();
        let mut i: usize = 0;
        while i < len
            invariant
                i <= len,
                len == self.items().len(),
                ids@.len() == i,
                forall|k: int| 0 <= k < i ==> (#[trigger] ids@[k]).0 == self.items()[k],
            decreases len - i,
        {
            match visited_get_index(&self.visited, i) {
                Some(id) => ids.push(Id(id)),
                None => {},
            }
            i += 1;
        }
        assert(numbers(ids@) =~= self.items());
        Ok(IdStaticSet { ids })
    }

    /// All ids of the source, the last first.
    pub fn ids_rev(&mut self) -> (res: Result<Vec<Id>, Error>)
        requires
            old(self).wf(),
        ensures
            final(self).id_map() == old(self).id_map(),
            old(self).state() == State::Error ==> res == Err::<Vec<Id>, Error>(Error::IterationErrored),
            old(self).state() != State::Incomplete ==> final(self).iter.remaining() == old(self).iter.remaining(),
            old(self).state() == State::Incomplete ==> has_read_out(
                old(self).items(),
                old(self).iter.remaining(),
                final(self).items(),
                final(self).iter.remaining(),
                final(self).state(),
                failure_of(res),
            ),
            final(self).wf(),
            old(self).items().is_prefix_of(final(self).items()),
            res matches Ok(ids) ==> final(self).state() == State::Complete && numbers(ids@)
                == final(self).items().reverse(),
            res is Err ==> final(self).state() == State::Error,
            old(self).state() == State::Complete ==> res is Ok && final(self).items() == old(self).items(),
    {
        self.load_all()?;
        let len = visited_len(&self.visited);
        let mut ids: Vec<Id> = Vec::new();
        let mut i: usize = len;
        while i > 0
            invariant
                i <= len,
                len == self.items().len(),
                ids@.len() == len - i,
                forall|k: int| 0 <= k < ids@.len() ==> (#[trigger] ids@[k]).0 == self.items()[len - 1 - k],
            decreases i,
        {
            i -= 1;
            match visited_get_index(&self.visited, i) {
                Some(id) => ids.push(Id(id)),
                None => {},
            }
        }
        assert(numbers(ids@) =~= self.items().reverse());
        Ok(ids)
    }

    /// The names of all ids of the source, the last first. A name that the
    /// map does not give stands as its error.
    pub fn iter_rev(&mut self) -> (res: Result<Vec<Result<VertexName, Error>>, Error>)
        requires
            old(self).wf(),
        ensures
            final(self).wf(),
            final(self).id_map() == old(self).id_map(),
            old(self).items().is_prefix_of(final(self).items()),
            old(self).state() == State::Error ==> res == Err::<Vec<Result<VertexName, Error>>, Error>(
                Error::IterationErrored,
            ),
            old(self).state() != State::Incomplete ==> final(self).iter.remaining() == old(self).iter.remaining(),
            old(self).state() == State::Incomplete ==> has_read_out(
                old(self).items(),
                old(self).iter.remaining(),
                final(self).items(),
                final(self).iter.remaining(),
                final(self).state(),
                failure_of(res),
            ),
            old(self).state() == State::Complete ==> res is Ok && final(self).items() == old(self).items(),
            res matches Ok(names) ==> final(self).state() == State::Complete && names@.len()
                == final(self).items().len() && forall|k: int|
                0 <= k < names@.len() ==> call_ensures(
                    M::vertex_name,
                    (&old(self).id_map(), Id(final(self).items()[names@.len() - 1 - k])),
                    #[trigger] names@[k],
                ),
            res is Err ==> final(self).state() == State::Error,
    {
        let ids = match self.ids_rev() {
            Ok(ids) => ids,
            Err(err) => {
                return Err(err);
            },
        };
        let ghost loaded = *self;
        assert(ids@.len() == self.items().len()) by {
            assert(numbers(ids@).len() == ids@.len());
            assert(self.items().reverse().len() == self.items().len());
        }
        let mut names: Vec<Result<VertexName, Error>> = Vec::new();
        let mut i: usize = 0;
        while i < ids.len()
            invariant
                *self == loaded,
                ids@.len() == self.items().len(),
                numbers(ids@) == self.items().reverse(),
                i <= ids.len(),
                names@.len() == i,
                forall|k: int|
                    0 <= k < i ==> call_ensures(
                        M::vertex_name,
                        (&self.map, Id(self.items()[ids@.len() - 1 - k])),
                        #[trigger] names@[k],
                    ),
            decreases ids.len() - i,
        {
            let id = ids[i];
            proof {
                assert(numbers(ids@)[i as int] == id.0);
                assert(self.items().reverse()[i as int] == self.items()[ids@.len() - 1 - i]);
                assert(id == Id(self.items()[ids@.len() - 1 - i]));
            }
            let name = self.map.vertex_name(id);
            names.push(name);
            i += 1;
        }
        Ok(names)
    }

    /// The number of ids that the source gives, each counted once.
    pub fn count(&mut self) -> (res: Result<usize, Error>)
        requires
            old(self).wf(),
        ensures
            final(self).id_map() == old(self).id_map(),
            old(self).state() == State::Error ==> res == Err::<usize, Error>(Error::IterationErrored),
            old(self).state() != State::Incomplete ==> final(self).iter.remaining() == old(self).iter.remaining(),
            old(self).state() == State::Incomplete ==> has_read_out(
                old(self).items(),
                old(self).iter.remaining(),
                final(self).items(),
                final(self).iter.remaining(),
                final(self).state(),
                failure_of(res),
            ),
            final(self).wf(),
            old(self).items().is_prefix_of(final(self).items()),
            res matches Ok(n) ==> final(self).state() == State::Complete && n == final(self).items().len(),
            res is Err ==> final(self).state() == State::Error,
            old(self).state() == State::Complete ==> res is Ok && final(self).items() == old(self).items(),
    {
        self.load_all()?;
        Ok(visited_len(&self.visited))
    }

    /// The last id that the source gives, if it gives any.
    pub fn last_id(&mut self) -> (res: Result<Option<Id>, Error>)
        requires
            old(self).wf(),
        ensures
            old(self).state() != State::Incomplete ==> final(self).iter.remaining() == old(self).iter.remaining(),
            old(self).state() == State::Incomplete ==> has_read_out(
                old(self).items(),
                old(self).iter.remaining(),
                final(self).items(),
                final(self).iter.remaining(),
                final(self).state(),
                failure_of(res),
            ),
            final(self).id_map() == old(self).id_map(),
            old(self).state() == State::Error ==> res == Err::<Option<Id>, Error>(Error::IterationErrored),
            final(self).wf(),
            old(self).items().is_prefix_of(final(self).items()),
            res matches Ok(last) ==> final(self).state() == State::Complete && last == (if final(self).items().len() == 0 {
                None
            } else {
                Some(Id(final(self).items().last()))
            }),
            res is Err ==> final(self).state() == State::Error,
            old(self).state() == State::Complete ==> res is Ok && final(self).items() == old(self).items(),
    {
        self.load_all()?;
        let len = visited_len(&self.visited);
        if len == 0 {
            Ok(None)
        } else {
            match visited_get_index(&self.visited, len - 1) {
                Some(id) => Ok(Some(Id(id))),
                None => Ok(None),
            }
        }
    }

    /// The name of the last id that the source gives.
    pub fn last(&mut self) -> (res: Result<Option<VertexName>, Error>)
        requires
            old(self).wf(),
        ensures
            old(self).state() != State::Incomplete ==> final(self).iter.remaining() == old(self).iter.remaining(),
            old(self).state() == State::Incomplete ==> exists|failure: Option<Error>| #[trigger]
                has_read_out(
                    old(self).items(),
                    old(self).iter.remaining(),
                    final(self).items(),
                    final(self).iter.remaining(),
                    final(self).state(),
                    failure,
                ) && (failure matches Some(e) ==> res == Err::<Option<VertexName>, Error>(e)),
            final(self).wf(),
            final(self).id_map() == old(self).id_map(),
            old(self).items().is_prefix_of(final(self).items()),
            old(self).state() == State::Error ==> res == Err::<Option<VertexName>, Error>(
                Error::IterationErrored,
            ),
            old(self).state() == State::Complete ==> final(self).items() == old(self).items(),
            old(self).state() == State::Complete && old(self).items().len() == 0 ==> res == Ok::<
                Option<VertexName>,
                Error,
            >(None),
            res matches Ok(None) ==> final(self).state() == State::Complete
                && final(self).items().len() == 0,
            res matches Ok(Some(name)) ==> final(self).state() == State::Complete
                && final(self).items().len() > 0 && call_ensures(
                M::vertex_name,
                (&old(self).id_map(), Id(final(self).items().last())),
                Ok::<VertexName, Error>(name),
            ),
            res matches Err(e) ==> final(self).state() == State::Error || (final(self).state()
                == State::Complete && final(self).items().len() > 0 && call_ensures(
                M::vertex_name,
                (&old(self).id_map(), Id(final(self).items().last())),
                Err::<VertexName, Error>(e),
            )),
    {
        let last = self.last_id();
        proof {
            if old(self).state() == State::Incomplete {
                assert(has_read_out(
                    old(self).items(),
                    old(self).iter.remaining(),
                    self.items(),
                    self.iter.remaining(),
                    self.state(),
                    failure_of(last),
                ));
            };
            assert(self.wf());
        }
        let last = match last {
            Ok(last) => last,
            Err(err) => {
                return Err(err);
            },
        };
        match last {
            Some(id) => match self.map.vertex_name(id) {
                Ok(name) => Ok(Some(name)),
                Err(err) => Err(err),
            },
            None => Ok(None),
        }
    }

    /// Whether the set holds `id`, reading on until the id is found or the
    /// source ends. No id is the id of no vertex, and in no set.
    pub fn contains_id(&mut self, id: Option<Id>) -> (res: Result<bool, Error>)
        requires
            old(self).wf(),
        ensures
            final(self).wf(),
            final(self).id_map() == old(self).id_map(),
            is_membership(
                old(self).items(),
                old(self).state(),
                final(self).items(),
                final(self).state(),
                id,
                res,
            ),
            is_search(
                old(self).items(),
                old(self).state(),
                old(self).iter.remaining(),
                final(self).items(),
                final(self).state(),
                final(self).iter.remaining(),
                id,
                res,
            ),
    {
        let wanted = match id {
            None => {
                return Ok(false);
            },
            Some(id) => id,
        };
        if visited_contains(&self.visited, wanted.0) {
            return Ok(true);
        }
        let mut loaded: Vec<Id> = Vec::new();
        proof {
            let source = self.iter.remaining();
            assert(source.take(0) =~= Seq::<Result<Id, Error>>::empty());
            assert(source.skip(0) =~= source);
            if self.state() == State::Incomplete {
                assert(seeking(
                    self.items(),
                    source,
                    0,
                    wanted,
                    self.items(),
                    self.iter.remaining(),
                    State::Incomplete,
                ));
            }
        }
        loop
            invariant
                id == Some(wanted),
                self.wf(),
                self.map == old(self).map,
                old(self).items().is_prefix_of(self.items()),
                !self.items().contains(wanted.0),
                !old(self).items().contains(wanted.0),
                old(self).state() != State::Incomplete ==> self.state() == old(self).state()
                    && self.iter == old(self).iter && self.items() == old(self).items(),
                old(self).state() == State::Incomplete ==> self.state() != State::Error && exists|
                    k: int,
                | #[trigger]
                    seeking(
                        old(self).items(),
                        old(self).iter.remaining(),
                        k,
                        wanted,
                        self.items(),
                        self.iter.remaining(),
                        self.state(),
                    ),
            decreases self.reading().0, self.reading().1,
        {
            match self.is_completed() {
                Err(err) => {
                    return Err(err);
                },
                Ok(true) => {
                    return Ok(false);
                },
                Ok(false) => {},
            }
            loaded.clear();
            let ghost before = self.items();
            let ghost source_between = self.iter.remaining();
            let read = self.load_more(1, &mut loaded, true);
            proof {
                assert(loaded@.skip(0) =~= loaded@);
                if old(self).state() == State::Incomplete {
                    let source = old(self).iter.remaining();
                    let k = choose|k: int| #[trigger]
                        seeking(
                            old(self).items(),
                            source,
                            k,
                            wanted,
                            before,
                            source_between,
                            State::Incomplete,
                        );
                    let more = choose|more: int|
                        0 <= more <= 1 && #[trigger] has_read(
                            before,
                            source_between,
                            more,
                            self.items(),
                            self.iter.remaining(),
                            self.state(),
                            failure_of(read),
                        ) && (self.state() == State::Incomplete ==> more == 1) && (self.state()
                            != State::Incomplete ==> more < 1) && loaded@ == Seq::<Id>::empty()
                            + ids_read(source_between.take(more));
                    lemma_read_on(
                        old(self).items(),
                        source,
                        k,
                        before,
                        source_between,
                        more,
                        self.items(),
                        self.iter.remaining(),
                        self.state(),
                        failure_of(read),
                    );
                    if more == 1 {
                        assert(source_between.take(1)[0] is Ok);
                        assert(source_between[0] == source[k]);
                        assert(loaded@[0] == ids_read(source_between.take(1))[0]);
                        assert(source[k] == Ok::<Id, Error>(loaded@[0]));
                        if loaded@[0] != wanted {
                            assert(none_is(source, k + 1, wanted));
                            assert(seeking(
                                old(self).items(),
                                source,
                                k + 1,
                                wanted,
                                self.items(),
                                self.iter.remaining(),
                                self.state(),
                            ));
                        } else {
                            assert(has_sought(
                                old(self).items(),
                                source,
                                wanted,
                                self.items(),
                                self.iter.remaining(),
                                self.state(),
                                Ok::<bool, Error>(true),
                            ));
                        }
                    } else {
                        assert(loaded@ =~= Seq::<Id>::empty());
                        if read is Ok {
                            assert(seeking(
                                old(self).items(),
                                source,
                                k,
                                wanted,
                                self.items(),
                                self.iter.remaining(),
                                self.state(),
                            ));
                        } else {
                            assert(has_sought(
                                old(self).items(),
                                source,
                                wanted,
                                self.items(),
                                self.iter.remaining(),
                                self.state(),
                                Err::<bool, Error>(read->Err_0),
                            ));
                        }
                    };
                };
                assert(self.wf());
            }
            match read {
                Err(err) => {
                    return Err(err);
                },
                Ok(()) => {},
            }
            if loaded.len() > 0 && loaded[0] == wanted {
                proof {
                    assert(numbers(loaded@)[0] == wanted.0);
                    assert(numbers(loaded@).to_set().contains(wanted.0));
                    assert(self.items().to_set().contains(wanted.0));
                }
                return Ok(true);
            }
            proof {
                if self.items().contains(wanted.0) {
                    assert(self.items().to_set().contains(wanted.0));
                    assert(!before.to_set().contains(wanted.0));
                    assert(numbers(loaded@).to_set().contains(wanted.0));
                    let k = choose|k: int|
                        0 <= k < numbers(loaded@).len() && numbers(loaded@)[k] == wanted.0;
                    assert(loaded@[k].0 == wanted.0);
                }
            }
        }
    }

    /// Whether the set holds the vertex `name`.
    pub fn contains(&mut self, name: &VertexName) -> (res: Result<bool, Error>)
        requires
            old(self).wf(),
        ensures
            final(self).wf(),
            final(self).id_map() == old(self).id_map(),
            old(self).items().is_prefix_of(final(self).items()),
            exists|id: Result<Option<Id>, Error>| #[trigger]
                call_ensures(
                    M::vertex_id_with_max_group,
                    (&old(self).id_map(), name, Group::NonMaster),
                    id,
                ) && match id {
                    Err(e) => res == Err::<bool, Error>(e) && final(self).items() == old(self).items()
                        && final(self).state() == old(self).state() && final(self).iter.remaining()
                        == old(self).iter.remaining(),
                    Ok(id) => is_membership(
                        old(self).items(),
                        old(self).state(),
                        final(self).items(),
                        final(self).state(),
                        id,
                        res,
                    ) && is_search(
                        old(self).items(),
                        old(self).state(),
                        old(self).iter.remaining(),
                        final(self).items(),
                        final(self).state(),
                        final(self).iter.remaining(),
                        id,
                        res,
                    ),
                },
    {
        let id = match self.map.vertex_id_with_max_group(name, Group::NonMaster) {
            Ok(id) => id,
            Err(err) => {
                assert(call_ensures(
                    M::vertex_id_with_max_group,
                    (&old(self).id_map(), name, Group::NonMaster),
                    Err::<Option<Id>, Error>(err),
                ));
                return Err(err);
            },
        };
        assert(call_ensures(
            M::vertex_id_with_max_group,
            (&old(self).id_map(), name, Group::NonMaster),
            Ok::<Option<Id>, Error>(id),
        ));
        self.contains_id(id)
    }

    /// The position before the first id of the set.
    pub fn iter(&self) -> (iter: Iter)
        ensures
            iter.position() == 0,
    {
        Iter { index: 0 }
    }

    /// The first id that the source gives, if it gives any.
    pub fn first_id(&mut self) -> (res: Result<Option<Id>, Error>)
        requires
            old(self).wf(),
        ensures
            old(self).state() != State::Incomplete ==> final(self).iter.remaining() == old(self).iter.remaining(),
            old(self).state() == State::Incomplete ==> has_stepped(
                old(self).items(),
                old(self).iter.remaining(),
                0,
                final(self).items(),
                final(self).iter.remaining(),
                final(self).state(),
                as_step(res),
            ),
            final(self).id_map() == old(self).id_map(),
            old(self).state() == State::Error ==> res == Err::<Option<Id>, Error>(
                Error::IterationErrored,
            ),
            old(self).state() != State::Error && old(self).items().len() > 0 ==> res == Ok::<
                Option<Id>,
                Error,
            >(Some(Id(old(self).items()[0]))) && final(self).items() == old(self).items()
                && final(self).state() == old(self).state(),
            old(self).state() == State::Complete && old(self).items().len() == 0 ==> res == Ok::<
                Option<Id>,
                Error,
            >(None) && final(self).items() == old(self).items() && final(self).state()
                == State::Complete,
            final(self).wf(),
            old(self).items().is_prefix_of(final(self).items()),
            res matches Ok(Some(id)) ==> final(self).items().len() > 0 && final(self).items()[0]
                == id.0,
            res matches Ok(None) ==> final(self).state() == State::Complete && final(self).items().len() == 0,
            res is Err ==> final(self).state() == State::Error,
    {
        let mut iter = self.iter();
        match iter.next_id(self) {
            Some(Ok(id)) => Ok(Some(id)),
            Some(Err(err)) => Err(err),
            None => Ok(None),
        }
    }

    /// The name of the first id that the source gives.
    pub fn first(&mut self) -> (res: Result<Option<VertexName>, Error>)
        requires
            old(self).wf(),
        ensures
            old(self).state() != State::Incomplete ==> final(self).iter.remaining() == old(self).iter.remaining(),
            old(self).state() == State::Incomplete ==> exists|step: Option<Result<Id, Error>>| #[trigger]
                has_stepped(
                    old(self).items(),
                    old(self).iter.remaining(),
                    0,
                    final(self).items(),
                    final(self).iter.remaining(),
                    final(self).state(),
                    step,
                ) && (step matches Some(Err(e)) ==> res == Err::<Option<VertexName>, Error>(e))
                    && (step is None ==> res == Ok::<Option<VertexName>, Error>(None)),
            final(self).wf(),
            final(self).id_map() == old(self).id_map(),
            old(self).items().is_prefix_of(final(self).items()),
            old(self).state() == State::Error ==> res == Err::<Option<VertexName>, Error>(
                Error::IterationErrored,
            ),
            old(self).state() == State::Complete && old(self).items().len() == 0 ==> res == Ok::<
                Option<VertexName>,
                Error,
            >(None),
            res matches Ok(None) ==> final(self).state() == State::Complete
                && final(self).items().len() == 0,
            res matches Ok(Some(name)) ==> final(self).items().len() > 0 && call_ensures(
                M::vertex_name,
                (&old(self).id_map(), Id(final(self).items()[0])),
                Ok::<VertexName, Error>(name),
            ),
            res matches Err(e) ==> final(self).state() == State::Error || (final(self).items().len()
                > 0 && call_ensures(
                M::vertex_name,
                (&old(self).id_map(), Id(final(self).items()[0])),
                Err::<VertexName, Error>(e),
            )),
    {
        let first = self.first_id();
        proof {
            if old(self).state() == State::Incomplete {
                assert(has_stepped(
                    old(self).items(),
                    old(self).iter.remaining(),
                    0,
                    self.items(),
                    self.iter.remaining(),
                    self.state(),
                    as_step(first),
                ));
            };
            assert(self.wf());
        }
        let first = match first {
            Ok(first) => first,
            Err(err) => {
                return Err(err);
            },
        };
        match first {
            Some(id) => match self.map.vertex_name(id) {
                Ok(name) => Ok(Some(name)),
                Err(err) => Err(err),
            },
            None => Ok(None),
        }
    }

    /// Whether the source gives no id at all.
    pub fn is_empty(&mut self) -> (res: Result<bool, Error>)
        requires
            old(self).wf(),
        ensures
            final(self).id_map() == old(self).id_map(),
            old(self).state() == State::Error ==> res == Err::<bool, Error>(Error::IterationErrored),
            old(self).state() != State::Incomplete ==> final(self).iter.remaining() == old(self).iter.remaining(),
            old(self).state() == State::Incomplete ==> exists|step: Option<Result<Id, Error>>| #[trigger]
                has_stepped(
                    old(self).items(),
                    old(self).iter.remaining(),
                    0,
                    final(self).items(),
                    final(self).iter.remaining(),
                    final(self).state(),
                    step,
                ) && match res {
                    Ok(true) => step is None,
                    Ok(false) => step matches Some(Ok(_)),
                    Err(e) => step == Some(Err::<Id, Error>(e)),
                },
            final(self).wf(),
            old(self).items().is_prefix_of(final(self).items()),
            res matches Ok(empty) ==> empty == (final(self).items().len() == 0) && (empty
                ==> final(self).state() == State::Complete),
            res is Err ==> final(self).state() == State::Error,
    {
        let first = self.first_id();
        proof {
            if old(self).state() == State::Incomplete {
                assert(has_stepped(
                    old(self).items(),
                    old(self).iter.remaining(),
                    0,
                    self.items(),
                    self.iter.remaining(),
                    self.state(),
                    as_step(first),
                ));
            };
            assert(self.wf());
        }
        match first {
            Ok(first) => Ok(first.is_none()),
            Err(err) => Err(err),
        }
    }

    /// How the set presents itself: it does not read its source to do so.
    pub fn debug_string(&self) -> (text: String)
        ensures
            text@ == "<lazy-id>"@,
    {
        String::from_str("<lazy-id>")
    }
}

/// Whether `res` names what the step `step` gave: the name that the map
/// gives for the id of the step, or the failure of the map, which makes
/// the set unusable; and the end of the set, or the failure of the source,
/// as the step has it.
pub open spec fn names_step<M: IdConvert>(
    map: M,
    step: Option<Result<Id, Error>>,
    state_read: State,
    res: Option<Result<VertexName, Error>>,
    state_after: State,
) -> bool {
    match step {
        Some(Ok(id)) => match res {
            Some(Ok(name)) => state_after == state_read && call_ensures(
                M::vertex_name,
                (&map, id),
                Ok::<VertexName, Error>(name),
            ),
            Some(Err(e)) => state_after == State::Error && call_ensures(
                M::vertex_name,
                (&map, id),
                Err::<VertexName, Error>(e),
            ),
            None => false,
        },
        Some(Err(e)) => res == Some(Err::<VertexName, Error>(e)) && state_after == state_read,
        None => res is None && state_after == state_read,
    }
}

impl Iter {
    /// The number of ids that the position has behind it.
    pub closed spec fn position(&self) -> nat {
        self.index as nat
    }

    /// The id at the position, and a step forward: the set reads on where
    /// it does not hold that many ids yet. At the end of the set there is
    /// no id, and the position stays.
    pub fn next_id<I: Iterator<Item = Result<Id, Error>>, M: IdConvert>(
        &mut self,
        set: &mut IdLazySet<I, M>,
    ) -> (res: Option<Result<Id, Error>>)
        requires
            old(set).wf(),
        ensures
            old(set).state() != State::Incomplete ==> final(set).iter.remaining() == old(set).iter.remaining(),
            old(set).state() == State::Incomplete ==> has_stepped(
                old(set).items(),
                old(set).iter.remaining(),
                old(self).position() as int,
                final(set).items(),
                final(set).iter.remaining(),
                final(set).state(),
                res,
            ),
            final(set).id_map() == old(set).id_map(),
            old(set).state() != State::Error && old(self).position() < old(set).items().len()
                ==> res == Some(Ok::<Id, Error>(Id(old(set).items()[old(self).position() as int]))),
            old(set).state() == State::Complete && old(self).position() >= old(set).items().len()
                ==> res is None && final(set).items() == old(set).items(),
            final(set).wf(),
            old(set).items().is_prefix_of(final(set).items()),
            res matches Some(Ok(id)) ==> final(self).position() == old(self).position() + 1 && old(self).position() < final(set).items().len() && final(set).items()[old(self).position() as int] == id.0,
            res is None ==> final(set).state() == State::Complete && final(set).items().len()
                <= old(self).position() && final(self).position() == old(self).position(),
            res matches Some(Err(_)) ==> final(set).state() == State::Error && final(self).position() == old(self).position(),
            old(set).state() == State::Error ==> res == Some(
                Err::<Id, Error>(Error::IterationErrored),
            ),
            old(set).state() != State::Error && old(self).position() < old(set).items().len()
                ==> final(set).items() == old(set).items() && final(set).state() == old(set).state(),
    {
        proof {
            let source = set.iter.remaining();
            assert(source.take(0) =~= Seq::<Result<Id, Error>>::empty());
            assert(source.skip(0) =~= source);
            if set.state() == State::Incomplete {
                assert(stepping(
                    set.items(),
                    source,
                    0,
                    self.position() as int,
                    set.items(),
                    set.iter.remaining(),
                    State::Incomplete,
                ));
            }
        }
        loop
            invariant
                set.wf(),
                set.map == old(set).map,
                old(set).state() == State::Complete ==> set.items() == old(set).items()
                    && set.state() == State::Complete,
                self.index == old(self).index,
                old(set).items().is_prefix_of(set.items()),
                old(set).state() == State::Error ==> set.state() == State::Error,
                old(set).state() != State::Error && old(self).position() < old(set).items().len()
                    ==> set.items() == old(set).items() && set.state() == old(set).state(),
                old(set).state() != State::Incomplete ==> set.iter == old(set).iter,
                old(set).state() == State::Incomplete ==> set.state() != State::Error && exists|
                    k: int,
                | #[trigger]
                    stepping(
                        old(set).items(),
                        old(set).iter.remaining(),
                        k,
                        old(self).position() as int,
                        set.items(),
                        set.iter.remaining(),
                        set.state(),
                    ),
            decreases set.reading().0, set.reading().1,
        {
            let len = visited_len(&set.visited);
            match set.state {
                State::Error => {
                    return Some(Err(Error::IterationErrored));
                },
                State::Complete => {
                    if len <= self.index {
                        return None;
                    }
                },
                State::Incomplete => {},
            }
            match visited_get_index(&set.visited, self.index) {
                Some(id) => {
                    self.index += 1;
                    return Some(Ok(Id(id)));
                },
                None => {
                    // Data not available. Load more.
                    let mut scratch: Vec<Id> = Vec::new();
                    let ghost before = set.items();
                    let ghost source_between = set.iter.remaining();
                    let read = set.load_more(1, &mut scratch, false);
                    proof {
                        if old(set).state() == State::Incomplete {
                            let source = old(set).iter.remaining();
                            let pos = old(self).position() as int;
                            let k = choose|k: int| #[trigger]
                                stepping(
                                    old(set).items(),
                                    source,
                                    k,
                                    pos,
                                    before,
                                    source_between,
                                    State::Incomplete,
                                );
                            let more = choose|more: int|
                                0 <= more <= 1 && #[trigger] has_read(
                                    before,
                                    source_between,
                                    more,
                                    set.items(),
                                    set.iter.remaining(),
                                    set.state(),
                                    failure_of(read),
                                );
                            lemma_read_on(
                                old(set).items(),
                                source,
                                k,
                                before,
                                source_between,
                                more,
                                set.items(),
                                set.iter.remaining(),
                                set.state(),
                                failure_of(read),
                            );
                            assert(lacking(old(set).items(), source, k + more, pos)) by {
                                assert forall|j: int| 0 <= j < k + more implies (#[trigger] absorbed(
                                    old(set).items(),
                                    source.take(j),
                                )).len() <= pos by {
                                    if j == k {
                                        assert(absorbed(old(set).items(), source.take(k)) == before);
                                    }
                                }
                            };
                            assert(before.len() <= pos);
                            if read is Ok {
                                assert(stepping(
                                    old(set).items(),
                                    source,
                                    k + more,
                                    pos,
                                    set.items(),
                                    set.iter.remaining(),
                                    set.state(),
                                ));
                            } else {
                                assert(set.items() == before);
                                assert(has_stepped(
                                    old(set).items(),
                                    source,
                                    pos,
                                    set.items(),
                                    set.iter.remaining(),
                                    set.state(),
                                    Some(Err::<Id, Error>(read->Err_0)),
                                ));
                            };
                        };
                        assert(set.wf());
                    }
                    match read {
                        Err(err) => {
                            proof {
                                if old(set).state() == State::Incomplete {
                                    assert(set.items() == before);
                                }
                            }
                            return Some(Err(err));
                        },
                        Ok(()) => {},
                    }
                },
            }
        }
    }

    /// The name of the vertex at the position, and a step forward. Where
    /// the map does not know the vertex the set becomes unusable.
    pub fn next<I: Iterator<Item = Result<Id, Error>>, M: IdConvert>(
        &mut self,
        set: &mut IdLazySet<I, M>,
    ) -> (res: Option<Result<VertexName, Error>>)
        requires
            old(set).wf(),
        ensures
            final(set).wf(),
            final(set).id_map() == old(set).id_map(),
            old(set).items().is_prefix_of(final(set).items()),
            old(set).state() == State::Error ==> res == Some(
                Err::<VertexName, Error>(Error::IterationErrored),
            ) && final(self).position() == old(self).position(),
            old(set).state() == State::Complete && old(self).position() >= old(set).items().len()
                ==> res is None && final(set).items() == old(set).items(),
            old(set).state() != State::Error && old(self).position() < old(set).items().len()
                ==> final(set).items() == old(set).items() && res is Some,
            res matches Some(Ok(name)) ==> final(self).position() == old(self).position() + 1
                && old(self).position() < final(set).items().len() && call_ensures(
                M::vertex_name,
                (&old(set).id_map(), Id(final(set).items()[old(self).position() as int])),
                Ok::<VertexName, Error>(name),
            ),
            res is None ==> final(set).state() == State::Complete && final(set).items().len()
                <= old(self).position() && final(self).position() == old(self).position(),
            res matches Some(Err(e)) ==> final(set).state() == State::Error && (final(self).position()
                == old(self).position() || (final(self).position() == old(self).position() + 1
                && old(self).position() < final(set).items().len() && call_ensures(
                M::vertex_name,
                (&old(set).id_map(), Id(final(set).items()[old(self).position() as int])),
                Err::<VertexName, Error>(e),
            ))),
            old(set).state() != State::Incomplete ==> final(set).iter.remaining() == old(set).iter.remaining(),
            old(set).state() == State::Incomplete ==> exists|
                step: Option<Result<Id, Error>>,
                state_read: State,
            | #[trigger]
                has_stepped(
                    old(set).items(),
                    old(set).iter.remaining(),
                    old(self).position() as int,
                    final(set).items(),
                    final(set).iter.remaining(),
                    state_read,
                    step,
                ) && names_step(old(set).id_map(), step, state_read, res, final(set).state())
                    && final(self).position() == old(self).position() + (if step matches Some(
                    Ok(_),
                ) {
                    1nat
                } else {
                    0nat
                }),
    {
        let step = self.next_id(set);
        let ghost state_read = set.state();
        let ghost given = step;
        let res = match step {
            Some(Ok(id)) => {
                match set.map.vertex_name(id) {
                    Err(err) => {
                        set.state = State::Error;
                        Some(Err(err))
                    },
                    Ok(vertex) => Some(Ok(vertex)),
                }
            },
            Some(Err(err)) => Some(Err(err)),
            None => None,
        };
        proof {
            if old(set).state() == State::Incomplete {
                assert(has_stepped(
                    old(set).items(),
                    old(set).iter.remaining(),
                    old(self).position() as int,
                    set.items(),
                    set.iter.remaining(),
                    state_read,
                    given,
                ));
                assert(names_step(old(set).id_map(), given, state_read, res, set.state()));
            };
            assert(set.wf());
        }
        res
    }
}

} // verus!
