//! Generation numbers: the simplest kind of derived data.
//!
//! A root has generation 1, and every other changeset has one more than the
//! greatest generation among its parents. There is no generation beyond the
//! greatest number of 64 bits: a changeset that would have it is refused.

use crate::derive_impl::BonsaiDerived;
use crate::error::Error;
use crate::mapping::MemMapping;
use crate::types::BonsaiChangeset;
use vstd::prelude::*;

verus! {

/// The generation number of a changeset.
#[derive(Clone, Copy, Debug, PartialEq, Eq, Hash, PartialOrd, Ord, Structural)]
pub struct Generation {
    pub value: u64,
}

/// The greatest value among `parents`, and 0 where there is none.
pub open spec fn max_generation(parents: Seq<Generation>) -> u64
    decreases parents.len(),
{
    if parents.len() == 0 {
        0
    } else {
        let rest = max_generation(parents.drop_last());
        if parents.last().value > rest {
            parents.last().value
        } else {
            rest
        }
    }
}

/// One more than `max`, as far as the number type reaches.
pub open spec fn next_generation(max: u64) -> u64 {
    if max < u64::MAX {
        (max + 1) as u64
    } else {
        u64::MAX
    }
}

impl BonsaiDerived for Generation {
    type Mapping = MemMapping<Generation>;

    open spec fn derived_from(bonsai: BonsaiChangeset, parents: Seq<Generation>) -> Generation {
        Generation { value: next_generation(max_generation(parents)) }
    }

    fn name() -> (name: &'static str)
        ensures
            name@ == "generation"@,
    {
        "generation"
    }

    /// Fails where a parent has the greatest generation that there is, and
    /// nowhere else.
    fn derive_from_parents(bonsai: &BonsaiChangeset, parents: Vec<Generation>) -> (res: Result<
        Generation,
        Error,
    >)
        ensures
            res is Ok <==> max_generation(parents@) < u64::MAX,
            res is Err ==> res == Err::<Generation, Error>(Error::GenerationOverflow),
    {
        let mut max: u64 = 0;
        let mut i: usize = 0;
        while i < parents.len()
            invariant
                i <= parents.len(),
                max == max_generation(parents@.take(i as int)),
            decreases parents.len() - i,
        {
            proof {
                assert(parents@.take(i + 1).drop_last() =~= parents@.take(i as int));
            }
            if parents[i].value > max {
                max = parents[i].value;
            }
            i += 1;
        }
        proof {
            assert(parents@.take(parents@.len() as int) =~= parents@);
        }
        if max < u64::MAX {
            Ok(Generation { value: max + 1 })
        } else {
            Err(Error::GenerationOverflow)
        }
    }
}

} // verus!
