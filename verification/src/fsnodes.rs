//! The entry point of the derivation of tree summaries, and what can be
//! wrong with a changeset whose summary is derived.

use crate::derive_impl::{BonsaiDerived, DeriveError};
use crate::mapping::BonsaiDerivedMapping;
use crate::text::push_hex_u128;
use crate::types::{BonsaiChangeset, ChangesetId};
use vstd::prelude::*;
use vstd::string::StringExecFns;

verus! {

/// Identifier of the content of a file: a 256-bit hash.
#[derive(Clone, Copy, Debug, PartialEq, Eq, Hash, PartialOrd, Ord, Structural)]
pub struct ContentId {
    pub hi: u128,
    pub lo: u128,
}

/// Identifier of the summary of a tree: a 256-bit hash.
#[derive(Clone, Copy, Debug, PartialEq, Eq, Hash, PartialOrd, Ord, Structural)]
pub struct FsnodeId {
    pub hi: u128,
    pub lo: u128,
}

/// What can be wrong with a changeset whose tree summary is derived.
#[derive(Clone, Debug, PartialEq, Eq)]
pub enum ErrorKind {
    InvalidBonsai(String),
    MissingContent(ContentId),
    MissingParent(FsnodeId),
    MissingSubentry(String, FsnodeId),
}

/// The 64 hexadecimal digits of a 256-bit hash.
pub open spec fn hex256(hi: u128, lo: u128) -> Seq<char> {
    crate::text::hex_u128(hi) + crate::text::hex_u128(lo)
}

/// The text with which an error presents itself.
pub open spec fn kind_message(kind: ErrorKind) -> Seq<char> {
    match kind {
        ErrorKind::InvalidBonsai(what) => "Invalid bonsai changeset: "@ + what@,
        ErrorKind::MissingContent(id) => "Missing content: "@ + hex256(id.hi, id.lo),
        ErrorKind::MissingParent(id) => "Missing fsnode parent: "@ + hex256(id.hi, id.lo),
        ErrorKind::MissingSubentry(name, id) => "Missing fsnode subentry for '"@ + name@ + "': "@
            + hex256(id.hi, id.lo),
    }
}

fn push_hex256(text: &mut String, hi: u128, lo: u128)
    ensures
        final(text)@ == old(text)@ + hex256(hi, lo),
{
    push_hex_u128(text, hi);
    push_hex_u128(text, lo);
    assert(text@ =~= old(text)@ + hex256(hi, lo));
}

impl ErrorKind {
    /// The text with which the error presents itself.
    pub fn message(&self) -> (text: String)
        ensures
            text@ == kind_message(*self),
    {
        match self {
            ErrorKind::InvalidBonsai(what) => {
                let mut text = String::from_str("Invalid bonsai changeset: ");
                text.append(what.as_str());
                text
            },
            ErrorKind::MissingContent(id) => {
                let mut text = String::from_str("Missing content: ");
                push_hex256(&mut text, id.hi, id.lo);
                text
            },
            ErrorKind::MissingParent(id) => {
                let mut text = String::from_str("Missing fsnode parent: ");
                push_hex256(&mut text, id.hi, id.lo);
                text
            },
            ErrorKind::MissingSubentry(name, id) => {
                let mut text = String::from_str("Missing fsnode subentry for '");
                text.append(name.as_str());
                text.append("': ");
                push_hex256(&mut text, id.hi, id.lo);
                text
            },
        }
    }
}

/// Derives the tree summary of `cs_id` for its effect on the mapping: the
/// value itself is dropped.
pub fn derive_fsnodes<D: BonsaiDerived, M: BonsaiDerivedMapping<Value = D>>(
    mapping: &mut M,
    cs_id: ChangesetId,
    ancestors: &Vec<BonsaiChangeset>,
) -> (res: Result<(), DeriveError>)
    requires
        old(mapping).wf(),
    ensures
        final(mapping).wf(),
        old(mapping).entries().submap_of(final(mapping).entries()),
        crate::derive_impl::new_are_derived(
            ancestors@,
            old(mapping).entries(),
            final(mapping).entries(),
        ),
        crate::derive_impl::follows_plan(
            res,
            crate::derive_impl::plan(old(mapping).entries().dom(), ancestors@, cs_id),
        ),
        res is Ok ==> final(mapping).entries().contains_key(cs_id),
        old(mapping).entries().contains_key(cs_id) ==> final(mapping).entries() == old(
            mapping,
        ).entries() && !(res matches Err(DeriveError::Derivation { .. })),
        !old(mapping).entries().contains_key(cs_id) ==> exists|i: int| #[trigger]
            crate::derive_impl::reached(
                old(mapping).entries().dom(),
                ancestors@,
                final(mapping).entries().dom(),
                i,
            ),
        res matches Err(DeriveError::MissingParent { changeset, .. })
            ==> crate::derive_impl::stopped_at(
            old(mapping).entries().dom(),
            ancestors@,
            final(mapping).entries().dom(),
            changeset,
        ),
        res matches Err(DeriveError::Derivation { changeset, .. })
            ==> crate::derive_impl::stopped_at(
            old(mapping).entries().dom(),
            ancestors@,
            final(mapping).entries().dom(),
            changeset,
        ),
        res matches Err(DeriveError::NotFound(missing)) ==> missing == cs_id && !final(mapping).entries().contains_key(cs_id),
        res matches Err(DeriveError::MissingParent { changeset, parent }) ==> exists|i: int|
            #[trigger] crate::derive_impl::lacks_parent_at(
                ancestors@,
                final(mapping).entries(),
                i,
                parent,
            ) && ancestors@[i].id == changeset,
        res matches Err(DeriveError::Derivation { changeset, error })
            ==> crate::derive_impl::derivation_failed(
            ancestors@,
            final(mapping).entries(),
            changeset,
            error,
        ),
{
    match crate::derive_impl::derive::<D, M>(mapping, cs_id, ancestors) {
        Ok(_) => Ok(()),
        Err(err) => Err(err),
    }
}

} // verus!
