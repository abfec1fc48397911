//! The errors that the library reports.

use crate::types::ChangesetId;
use vstd::prelude::*;
use vstd::string::StringExecFns;

verus! {

/// A breach of an invariant that a derivation relies on. It ends the current
/// request and leaves what was stored before untouched.
#[derive(Clone, Copy, Debug, PartialEq, Eq, Structural)]
pub enum Violation {
    /// The changed entries held no root entry, or more than one.
    ExpectedExactlyOneRoot,
    /// A file entry came without a path.
    UnexpectedEmptyFilePath,
    /// A record that should describe the root carried another path.
    UnexpectedPathForRoot,
    /// The copy information of a file could not be read.
    MalformedCopyInfo,
}

/// What the library fails with.
#[derive(Clone, Debug, PartialEq, Eq)]
pub enum Error {
    /// A changeset that was referred to is not known to the store.
    NotFound(ChangesetId),
    StructuralViolation(Violation),
    /// The blobstore is administratively disabled, for the reason given.
    BlobstoreDisabled(String),
    /// A lazy sequence of ids failed earlier and cannot be read further.
    IterationErrored,
    /// A path without bytes was given where a path is needed.
    EmptyPath,
    /// No kind of derived data was named where one is needed.
    MissingDerivedType,
    /// A kind of derived data was named that is not known.
    UnknownDerivedType(String),
    /// A generation number would exceed what a number of 64 bits holds.
    GenerationOverflow,
    /// A failure of the backing store, handed on unchanged.
    Store(String),
}

/// The text with which an error presents itself.
pub open spec fn message_of(e: Error) -> Seq<char> {
    match e {
        Error::NotFound(_) => "changeset not found"@,
        Error::StructuralViolation(Violation::ExpectedExactlyOneRoot) => "expected exactly one root"@,
        Error::StructuralViolation(Violation::UnexpectedEmptyFilePath) => "unexpected empty file path"@,
        Error::StructuralViolation(Violation::UnexpectedPathForRoot) => "unexpected path for root filenode"@,
        Error::StructuralViolation(Violation::MalformedCopyInfo) => "malformed copy information"@,
        Error::BlobstoreDisabled(reason) => "Blobstore disabled: "@ + reason@,
        Error::IterationErrored => "Iteration has errored out"@,
        Error::EmptyPath => "a path must not be empty"@,
        Error::MissingDerivedType => "required `type` argument is missing"@,
        Error::UnknownDerivedType(name) => "unknown derived data type: "@ + name@,
        Error::GenerationOverflow => "the generation number is too large"@,
        Error::Store(what) => what@,
    }
}

impl Error {
    /// The text with which the error presents itself.
    pub fn message(&self) -> (text: String)
        ensures
            text@ == message_of(*self),
    {
        match self {
            Error::NotFound(_) => String::from_str("changeset not found"),
            Error::StructuralViolation(Violation::ExpectedExactlyOneRoot) => String::from_str(
                "expected exactly one root",
            ),
            Error::StructuralViolation(Violation::UnexpectedEmptyFilePath) => String::from_str(
                "unexpected empty file path",
            ),
            Error::StructuralViolation(Violation::UnexpectedPathForRoot) => String::from_str(
                "unexpected path for root filenode",
            ),
            Error::StructuralViolation(Violation::MalformedCopyInfo) => String::from_str(
                "malformed copy information",
            ),
            Error::BlobstoreDisabled(reason) => {
                let mut text = String::from_str("Blobstore disabled: ");
                text.append(reason.as_str());
                text
            },
            Error::IterationErrored => String::from_str("Iteration has errored out"),
            Error::EmptyPath => String::from_str("a path must not be empty"),
            Error::MissingDerivedType => String::from_str("required `type` argument is missing"),
            Error::UnknownDerivedType(name) => {
                let mut text = String::from_str("unknown derived data type: ");
                text.append(name.as_str());
                text
            },
            Error::GenerationOverflow => String::from_str("the generation number is too large"),
            Error::Store(what) => what.clone(),
        }
    }
}

} // verus!
