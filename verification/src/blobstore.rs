//! Blobstores, and the blobstore that is administratively disabled.

use crate::error::Error;
use vstd::prelude::*;
use vstd::string::StringExecFns;

verus! {

/// The bytes of one blob.
#[derive(Clone, Debug, PartialEq, Eq, Hash)]
pub struct BlobstoreBytes {
    bytes: Vec<u8>,
}

impl View for BlobstoreBytes {
    type V = Seq<u8>;

    closed spec fn view(&self) -> Seq<u8> {
        self.bytes@
    }
}

impl BlobstoreBytes {
    pub fn from_bytes(bytes: Vec<u8>) -> (blob: Self)
        ensures
            blob@ == bytes@,
    {
        BlobstoreBytes { bytes }
    }

    pub fn into_bytes(self) -> (bytes: Vec<u8>)
        ensures
            bytes@ == self@,
    {
        self.bytes
    }
}

/// What a blobstore hands out for a key: the blob, and when it was made
/// where the store keeps that.
#[derive(Clone, Debug, PartialEq, Eq)]
pub struct BlobstoreGetData {
    pub bytes: BlobstoreBytes,
    pub ctime: Option<i64>,
}

/// A store of blobs by key.
pub trait Blobstore {
    fn get(&self, key: String) -> Result<Option<BlobstoreGetData>, Error>;

    fn put(&self, key: String, value: BlobstoreBytes) -> Result<(), Error>;
}

/// Disabled blobstore which fails all operations with a reason. It stands in
/// for a blobstore that was administratively disabled.
#[derive(Debug)]
pub struct DisabledBlob {
    reason: String,
}

impl DisabledBlob {
    /// A blobstore that is disabled for the reason given.
    pub fn new(reason: &str) -> (blob: Self)
        ensures
            blob.reason() == reason@,
    {
        DisabledBlob { reason: String::from_str(reason) }
    }

    /// Why the blobstore is disabled.
    pub closed spec fn reason(&self) -> Seq<char> {
        self.reason@
    }

    /// The error of every operation.
    pub open spec fn is_disabled_error(&self, e: Error) -> bool {
        e matches Error::BlobstoreDisabled(reason) && reason@ == self.reason()
    }

    fn disabled(&self) -> (e: Error)
        ensures
            self.is_disabled_error(e),
    {
        Error::BlobstoreDisabled(self.reason.clone())
    }
}

impl Blobstore for DisabledBlob {
    fn get(&self, _key: String) -> (res: Result<Option<BlobstoreGetData>, Error>)
        ensures
            res matches Err(e) && self.is_disabled_error(e),
    {
        Err(self.disabled())
    }

    fn put(&self, _key: String, _value: BlobstoreBytes) -> (res: Result<(), Error>)
        ensures
            res matches Err(e) && self.is_disabled_error(e),
    {
        Err(self.disabled())
    }
}

} // verus!
