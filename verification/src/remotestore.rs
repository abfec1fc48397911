//! A remote store that holds nothing: every lookup misses, and what is
//! missing locally is whatever the local store misses.

use crate::error::Error;
use crate::types::HgNodeHash;
use vstd::prelude::*;

verus! {

/// The key of one revision of a file.
#[derive(Clone, Debug, PartialEq, Eq, Hash)]
pub struct Key {
    pub path: Vec<u8>,
    pub hgid: HgNodeHash,
}

/// The key under which a store holds data.
#[derive(Clone, Debug, PartialEq, Eq, Hash)]
pub enum StoreKey {
    HgId(Key),
    Content(Vec<u8>),
}

/// What a store records beside the data of a revision.
#[derive(Clone, Copy, Debug, PartialEq, Eq, Structural)]
pub struct Metadata {
    pub size: Option<u64>,
    pub flags: Option<u64>,
}

/// A store that can tell which keys it lacks.
pub trait LocalStore {
    fn get_missing(&self, keys: &[StoreKey]) -> Result<Vec<StoreKey>, Error>;
}

/// A remote store that stands in where there is none.
pub struct FakeRemoteStore;

/// The data of the remote store that holds nothing, in front of a local
/// store.
pub struct FakeRemoteDataStore<S>(pub S);

impl FakeRemoteStore {
    /// The remote data store in front of the local `store`.
    pub fn datastore<S: LocalStore>(self, store: S) -> (remote: FakeRemoteDataStore<S>)
        ensures
            remote.0 == store,
    {
        FakeRemoteDataStore(store)
    }
}

impl<S: LocalStore> FakeRemoteDataStore<S> {
    /// Fetches nothing, and succeeds.
    pub fn prefetch(&self, _keys: &[StoreKey]) -> (res: Result<(), Error>)
        ensures
            res is Ok,
    {
        Ok(())
    }

    /// Holds no data.
    pub fn get(&self, _key: &Key) -> (res: Result<Option<Vec<u8>>, Error>)
        ensures
            res == Ok::<Option<Vec<u8>>, Error>(None),
    {
        Ok(None)
    }

    /// Holds no metadata.
    pub fn get_meta(&self, _key: &Key) -> (res: Result<Option<Metadata>, Error>)
        ensures
            res == Ok::<Option<Metadata>, Error>(None),
    {
        Ok(None)
    }
}

impl<S: LocalStore> LocalStore for FakeRemoteDataStore<S> {
    /// Whatever the local store says: the answer is one that the local
    /// store gives for these keys.
    fn get_missing(&self, keys: &[StoreKey]) -> (res: Result<Vec<StoreKey>, Error>)
        ensures
            call_ensures(S::get_missing, (&self.0, keys), res),
    {
        self.0.get_missing(keys)
    }
}

} // verus!
