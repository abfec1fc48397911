use derived_data::blobstore::{Blobstore, BlobstoreBytes, DisabledBlob};
use derived_data::error::Error;
use derived_data::fsnodes::{ContentId, ErrorKind, FsnodeId};
use derived_data::remotestore::{FakeRemoteStore, Key, LocalStore, Metadata, StoreKey};
use derived_data::types::HgNodeHash;

#[test]
fn test_disabled() {
    let disabled = DisabledBlob::new("test");

    match disabled.get("foobar".to_string()) {
        Ok(_) => panic!("Unexpected success"),
        Err(err) => println!("Got error: {:?}", err),
    }

    match disabled.put("foobar".to_string(), BlobstoreBytes::from_bytes(vec![])) {
        Ok(_) => panic!("Unexpected success"),
        Err(err) => println!("Got error: {:?}", err),
    }
}

#[test]
fn disabled_blobstore_says_why() {
    let disabled = DisabledBlob::new("maintenance");
    let err = disabled.get("key".to_string()).unwrap_err();
    assert_eq!(err, Error::BlobstoreDisabled("maintenance".to_string()));
    assert_eq!(err.message(), "Blobstore disabled: maintenance");
    let err = disabled.put("key".to_string(), BlobstoreBytes::from_bytes(vec![1, 2])).unwrap_err();
    assert_eq!(err.message(), "Blobstore disabled: maintenance");
    assert_eq!(BlobstoreBytes::from_bytes(vec![1, 2]).into_bytes(), vec![1, 2]);
}

#[test]
fn errors_present_themselves() {
    assert_eq!(Error::IterationErrored.message(), "Iteration has errored out");
    assert_eq!(Error::MissingDerivedType.message(), "required `type` argument is missing");
    assert_eq!(Error::UnknownDerivedType("x".to_string()).message(), "unknown derived data type: x");
    assert_eq!(Error::Store("disk full".to_string()).message(), "disk full");
    assert_eq!(ErrorKind::InvalidBonsai("no files".to_string()).message(), "Invalid bonsai changeset: no files");
    let zeros = "0".repeat(63);
    assert_eq!(
        ErrorKind::MissingContent(ContentId { hi: 0, lo: 10 }).message(),
        format!("Missing content: {}a", zeros)
    );
    assert_eq!(
        ErrorKind::MissingParent(FsnodeId { hi: 0, lo: 1 }).message(),
        format!("Missing fsnode parent: {}1", zeros)
    );
    assert_eq!(
        ErrorKind::MissingSubentry("dir/file".to_string(), FsnodeId { hi: 0, lo: 2 }).message(),
        format!("Missing fsnode subentry for 'dir/file': {}2", zeros)
    );
}

struct Local(Vec<StoreKey>);

impl LocalStore for Local {
    fn get_missing(&self, keys: &[StoreKey]) -> Result<Vec<StoreKey>, Error> {
        Ok(keys.iter().filter(|k| !self.0.contains(k)).cloned().collect())
    }
}

#[test]
fn fake_remote_store_holds_nothing() {
    let key = |n: u8| Key { path: vec![n], hgid: HgNodeHash { hi: 0, lo: n as u128 } };
    let local = Local(vec![StoreKey::HgId(key(1))]);
    let remote = FakeRemoteStore.datastore(local);
    assert_eq!(remote.prefetch(&[StoreKey::HgId(key(1))]), Ok(()));
    assert_eq!(remote.get(&key(1)), Ok(None));
    assert_eq!(remote.get_meta(&key(1)), Ok(None::<Metadata>));
    assert_eq!(
        remote.get_missing(&[StoreKey::HgId(key(1)), StoreKey::HgId(key(2))]),
        Ok(vec![StoreKey::HgId(key(2))])
    );
}
