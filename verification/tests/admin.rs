use derived_data::admin::{
    derive_fn, hg_changeset_diff, hg_manifest_diff, path_resolve, same_bytes, single_verify, BonsaiDiffFileChange,
    ChangesetAttrDiff, ChangesetDiff, DerivedType, HgChangeset, ManifestDiff, PathsDiffer,
};
use derived_data::error::Error;
use derived_data::types::{HgChangesetId, HgManifestId, HgNodeHash, MPath};

fn path(name: &str) -> MPath {
    MPath::new(name.as_bytes().to_vec()).unwrap()
}

fn cs(n: u128) -> HgChangesetId {
    HgChangesetId::new(HgNodeHash { hi: 0, lo: n })
}

fn changeset(user: &str, message: &str, files: &[&str], extra: &[(&str, &str)]) -> HgChangeset {
    HgChangeset {
        user: user.as_bytes().to_vec(),
        message: message.as_bytes().to_vec(),
        files: files.iter().map(|f| path(f)).collect(),
        extra: extra.iter().map(|(k, v)| (k.as_bytes().to_vec(), v.as_bytes().to_vec())).collect(),
        manifestid: HgManifestId::new(HgNodeHash { hi: 0, lo: 1 }),
    }
}

#[test]
fn equal_changesets_do_not_differ() {
    let c = changeset("me", "msg", &["a", "b"], &[("k", "v")]);
    assert_eq!(
        hg_changeset_diff(cs(1), cs(2), &c, &c.clone(), None),
        ChangesetDiff { left: cs(1), right: cs(2), diff: vec![] }
    );
}

#[test]
fn differences_come_in_the_order_of_the_attributes() {
    let left = changeset("me", "msg", &["a", "b"], &[("k", "v")]);
    let right = changeset("you", "other", &["a"], &[("k", "w")]);
    let mdiff = hg_manifest_diff(vec![
        BonsaiDiffFileChange::Deleted(path("gone")),
        BonsaiDiffFileChange::Changed(path("b")),
        BonsaiDiffFileChange::ChangedReusedId(path("c")),
    ]);
    assert_eq!(
        mdiff,
        Some(ChangesetAttrDiff::Manifest(ManifestDiff {
            modified: vec!["b".to_string(), "c".to_string()],
            deleted: vec!["gone".to_string()],
        }))
    );
    let diff = hg_changeset_diff(cs(1), cs(2), &left, &right, mdiff.clone());
    assert_eq!(
        diff.diff,
        vec![
            ChangesetAttrDiff::User("me".to_string(), "you".to_string()),
            ChangesetAttrDiff::Comments("msg".to_string(), "other".to_string()),
            ChangesetAttrDiff::Files(vec!["a".to_string(), "b".to_string()], vec!["a".to_string()]),
            ChangesetAttrDiff::Extra(
                vec![("k".to_string(), "v".to_string())],
                vec![("k".to_string(), "w".to_string())]
            ),
            mdiff.unwrap(),
        ]
    );
    let only_message = hg_changeset_diff(cs(1), cs(2), &left, &changeset("me", "x", &["a", "b"], &[("k", "v")]), None);
    assert_eq!(only_message.diff, vec![ChangesetAttrDiff::Comments("msg".to_string(), "x".to_string())]);
}

#[test]
fn bytes_that_are_no_text_are_replaced() {
    let mut left = changeset("me", "msg", &[], &[]);
    left.user = vec![0xff, b'a'];
    let right = changeset("me", "msg", &[], &[]);
    assert_eq!(
        hg_changeset_diff(cs(1), cs(2), &left, &right, None).diff,
        vec![ChangesetAttrDiff::User("\u{fffd}a".to_string(), "me".to_string())]
    );
}

#[test]
fn trees_without_difference_give_no_manifest_diff() {
    assert_eq!(hg_manifest_diff(vec![]), None);
    assert!(same_bytes(&vec![1, 2], &vec![1, 2]));
    assert!(!same_bytes(&vec![1, 2], &vec![1, 3]));
    assert!(!same_bytes(&vec![1, 2], &vec![1]));
}

#[test]
fn paths_are_verified_as_sets() {
    let hg = vec![path("a"), path("b"), path("c")];
    let unode = vec![path("c"), path("a"), path("b")];
    assert_eq!(single_verify(&hg, &unode), Ok(()));
    assert_eq!(single_verify(&vec![], &vec![]), Ok(()));
    let unode = vec![path("c"), path("d")];
    assert_eq!(
        single_verify(&hg, &unode),
        Err(PathsDiffer { only_hg: vec![path("a"), path("b")], only_unode: vec![path("d")] })
    );
}

#[test]
fn slash_names_the_root() {
    assert_eq!(path_resolve("/"), Ok(None));
    assert_eq!(path_resolve("dir/file"), Ok(Some(path("dir/file"))));
    assert_eq!(path_resolve("//"), Ok(Some(path("//"))));
    assert_eq!(path_resolve(""), Err(Error::EmptyPath));
}

#[test]
fn derived_types_go_by_name() {
    assert_eq!(derive_fn(None), Err(Error::MissingDerivedType));
    assert_eq!(derive_fn(Some("hg-changeset")), Ok(DerivedType::HgChangeset));
    assert_eq!(derive_fn(Some("unodes")), Ok(DerivedType::Unodes));
    assert_eq!(derive_fn(Some("fsnodes")), Ok(DerivedType::Fsnodes));
    assert_eq!(derive_fn(Some("filenodes")), Err(Error::UnknownDerivedType("filenodes".to_string())));
    assert_eq!(derive_fn(Some("filenodes")).unwrap_err().message(), "unknown derived data type: filenodes");
}
