use derived_data::error::{Error, Violation};
use derived_data::filenodes::{
    changed_entries, classify_filenode, create_file_filenode, create_manifest_filenode, derive_file_history,
    fetch_root_filenode, generate_all_filenodes, is_reused, partition_filenodes, root_filenode_of_info,
    root_filenode_of_manifest, ChangedEntry, Classified, CopyInfo, DeriveStep, DiffItem, Entry, Envelope,
    FileType, FilenodeInfo, FilenodeResult, FilenodesOnlyPublic, FilenodesOnlyPublicMapping, HgFileEnvelope,
    HgManifestEnvelope, LoadedEntry, PreparedFilenode, PreparedRootFilenode, RepoPath, RootFilenodeStep,
    TreeNode,
};
use derived_data::types::{
    ChangesetId, HgChangesetId, HgFileNodeId, HgManifestId, HgNodeHash, MPath, RepositoryId,
};

fn hash(n: u128) -> HgNodeHash {
    HgNodeHash { hi: 0, lo: n }
}

fn filenode(n: u128) -> HgFileNodeId {
    HgFileNodeId::new(hash(n))
}

fn linknode(n: u128) -> HgChangesetId {
    HgChangesetId::new(hash(n))
}

fn path(name: &str) -> MPath {
    MPath::new(name.as_bytes().to_vec()).unwrap()
}

fn info(n: u128) -> FilenodeInfo {
    FilenodeInfo { filenode: filenode(n), p1: None, p2: None, copyfrom: None, linknode: linknode(100) }
}

/// The root of a tree with the id `n`.
fn root(n: u128, parents: &[u128]) -> TreeNode {
    TreeNode {
        path: None,
        entry: Entry::Tree(HgManifestId::new(hash(n))),
        envelope: Envelope::Manifest(HgManifestEnvelope {
            node_id: hash(n),
            p1: parents.first().map(|p| hash(*p)),
            p2: parents.get(1).map(|p| hash(*p)),
        }),
    }
}

/// A file at `name` with the revision `n`.
fn file_of(name: &str, n: u128, file_type: FileType) -> TreeNode {
    TreeNode {
        path: Some(path(name)),
        entry: Entry::Leaf(file_type, filenode(n)),
        envelope: Envelope::File(HgFileEnvelope {
            node_id: filenode(n),
            p1: None,
            p2: None,
            copy_info: CopyInfo::NotCopied,
        }),
    }
}

fn file(name: &str, n: u128) -> TreeNode {
    file_of(name, n, FileType::Regular)
}

fn verify_filenodes(
    tree: Vec<TreeNode>,
    parents: Vec<Vec<TreeNode>>,
    link: HgChangesetId,
    expected_paths: Vec<RepoPath>,
) -> Vec<PreparedFilenode> {
    let filenodes = derive_file_history(tree, &parents, link).unwrap();

    assert_eq!(filenodes.len(), expected_paths.len());
    for path in expected_paths {
        assert!(filenodes.iter().find(|filenode| filenode.path == path).is_some());
    }

    for filenode in &filenodes {
        assert_eq!(filenode.info.linknode, link);
    }
    filenodes
}

#[test]
fn generate_filenodes_simple() {
    let filename = "path";
    let commit = vec![root(1, &[]), file(filename, 2)];

    // Two filenodes - one for root manifest, another for a file
    verify_filenodes(commit, vec![], linknode(10), vec![RepoPath::RootPath, RepoPath::FilePath(path(filename))]);
}

#[test]
fn generate_filenodes_merge() {
    let first_p1 = vec![root(1, &[]), file("path1", 11)];
    let first_p2 = vec![root(2, &[]), file("path2", 12)];
    let merge = vec![root(3, &[1, 2]), file("path1", 11), file("path2", 12)];

    // Only root filenode was added - other filenodes were reused from parents
    let filenodes = verify_filenodes(merge, vec![first_p1, first_p2], linknode(30), vec![RepoPath::RootPath]);
    assert_eq!(filenodes[0].info.p1, Some(filenode(1)));
    assert_eq!(filenodes[0].info.p2, Some(filenode(2)));
}

#[test]
fn generate_filenodes_type_change() {
    let parent = vec![root(1, &[]), file("path", 11)];
    let child = vec![root(2, &[1]), file_of("path", 11, FileType::Executable)];

    // Only root filenode should be changed - change of file type doesn't change filenode
    verify_filenodes(child, vec![parent], linknode(20), vec![RepoPath::RootPath]);
}

#[test]
fn many_parents() {
    let p1 = vec![root(1, &[]), file("path1", 11)];
    let p2 = vec![root(2, &[]), file("path2", 12)];
    let p3 = vec![root(3, &[]), file("path3", 13)];
    let merge = vec![root(4, &[1, 2]), file("path1", 11), file("path2", 12), file("path3", 13)];

    verify_filenodes(
        p3.clone(),
        vec![],
        linknode(30),
        vec![RepoPath::RootPath, RepoPath::FilePath(path("path3"))],
    );
    verify_filenodes(merge, vec![p1, p2, p3], linknode(40), vec![RepoPath::RootPath]);
}

/// The store of records of these tests: what was added, by path and id.
struct Store {
    disabled: bool,
    records: Vec<PreparedFilenode>,
}

impl Store {
    fn add_filenodes(&mut self, records: Vec<PreparedFilenode>) -> FilenodeResult<()> {
        if self.disabled {
            return FilenodeResult::Disabled;
        }
        self.records.extend(records);
        FilenodeResult::Present(())
    }

    fn get_filenode(&self, path: &RepoPath, id: HgFileNodeId) -> FilenodeResult<Option<FilenodeInfo>> {
        if self.disabled {
            return FilenodeResult::Disabled;
        }
        FilenodeResult::Present(
            self.records.iter().find(|r| r.path == *path && r.info.filenode == id).map(|r| r.info.clone()),
        )
    }
}

/// Derives one changeset as an application would: it fetches, the library decides.
fn derive(
    store: &mut Store,
    tree: Vec<TreeNode>,
    parents: Vec<Vec<TreeNode>>,
    link: HgChangesetId,
) -> Result<FilenodesOnlyPublic, Error> {
    match FilenodesOnlyPublic::start(store.disabled) {
        DeriveStep::Finished(value) => return Ok(value),
        _ => {}
    }
    let filenodes = derive_file_history(tree, &parents, link)?;
    let value = match FilenodesOnlyPublic::derive_from_parents(filenodes)? {
        DeriveStep::Finished(value) => value,
        DeriveStep::AddFilenodes { root_filenode, non_roots } => {
            let added = store.add_filenodes(non_roots);
            FilenodesOnlyPublic::filenodes_added(root_filenode, added)
        }
        DeriveStep::GenerateFilenodes => unreachable!(),
    };
    let mapping = FilenodesOnlyPublicMapping::new(RepositoryId::new(0));
    let records = mapping.put(ChangesetId::new(0, 0), value.clone());
    store.add_filenodes(records);
    Ok(value)
}

/// Looks the root record of a changeset up as an application would.
fn lookup(store: &Store, hg: Option<(HgChangesetId, HgManifestId)>) -> FilenodeResult<Option<PreparedRootFilenode>> {
    let manifest = match fetch_root_filenode(hg.map(|(cs, _)| cs)) {
        RootFilenodeStep::Found(found) => return found,
        RootFilenodeStep::FetchManifestId(cs) => {
            assert_eq!(Some(cs), hg.map(|(cs, _)| cs));
            hg.unwrap().1
        }
        RootFilenodeStep::GetFilenode(_) => unreachable!(),
    };
    match root_filenode_of_manifest(manifest) {
        RootFilenodeStep::Found(found) => found,
        RootFilenodeStep::GetFilenode(id) => {
            root_filenode_of_info(store.get_filenode(&RepoPath::RootPath, id)).unwrap()
        }
        RootFilenodeStep::FetchManifestId(_) => unreachable!(),
    }
}

fn cs(n: u128) -> ChangesetId {
    ChangesetId::new(0, n)
}

#[test]
fn derive_empty_commits() {
    let mut store = Store { disabled: false, records: vec![] };
    // the parent has the empty tree, the child adds a file
    let parent_empty = derive(&mut store, vec![], vec![], linknode(1)).unwrap();
    assert_eq!(parent_empty, FilenodesOnlyPublic::Present { root_filenode: None });
    let child = derive(&mut store, vec![root(5, &[]), file("file", 6)], vec![vec![]], linknode(2)).unwrap();
    assert!(matches!(child, FilenodesOnlyPublic::Present { root_filenode: Some(_) }));

    // Make sure they are in the mapping
    let mapping = FilenodesOnlyPublicMapping::new(RepositoryId::new(0));
    let maps = mapping.get(vec![
        (cs(1), lookup(&store, Some((linknode(1), HgManifestId::new(HgNodeHash::null()))))),
        (cs(2), lookup(&store, Some((linknode(2), HgManifestId::new(hash(5)))))),
    ]);
    assert_eq!(maps.len(), 2);
    assert_eq!(maps[1].1, child);
}

#[test]
fn derive_only_empty_commits() {
    let mut store = Store { disabled: false, records: vec![] };
    let parent_empty = derive(&mut store, vec![], vec![], linknode(1)).unwrap();
    let child_empty = derive(&mut store, vec![], vec![vec![]], linknode(2)).unwrap();
    assert_eq!(parent_empty, FilenodesOnlyPublic::Present { root_filenode: None });
    assert_eq!(child_empty, FilenodesOnlyPublic::Present { root_filenode: None });
    assert!(store.records.is_empty());

    // Make sure they are in the mapping
    let null = HgManifestId::new(HgNodeHash::null());
    let mapping = FilenodesOnlyPublicMapping::new(RepositoryId::new(0));
    let maps = mapping.get(vec![
        (cs(2), lookup(&store, Some((linknode(2), null)))),
        (cs(1), lookup(&store, Some((linknode(1), null)))),
    ]);
    assert_eq!(maps.len(), 2);
}

#[test]
fn derive_disabled_filenodes() {
    let mut store = Store { disabled: true, records: vec![] };
    let derived = derive(&mut store, vec![root(1, &[]), file("f", 2)], vec![], linknode(1)).unwrap();
    assert_eq!(derived, FilenodesOnlyPublic::Disabled);
    assert_eq!(FilenodesOnlyPublic::start(true), DeriveStep::Finished(FilenodesOnlyPublic::Disabled));
    assert_eq!(FilenodesOnlyPublic::start(false), DeriveStep::GenerateFilenodes);

    let mapping = FilenodesOnlyPublicMapping::new(RepositoryId::new(0));
    let res = mapping.get(vec![(cs(1), lookup(&store, Some((linknode(1), HgManifestId::new(hash(1))))))]);
    assert_eq!(res, vec![(cs(1), FilenodesOnlyPublic::Disabled)]);
    assert_eq!(
        FilenodesOnlyPublic::filenodes_added(PreparedRootFilenode::try_from(PreparedFilenode { path: RepoPath::RootPath, info: info(1) }).unwrap(), FilenodeResult::Disabled),
        FilenodesOnlyPublic::Disabled
    );
    assert_eq!(FilenodesOnlyPublic::name(), "filenodes");
}

#[test]
fn child_gets_records_for_its_root_and_its_new_file_only() {
    // A adds "f", B is a child of A and adds "g"
    let a = vec![root(1, &[]), file("f", 11)];
    let b = vec![root(2, &[1]), file("f", 11), file("g", 12)];
    let of_a = verify_filenodes(
        a.clone(),
        vec![],
        linknode(0xa),
        vec![RepoPath::RootPath, RepoPath::FilePath(path("f"))],
    );
    let of_b = verify_filenodes(b, vec![a], linknode(0xb), vec![RepoPath::RootPath, RepoPath::FilePath(path("g"))]);
    assert!(of_b.iter().all(|r| r.path != RepoPath::FilePath(path("f"))));
    // the record of "f" stays linked to A
    let f = of_a.iter().find(|r| r.path == RepoPath::FilePath(path("f"))).unwrap();
    assert_eq!(f.info.linknode, linknode(0xa));
    assert_eq!(of_b[0].info.filenode, filenode(2));
    assert_eq!(of_b[1].info.filenode, filenode(12));
}

#[test]
fn merge_with_the_tree_of_a_parent_gives_no_record() {
    let p1 = vec![root(1, &[]), file("a", 11)];
    let p2 = vec![root(2, &[]), file("b", 12)];
    let merge = p2.clone();
    assert_eq!(derive_file_history(merge, &vec![p1, p2], linknode(3)), Ok(vec![]));
    assert_eq!(
        FilenodesOnlyPublic::derive_from_parents(vec![]),
        Ok(DeriveStep::Finished(FilenodesOnlyPublic::Present { root_filenode: None }))
    );
}

#[test]
fn merge_of_disjoint_changes_records_its_root_only() {
    let base = vec![root(1, &[]), file("a", 11), file("b", 12)];
    let left = vec![root(2, &[1]), file("a", 21), file("b", 12)];
    let right = vec![root(3, &[1]), file("a", 11), file("b", 32)];
    let merge = vec![root(4, &[2, 3]), file("a", 21), file("b", 32)];
    verify_filenodes(left.clone(), vec![base.clone()], linknode(2), vec![RepoPath::RootPath, RepoPath::FilePath(path("a"))]);
    verify_filenodes(merge, vec![left, right], linknode(4), vec![RepoPath::RootPath]);
}

#[test]
fn directories_get_records_like_files() {
    let dir = TreeNode {
        path: Some(path("dir")),
        entry: Entry::Tree(HgManifestId::new(hash(7))),
        envelope: Envelope::Manifest(HgManifestEnvelope { node_id: hash(7), p1: Some(hash(6)), p2: None }),
    };
    let filenodes =
        derive_file_history(vec![root(1, &[]), dir, file("dir/f", 8)], &vec![], linknode(1)).unwrap();
    assert_eq!(filenodes[1].path, RepoPath::DirectoryPath(path("dir")));
    assert_eq!(filenodes[1].info.p1, Some(filenode(6)));
    assert_eq!(filenodes[1].info.copyfrom, None);
    assert_eq!(filenodes[2].path, RepoPath::FilePath(path("dir/f")));
}

#[test]
fn more_than_one_root_is_a_violation() {
    let root_record = |n| PreparedFilenode { path: RepoPath::RootPath, info: info(n) };
    let other = PreparedFilenode { path: RepoPath::FilePath(path("f")), info: info(3) };
    let violation = Err(Error::StructuralViolation(Violation::ExpectedExactlyOneRoot));
    assert_eq!(FilenodesOnlyPublic::derive_from_parents(vec![root_record(1), other.clone(), root_record(2)]), violation);
    assert_eq!(FilenodesOnlyPublic::derive_from_parents(vec![root_record(1), root_record(1)]), violation);
    assert_eq!(FilenodesOnlyPublic::derive_from_parents(vec![other.clone()]), violation);
    match FilenodesOnlyPublic::derive_from_parents(vec![other.clone(), root_record(1), other.clone()]).unwrap() {
        DeriveStep::AddFilenodes { root_filenode, non_roots } => {
            assert_eq!(root_filenode.filenode, filenode(1));
            assert_eq!(non_roots, vec![other.clone(), other.clone()]);
            assert_eq!(
                FilenodesOnlyPublic::filenodes_added(root_filenode.clone(), FilenodeResult::Present(())),
                FilenodesOnlyPublic::Present { root_filenode: Some(root_filenode) }
            );
        }
        step => panic!("unexpected step {:?}", step),
    }
    // two roots in a tree are refused as well
    let res = derive_file_history(vec![root(1, &[]), root(2, &[])], &vec![], linknode(1))
        .and_then(FilenodesOnlyPublic::derive_from_parents);
    assert_eq!(res, Err(Error::StructuralViolation(Violation::ExpectedExactlyOneRoot)));
}

#[test]
fn file_without_path_is_a_violation() {
    let envelope = HgFileEnvelope { node_id: filenode(1), p1: Some(filenode(2)), p2: None, copy_info: CopyInfo::NotCopied };
    assert_eq!(
        create_file_filenode(None, envelope.clone(), linknode(9)),
        Err(Error::StructuralViolation(Violation::UnexpectedEmptyFilePath))
    );
    assert_eq!(
        create_file_filenode(Some(path("f")), envelope.clone(), linknode(9)),
        Ok(PreparedFilenode {
            path: RepoPath::FilePath(path("f")),
            info: FilenodeInfo { filenode: filenode(1), p1: Some(filenode(2)), p2: None, copyfrom: None, linknode: linknode(9) },
        })
    );
    let copied = HgFileEnvelope { copy_info: CopyInfo::CopiedFrom(path("old"), filenode(5)), ..envelope.clone() };
    assert_eq!(
        create_file_filenode(Some(path("f")), copied, linknode(9)).unwrap().info.copyfrom,
        Some((RepoPath::FilePath(path("old")), filenode(5)))
    );
    let malformed = HgFileEnvelope { copy_info: CopyInfo::Malformed, ..envelope };
    assert_eq!(
        create_file_filenode(Some(path("f")), malformed.clone(), linknode(9)),
        Err(Error::StructuralViolation(Violation::MalformedCopyInfo))
    );
    // the first entry without a record decides
    let loaded = vec![
        LoadedEntry { path: Some(path("ok")), envelope: Envelope::Manifest(HgManifestEnvelope { node_id: hash(1), p1: None, p2: None }) },
        LoadedEntry { path: Some(path("bad")), envelope: Envelope::File(malformed.clone()) },
        LoadedEntry { path: None, envelope: Envelope::File(malformed) },
    ];
    assert_eq!(generate_all_filenodes(loaded, linknode(9)), Err(Error::StructuralViolation(Violation::MalformedCopyInfo)));
    assert_eq!(generate_all_filenodes(vec![], linknode(9)), Ok(vec![]));
    assert!(MPath::new(vec![]).is_none());
}

#[test]
fn manifest_record_is_at_root_without_path() {
    let envelope = HgManifestEnvelope { node_id: hash(4), p1: Some(hash(2)), p2: Some(hash(3)) };
    assert_eq!(
        create_manifest_filenode(None, envelope, linknode(9)),
        PreparedFilenode {
            path: RepoPath::RootPath,
            info: FilenodeInfo { filenode: filenode(4), p1: Some(filenode(2)), p2: Some(filenode(3)), copyfrom: None, linknode: linknode(9) },
        }
    );
    assert_eq!(create_manifest_filenode(Some(path("d")), envelope, linknode(9)).path, RepoPath::DirectoryPath(path("d")));
}

#[test]
fn classify_tells_root_from_others() {
    let root = PreparedFilenode { path: RepoPath::RootPath, info: info(1) };
    match classify_filenode(root.clone()) {
        Classified::Root(r) => assert_eq!(r.filenode, filenode(1)),
        Classified::Other(_) => panic!("the root was not recognised"),
    }
    let file = PreparedFilenode { path: RepoPath::FilePath(path("a")), info: info(2) };
    assert_eq!(classify_filenode(file.clone()), Classified::Other(file.clone()));
    let dir = PreparedFilenode { path: RepoPath::DirectoryPath(path("a")), info: info(3) };
    let (roots, others) = partition_filenodes(vec![file.clone(), root.clone(), dir.clone()]);
    assert_eq!(roots, vec![PreparedRootFilenode::try_from(root).unwrap()]);
    assert_eq!(others, vec![file, dir]);
}

#[test]
fn root_records_convert_both_ways() {
    let root = PreparedRootFilenode {
        filenode: filenode(1),
        p1: Some(filenode(2)),
        p2: None,
        copyfrom: Some((RepoPath::FilePath(path("x")), filenode(3))),
        linknode: linknode(4),
    };
    let record = PreparedFilenode::from(root.clone());
    assert_eq!(record.path, RepoPath::RootPath);
    assert_eq!(record.info.copyfrom, root.copyfrom);
    assert_eq!(PreparedRootFilenode::try_from(record), Ok(root.clone()));
    let elsewhere = PreparedFilenode { path: RepoPath::DirectoryPath(path("d")), info: info(1) };
    assert_eq!(
        PreparedRootFilenode::try_from(elsewhere),
        Err(Error::StructuralViolation(Violation::UnexpectedPathForRoot))
    );
    assert_eq!(root.duplicate(), root);
    assert!(RepoPath::RootPath.is_root());
    assert!(!RepoPath::FilePath(path("x")).is_root());
    assert!(RepoPath::FilePath(path("x")).same(&RepoPath::FilePath(path("x")).duplicate()));
    assert!(!RepoPath::FilePath(path("x")).same(&RepoPath::DirectoryPath(path("x"))));
    assert!(!path("x").same(&path("y")));
    assert!(!path("x").same(&path("xy")));
}

#[test]
fn files_that_reuse_a_revision_are_dropped_from_the_diff() {
    let leaf = |t, n| Entry::Leaf(t, filenode(n));
    let tree = |n| Entry::Tree(HgManifestId::new(hash(n)));
    assert!(is_reused(&leaf(FileType::Executable, 1), &vec![tree(1), leaf(FileType::Regular, 1)]));
    assert!(!is_reused(&leaf(FileType::Regular, 1), &vec![tree(1), leaf(FileType::Regular, 2)]));
    assert!(!is_reused(&leaf(FileType::Regular, 1), &vec![]));
    assert!(!is_reused(&tree(1), &vec![tree(1)]));
    let diff = vec![
        DiffItem { path: None, entry: tree(9), parent_entries: vec![tree(8)] },
        DiffItem { path: Some(path("same")), entry: leaf(FileType::Symlink, 1), parent_entries: vec![leaf(FileType::Regular, 1)] },
        DiffItem { path: Some(path("new")), entry: leaf(FileType::Regular, 2), parent_entries: vec![] },
    ];
    assert_eq!(
        changed_entries(diff),
        vec![
            ChangedEntry { path: None, entry: tree(9) },
            ChangedEntry { path: Some(path("new")), entry: leaf(FileType::Regular, 2) },
        ]
    );
}

#[test]
fn root_record_lookup_goes_by_the_tree() {
    assert_eq!(fetch_root_filenode(None), RootFilenodeStep::Found(FilenodeResult::Present(None)));
    assert_eq!(fetch_root_filenode(Some(linknode(1))), RootFilenodeStep::FetchManifestId(linknode(1)));
    assert_eq!(root_filenode_of_manifest(HgManifestId::new(hash(7))), RootFilenodeStep::GetFilenode(filenode(7)));
    let null = PreparedRootFilenode {
        filenode: HgFileNodeId::new(HgNodeHash::null()),
        p1: None,
        p2: None,
        copyfrom: None,
        linknode: HgChangesetId::new(HgNodeHash::null()),
    };
    assert_eq!(
        root_filenode_of_manifest(HgManifestId::new(HgNodeHash::null())),
        RootFilenodeStep::Found(FilenodeResult::Present(Some(null)))
    );
    assert_eq!(root_filenode_of_info(FilenodeResult::Disabled), Ok(FilenodeResult::Disabled));
    assert_eq!(root_filenode_of_info(FilenodeResult::Present(None)), Ok(FilenodeResult::Present(None)));
    let found = root_filenode_of_info(FilenodeResult::Present(Some(info(3)))).unwrap();
    assert_eq!(
        found,
        FilenodeResult::Present(Some(PreparedRootFilenode {
            filenode: filenode(3),
            p1: None,
            p2: None,
            copyfrom: None,
            linknode: linknode(100),
        }))
    );
    let mapping = FilenodesOnlyPublicMapping::new(RepositoryId::new(3));
    assert_eq!(mapping.get_repoid(), RepositoryId::new(3));
    assert_eq!(mapping.put(cs(1), FilenodesOnlyPublic::Disabled), vec![]);
    assert_eq!(mapping.put(cs(1), FilenodesOnlyPublic::Present { root_filenode: None }), vec![]);
    assert_eq!(mapping.get(vec![(cs(1), FilenodeResult::Present(None))]), vec![]);
}
