//! File history records ("filenodes") and their derivation for one changeset.
//!
//! A changeset's records are made from the entries of its tree that differ
//! from the entry at the same path in every parent. One record describes the
//! root of the tree; it is the derived value. The others are stored beside it.

use crate::error::{Error, Violation};
use crate::types::{
    ChangesetId, HgChangesetId, HgFileNodeId, HgManifestId, HgNodeHash, MPath, RepositoryId,
};
use vstd::prelude::*;

verus! {

/// Where a record lives in the tree.
#[derive(Clone, Debug, PartialEq, Eq, Hash)]
pub enum RepoPath {
    RootPath,
    DirectoryPath(MPath),
    FilePath(MPath),
}

/// A `RepoPath` as a mathematical value.
pub enum RepoPathView {
    Root,
    Directory(Seq<u8>),
    File(Seq<u8>),
}

impl View for RepoPath {
    type V = RepoPathView;

    open spec fn view(&self) -> RepoPathView {
        match self {
            RepoPath::RootPath => RepoPathView::Root,
            RepoPath::DirectoryPath(p) => RepoPathView::Directory(p@),
            RepoPath::FilePath(p) => RepoPathView::File(p@),
        }
    }
}

impl RepoPath {
    /// Whether this is the path of the root.
    pub fn is_root(&self) -> (root: bool)
        ensures
            root == (self@ is Root),
    {
        match self {
            RepoPath::RootPath => true,
            _ => false,
        }
    }

    /// A second path with the same bytes.
    pub fn duplicate(&self) -> (copy: RepoPath)
        ensures
            copy@ == self@,
    {
        match self {
            RepoPath::RootPath => RepoPath::RootPath,
            RepoPath::DirectoryPath(p) => RepoPath::DirectoryPath(p.duplicate()),
            RepoPath::FilePath(p) => RepoPath::FilePath(p.duplicate()),
        }
    }

    /// Whether two paths are of the same kind and hold the same bytes.
    pub fn same(&self, other: &RepoPath) -> (eq: bool)
        ensures
            eq == (self@ == other@),
    {
        match (self, other) {
            (RepoPath::RootPath, RepoPath::RootPath) => true,
            (RepoPath::DirectoryPath(a), RepoPath::DirectoryPath(b)) => a.same(b),
            (RepoPath::FilePath(a), RepoPath::FilePath(b)) => a.same(b),
            _ => false,
        }
    }
}

/// What is recorded of one revision of a file or tree node.
#[derive(Clone, Debug, PartialEq, Eq)]
pub struct FilenodeInfo {
    pub filenode: HgFileNodeId,
    pub p1: Option<HgFileNodeId>,
    pub p2: Option<HgFileNodeId>,
    pub copyfrom: Option<(RepoPath, HgFileNodeId)>,
    pub linknode: HgChangesetId,
}

/// A `FilenodeInfo`, or a `PreparedRootFilenode`, as a mathematical value.
pub struct FilenodeInfoView {
    pub filenode: HgFileNodeId,
    pub p1: Option<HgFileNodeId>,
    pub p2: Option<HgFileNodeId>,
    pub copyfrom: Option<(RepoPathView, HgFileNodeId)>,
    pub linknode: HgChangesetId,
}

/// A copy source as a mathematical value.
pub open spec fn copyfrom_view(copyfrom: Option<(RepoPath, HgFileNodeId)>) -> Option<
    (RepoPathView, HgFileNodeId),
> {
    match copyfrom {
        Some((path, node)) => Some((path@, node)),
        None => None,
    }
}

fn duplicate_copyfrom(copyfrom: &Option<(RepoPath, HgFileNodeId)>) -> (copy: Option<
    (RepoPath, HgFileNodeId),
>)
    ensures
        copyfrom_view(copy) == copyfrom_view(*copyfrom),
{
    match copyfrom {
        Some((path, node)) => Some((path.duplicate(), *node)),
        None => None,
    }
}

impl View for FilenodeInfo {
    type V = FilenodeInfoView;

    open spec fn view(&self) -> FilenodeInfoView {
        FilenodeInfoView {
            filenode: self.filenode,
            p1: self.p1,
            p2: self.p2,
            copyfrom: copyfrom_view(self.copyfrom),
            linknode: self.linknode,
        }
    }
}

impl FilenodeInfo {
    pub fn duplicate(&self) -> (copy: FilenodeInfo)
        ensures
            copy@ == self@,
    {
        FilenodeInfo {
            filenode: self.filenode,
            p1: self.p1,
            p2: self.p2,
            copyfrom: duplicate_copyfrom(&self.copyfrom),
            linknode: self.linknode,
        }
    }
}

/// A record ready to be stored: a path and what is recorded at it.
#[derive(Clone, Debug, PartialEq, Eq)]
pub struct PreparedFilenode {
    pub path: RepoPath,
    pub info: FilenodeInfo,
}

/// A `PreparedFilenode` as a mathematical value.
pub struct PreparedFilenodeView {
    pub path: RepoPathView,
    pub info: FilenodeInfoView,
}

impl View for PreparedFilenode {
    type V = PreparedFilenodeView;

    open spec fn view(&self) -> PreparedFilenodeView {
        PreparedFilenodeView { path: self.path@, info: self.info@ }
    }
}

/// The record of a tree's root. Its path is the root path, so it holds none.
#[derive(Clone, Debug, PartialEq, Eq)]
pub struct PreparedRootFilenode {
    pub filenode: HgFileNodeId,
    pub p1: Option<HgFileNodeId>,
    pub p2: Option<HgFileNodeId>,
    pub copyfrom: Option<(RepoPath, HgFileNodeId)>,
    pub linknode: HgChangesetId,
}

impl View for PreparedRootFilenode {
    type V = FilenodeInfoView;

    open spec fn view(&self) -> FilenodeInfoView {
        FilenodeInfoView {
            filenode: self.filenode,
            p1: self.p1,
            p2: self.p2,
            copyfrom: copyfrom_view(self.copyfrom),
            linknode: self.linknode,
        }
    }
}

impl PreparedRootFilenode {
    pub fn duplicate(&self) -> (copy: PreparedRootFilenode)
        ensures
            copy@ == self@,
    {
        PreparedRootFilenode {
            filenode: self.filenode,
            p1: self.p1,
            p2: self.p2,
            copyfrom: duplicate_copyfrom(&self.copyfrom),
            linknode: self.linknode,
        }
    }
}

impl From<PreparedRootFilenode> for PreparedFilenode {
    /// The record at the root path with the fields of `root_filenode`.
    fn from(root_filenode: PreparedRootFilenode) -> (res: Self) {
        let PreparedRootFilenode { filenode, p1, p2, copyfrom, linknode } = root_filenode;

        PreparedFilenode {
            path: RepoPath::RootPath,
            info: FilenodeInfo { filenode, p1, p2, copyfrom, linknode },
        }
    }
}

impl vstd::std_specs::convert::FromSpecImpl<PreparedRootFilenode> for PreparedFilenode {
    open spec fn obeys_from_spec() -> bool {
        true
    }

    open spec fn from_spec(v: PreparedRootFilenode) -> PreparedFilenode {
        PreparedFilenode {
            path: RepoPath::RootPath,
            info: FilenodeInfo {
                filenode: v.filenode,
                p1: v.p1,
                p2: v.p2,
                copyfrom: v.copyfrom,
                linknode: v.linknode,
            },
        }
    }
}

/// The root record that `filenode` holds, where its path is the root path.
pub open spec fn root_of(filenode: PreparedFilenode) -> PreparedRootFilenode {
    PreparedRootFilenode {
        filenode: filenode.info.filenode,
        p1: filenode.info.p1,
        p2: filenode.info.p2,
        copyfrom: filenode.info.copyfrom,
        linknode: filenode.info.linknode,
    }
}

impl TryFrom<PreparedFilenode> for PreparedRootFilenode {
    type Error = Error;

    /// Succeeds on the records at the root path, and on no others.
    fn try_from(filenode: PreparedFilenode) -> (res: Result<Self, Error>) {
        let PreparedFilenode { path, info } = filenode;

        let FilenodeInfo { filenode, p1, p2, copyfrom, linknode } = info;

        if !path.is_root() {
            return Err(Error::StructuralViolation(Violation::UnexpectedPathForRoot));
        }
        Ok(PreparedRootFilenode { filenode, p1, p2, copyfrom, linknode })
    }
}

impl vstd::std_specs::convert::TryFromSpecImpl<PreparedFilenode> for PreparedRootFilenode {
    open spec fn obeys_try_from_spec() -> bool {
        true
    }

    open spec fn try_from_spec(v: PreparedFilenode) -> Result<PreparedRootFilenode, Error> {
        if v.path@ is Root {
            Ok(root_of(v))
        } else {
            Err(Error::StructuralViolation(Violation::UnexpectedPathForRoot))
        }
    }
}


/// The kind of a file.
#[derive(Clone, Copy, Debug, PartialEq, Eq, Hash, Structural)]
pub enum FileType {
    Regular,
    Executable,
    Symlink,
}

/// What a tree holds at one path: a subtree, or a file of some kind.
#[derive(Clone, Copy, Debug, PartialEq, Eq, Hash, Structural)]
pub enum Entry {
    Tree(HgManifestId),
    Leaf(FileType, HgFileNodeId),
}

/// What the blob store holds about one tree node.
#[derive(Clone, Copy, Debug, PartialEq, Eq, Structural)]
pub struct HgManifestEnvelope {
    pub node_id: HgNodeHash,
    pub p1: Option<HgNodeHash>,
    pub p2: Option<HgNodeHash>,
}

impl HgManifestEnvelope {
    pub fn node_id(&self) -> (id: HgNodeHash)
        ensures
            id == self.node_id,
    {
        self.node_id
    }

    pub fn parents(&self) -> (parents: (Option<HgNodeHash>, Option<HgNodeHash>))
        ensures
            parents == (self.p1, self.p2),
    {
        (self.p1, self.p2)
    }
}

/// The copy information in the metadata of a file revision, as far as it
/// could be read.
#[derive(Clone, Debug, PartialEq, Eq)]
pub enum CopyInfo {
    NotCopied,
    CopiedFrom(MPath, HgFileNodeId),
    Malformed,
}

/// What the blob store holds about one revision of a file.
#[derive(Clone, Debug, PartialEq, Eq)]
pub struct HgFileEnvelope {
    pub node_id: HgFileNodeId,
    pub p1: Option<HgFileNodeId>,
    pub p2: Option<HgFileNodeId>,
    pub copy_info: CopyInfo,
}

impl HgFileEnvelope {
    pub fn node_id(&self) -> (id: HgFileNodeId)
        ensures
            id == self.node_id,
    {
        self.node_id
    }

    pub fn parents(&self) -> (parents: (Option<HgFileNodeId>, Option<HgFileNodeId>))
        ensures
            parents == (self.p1, self.p2),
    {
        (self.p1, self.p2)
    }
}

/// The id of a tree node as the id of a record.
pub open spec fn node_as_filenode(node: Option<HgNodeHash>) -> Option<HgFileNodeId> {
    match node {
        Some(hash) => Some(HgFileNodeId { hash }),
        None => None,
    }
}

/// The record of a tree node: at the root path where `path` is `None`, at a
/// directory path otherwise. It has no copy source.
pub open spec fn manifest_filenode(
    path: Option<MPath>,
    envelope: HgManifestEnvelope,
    linknode: HgChangesetId,
) -> PreparedFilenode {
    PreparedFilenode {
        path: match path {
            Some(path) => RepoPath::DirectoryPath(path),
            None => RepoPath::RootPath,
        },
        info: FilenodeInfo {
            filenode: HgFileNodeId { hash: envelope.node_id },
            p1: node_as_filenode(envelope.p1),
            p2: node_as_filenode(envelope.p2),
            copyfrom: None,
            linknode,
        },
    }
}

/// The record of a file revision. A file has a path, and its copy
/// information must be readable.
pub open spec fn file_filenode(
    path: Option<MPath>,
    envelope: HgFileEnvelope,
    linknode: HgChangesetId,
) -> Result<PreparedFilenode, Error> {
    match path {
        None => Err(Error::StructuralViolation(Violation::UnexpectedEmptyFilePath)),
        Some(path) => match envelope.copy_info {
            CopyInfo::Malformed => Err(Error::StructuralViolation(Violation::MalformedCopyInfo)),
            CopyInfo::NotCopied => Ok(
                PreparedFilenode {
                    path: RepoPath::FilePath(path),
                    info: FilenodeInfo {
                        filenode: envelope.node_id,
                        p1: envelope.p1,
                        p2: envelope.p2,
                        copyfrom: None,
                        linknode,
                    },
                },
            ),
            CopyInfo::CopiedFrom(from, node) => Ok(
                PreparedFilenode {
                    path: RepoPath::FilePath(path),
                    info: FilenodeInfo {
                        filenode: envelope.node_id,
                        p1: envelope.p1,
                        p2: envelope.p2,
                        copyfrom: Some((RepoPath::FilePath(from), node)),
                        linknode,
                    },
                },
            ),
        },
    }
}

fn filenode_of_node(node: Option<HgNodeHash>) -> (id: Option<HgFileNodeId>)
    ensures
        id == node_as_filenode(node),
{
    match node {
        Some(hash) => Some(HgFileNodeId::new(hash)),
        None => None,
    }
}

/// Makes the record of a tree node from its envelope: at the root path
/// where the node has no path, at a directory path otherwise.
pub fn create_manifest_filenode(
    path: Option<MPath>,
    envelope: HgManifestEnvelope,
    linknode: HgChangesetId,
) -> (filenode: PreparedFilenode)
    ensures
        filenode == manifest_filenode(path, envelope, linknode),
{
    let path = match path {
        Some(path) => RepoPath::DirectoryPath(path),
        None => RepoPath::RootPath,
    };
    let filenode = HgFileNodeId::new(envelope.node_id());
    let (p1, p2) = envelope.parents();
    let p1 = filenode_of_node(p1);
    let p2 = filenode_of_node(p2);

    PreparedFilenode { path, info: FilenodeInfo { filenode, p1, p2, copyfrom: None, linknode } }
}

/// Makes the record of a file revision from its envelope. A file without
/// a path, or with copy information that cannot be read, has no record.
pub fn create_file_filenode(
    path: Option<MPath>,
    envelope: HgFileEnvelope,
    linknode: HgChangesetId,
) -> (res: Result<PreparedFilenode, Error>)
    ensures
        res == file_filenode(path, envelope, linknode),
{
    let path = match path {
        Some(path) => RepoPath::FilePath(path),
        None => {
            return Err(Error::StructuralViolation(Violation::UnexpectedEmptyFilePath));
        },
    };
    let filenode = envelope.node_id();
    let (p1, p2) = envelope.parents();
    let copyfrom = match envelope.copy_info {
        CopyInfo::Malformed => {
            return Err(Error::StructuralViolation(Violation::MalformedCopyInfo));
        },
        CopyInfo::NotCopied => None,
        CopyInfo::CopiedFrom(from, node) => Some((RepoPath::FilePath(from), node)),
    };

    Ok(PreparedFilenode { path, info: FilenodeInfo { filenode, p1, p2, copyfrom, linknode } })
}

/// A record, told apart by whether it describes the root.
#[derive(Clone, Debug, PartialEq, Eq)]
pub enum Classified {
    Root(PreparedRootFilenode),
    Other(PreparedFilenode),
}

/// Tells the record of the root from the others.
pub fn classify_filenode(filenode: PreparedFilenode) -> (class: Classified)
    ensures
        filenode.path@ is Root ==> class == Classified::Root(root_of(filenode)),
        !(filenode.path@ is Root) ==> class == Classified::Other(filenode),
{
    if filenode.path.is_root() {
        let FilenodeInfo { filenode, p1, p2, copyfrom, linknode } = filenode.info;

        Classified::Root(PreparedRootFilenode { filenode, p1, p2, copyfrom, linknode })
    } else {
        Classified::Other(filenode)
    }
}


/// One entry that a tree diff reports: an entry of the changeset's tree that
/// is not the entry at its path in any parent, with what the parents hold at
/// that path. The root of the tree has no path.
#[derive(Clone, Debug, PartialEq, Eq)]
pub struct DiffItem {
    pub path: Option<MPath>,
    pub entry: Entry,
    pub parent_entries: Vec<Entry>,
}

/// An entry for which a record is to be made.
#[derive(Clone, Debug, PartialEq, Eq)]
pub struct ChangedEntry {
    pub path: Option<MPath>,
    pub entry: Entry,
}

/// Whether `entry` is a file whose revision is the revision of a file among
/// `parent_entries`. Such a file differs from the parent's in its kind only,
/// and gets no record of its own.
pub open spec fn reuses_parent_filenode(entry: Entry, parent_entries: Seq<Entry>) -> bool {
    match entry {
        Entry::Tree(_) => false,
        Entry::Leaf(_, id) => exists|i: int|
            0 <= i < parent_entries.len() && #[trigger] is_revision(parent_entries[i], id),
    }
}

/// Whether `entry` is a file with the revision `id`, of whatever kind.
pub open spec fn is_revision(entry: Entry, id: HgFileNodeId) -> bool {
    match entry {
        Entry::Tree(_) => false,
        Entry::Leaf(_, entry_id) => entry_id == id,
    }
}

/// Whether `entry` is a file whose revision a file among `parent_entries`
/// has.
pub fn is_reused(entry: &Entry, parent_entries: &Vec<Entry>) -> (reused: bool)
    ensures
        reused == reuses_parent_filenode(*entry, parent_entries@),
{
    let id = match entry {
        Entry::Tree(_) => {
            return false;
        },
        Entry::Leaf(_, id) => *id,
    };
    let mut i: usize = 0;
    while i < parent_entries.len()
        invariant
            *entry is Leaf,
            entry->Leaf_1 == id,
            i <= parent_entries.len(),
            forall|j: int| 0 <= j < i ==> !#[trigger] is_revision(parent_entries@[j], id),
        decreases parent_entries.len() - i,
    {
        match parent_entries[i] {
            Entry::Leaf(_, parent_id) => {
                if parent_id == id {
                    assert(is_revision(parent_entries@[i as int], id));
                    return true;
                }
            },
            Entry::Tree(_) => {},
        }
        i += 1;
    }
    false
}

/// The entries of `diff` that get a record, in the order of `diff`: all but
/// the files that reuse a parent's revision.
pub open spec fn changed_entries_of(diff: Seq<DiffItem>) -> Seq<ChangedEntry>
    decreases diff.len(),
{
    if diff.len() == 0 {
        Seq::empty()
    } else {
        let rest = changed_entries_of(diff.drop_last());
        let last = diff.last();
        if reuses_parent_filenode(last.entry, last.parent_entries@) {
            rest
        } else {
            rest.push(ChangedEntry { path: last.path, entry: last.entry })
        }
    }
}

/// Picks from a tree diff the entries whose envelopes are to be loaded.
pub fn changed_entries(diff: Vec<DiffItem>) -> (changed: Vec<ChangedEntry>)
    ensures
        changed@ == changed_entries_of(diff@),
{
    let mut changed: Vec<ChangedEntry> = Vec::new();
    for item in it: diff
        invariant
            it.seq() == diff@,
            changed@ == changed_entries_of(it.seq().take(it.index())),
    {
        proof {
            let next = it.seq().take(it.index() + 1);
            assert(next.drop_last() =~= it.seq().take(it.index()));
            assert(next.last() == item);
        }
        if !is_reused(&item.entry, &item.parent_entries) {
            changed.push(ChangedEntry { path: item.path, entry: item.entry });
        }
    }
    proof {
        assert(diff@.take(diff@.len() as int) =~= diff@);
    }
    changed
}

/// What was loaded for a changed entry.
#[derive(Clone, Debug, PartialEq, Eq)]
pub enum Envelope {
    Manifest(HgManifestEnvelope),
    File(HgFileEnvelope),
}

/// A changed entry together with its envelope.
#[derive(Clone, Debug, PartialEq, Eq)]
pub struct LoadedEntry {
    pub path: Option<MPath>,
    pub envelope: Envelope,
}

/// The record of one loaded entry.
pub open spec fn filenode_of(loaded: LoadedEntry, linknode: HgChangesetId) -> Result<
    PreparedFilenode,
    Error,
> {
    match loaded.envelope {
        Envelope::Manifest(envelope) => Ok(manifest_filenode(loaded.path, envelope, linknode)),
        Envelope::File(envelope) => file_filenode(loaded.path, envelope, linknode),
    }
}

/// Whether `res` is what making the records of `loaded` gives: the records
/// in the order of the entries where every entry has one, and the error of
/// the first entry without a record otherwise.
pub open spec fn is_generated(
    res: Result<Vec<PreparedFilenode>, Error>,
    loaded: Seq<LoadedEntry>,
    linknode: HgChangesetId,
) -> bool {
    &&& res is Ok <==> forall|i: int|
        0 <= i < loaded.len() ==> (#[trigger] filenode_of(loaded[i], linknode)) is Ok
    &&& res matches Ok(filenodes) ==> filenodes@.len() == loaded.len() && forall|i: int|
        0 <= i < loaded.len() ==> filenode_of(loaded[i], linknode) == Ok::<PreparedFilenode, Error>(
            #[trigger] filenodes@[i],
        )
    &&& res matches Err(e) ==> exists|i: int|
        0 <= i < loaded.len() && (#[trigger] filenode_of(loaded[i], linknode)) == Err::<
            PreparedFilenode,
            Error,
        >(e) && forall|j: int| 0 <= j < i ==> (#[trigger] filenode_of(loaded[j], linknode)) is Ok
}

/// Makes the records of a changeset from its changed entries, each linked to
/// `linknode`. The records come in the order of the entries. Where an entry
/// has no record, the error of the first such entry is returned.
pub fn generate_all_filenodes(loaded: Vec<LoadedEntry>, linknode: HgChangesetId) -> (res: Result<
    Vec<PreparedFilenode>,
    Error,
>)
    ensures
        is_generated(res, loaded@, linknode),
{
    let mut filenodes: Vec<PreparedFilenode> = Vec::new();
    for entry in it: loaded
        invariant
            it.seq() == loaded@,
            filenodes@.len() == it.index(),
            forall|i: int|
                0 <= i < it.index() ==> filenode_of(loaded@[i], linknode) == Ok::<
                    PreparedFilenode,
                    Error,
                >(#[trigger] filenodes@[i]),
            forall|i: int|
                0 <= i < it.index() ==> (#[trigger] filenode_of(loaded@[i], linknode)) is Ok,
    {
        let ghost at = it.index();
        let made = match entry.envelope {
            Envelope::Manifest(envelope) => Ok(
                create_manifest_filenode(entry.path, envelope, linknode),
            ),
            Envelope::File(envelope) => create_file_filenode(entry.path, envelope, linknode),
        };
        match made {
            Ok(filenode) => filenodes.push(filenode),
            Err(e) => {
                assert(0 <= at < loaded@.len());
                assert(filenode_of(loaded@[at], linknode) == Err::<PreparedFilenode, Error>(e));
                return Err(e);
            },
        }
    }
    Ok(filenodes)
}

/// The derived value of a changeset: the record of its tree's root, where
/// the changeset has one of its own, or the sentinel that says that file
/// history is disabled. The sentinel is no data: a reader tests for it.
#[derive(Clone, Debug, PartialEq, Eq)]
pub enum FilenodesOnlyPublic {
    Present { root_filenode: Option<PreparedRootFilenode> },
    Disabled,
}

/// A `FilenodesOnlyPublic` as a mathematical value.
pub enum FilenodesOnlyPublicView {
    Present(Option<FilenodeInfoView>),
    Disabled,
}

impl View for FilenodesOnlyPublic {
    type V = FilenodesOnlyPublicView;

    open spec fn view(&self) -> FilenodesOnlyPublicView {
        match self {
            FilenodesOnlyPublic::Present { root_filenode: Some(root) } => {
                FilenodesOnlyPublicView::Present(Some(root@))
            },
            FilenodesOnlyPublic::Present { root_filenode: None } => {
                FilenodesOnlyPublicView::Present(None)
            },
            FilenodesOnlyPublic::Disabled => FilenodesOnlyPublicView::Disabled,
        }
    }
}

/// What a store of records answers: the result, or that the store is
/// administratively disabled.
#[derive(Clone, Debug, PartialEq, Eq)]
pub enum FilenodeResult<T> {
    Present(T),
    Disabled,
}

/// The root records among `filenodes`, in their order.
pub open spec fn roots_of(filenodes: Seq<PreparedFilenode>) -> Seq<PreparedRootFilenode>
    decreases filenodes.len(),
{
    if filenodes.len() == 0 {
        Seq::empty()
    } else if filenodes.last().path@ is Root {
        roots_of(filenodes.drop_last()).push(root_of(filenodes.last()))
    } else {
        roots_of(filenodes.drop_last())
    }
}

/// The records among `filenodes` that are not at the root, in their order.
pub open spec fn non_roots_of(filenodes: Seq<PreparedFilenode>) -> Seq<PreparedFilenode>
    decreases filenodes.len(),
{
    if filenodes.len() == 0 {
        Seq::empty()
    } else if filenodes.last().path@ is Root {
        non_roots_of(filenodes.drop_last())
    } else {
        non_roots_of(filenodes.drop_last()).push(filenodes.last())
    }
}

/// Parts the root records from the others, keeping the order of each.
pub fn partition_filenodes(filenodes: Vec<PreparedFilenode>) -> (parts: (
    Vec<PreparedRootFilenode>,
    Vec<PreparedFilenode>,
))
    ensures
        parts.0@ == roots_of(filenodes@),
        parts.1@ == non_roots_of(filenodes@),
{
    let mut roots: Vec<PreparedRootFilenode> = Vec::new();
    let mut non_roots: Vec<PreparedFilenode> = Vec::new();
    for filenode in it: filenodes
        invariant
            it.seq() == filenodes@,
            roots@ == roots_of(it.seq().take(it.index())),
            non_roots@ == non_roots_of(it.seq().take(it.index())),
    {
        proof {
            let next = it.seq().take(it.index() + 1);
            assert(next.drop_last() =~= it.seq().take(it.index()));
            assert(next.last() == filenode);
        }
        match classify_filenode(filenode) {
            Classified::Root(root) => roots.push(root),
            Classified::Other(other) => non_roots.push(other),
        }
    }
    proof {
        assert(filenodes@.take(filenodes@.len() as int) =~= filenodes@);
    }
    (roots, non_roots)
}

/// What a derivation does next.
#[derive(Clone, Debug, PartialEq, Eq)]
pub enum DeriveStep {
    /// Find the changed entries of the changeset, load their envelopes, make
    /// the records with `generate_all_filenodes`, and hand them to
    /// `derive_from_parents`.
    GenerateFilenodes,
    /// Store `non_roots`, and hand the store's answer to `filenodes_added`.
    AddFilenodes { root_filenode: PreparedRootFilenode, non_roots: Vec<PreparedFilenode> },
    /// The derivation is over, with this value.
    Finished(FilenodesOnlyPublic),
}

/// The step that opens a derivation: the end, with the sentinel, while
/// file history is disabled, and the generation of the records otherwise.
pub open spec fn first_step(disabled: bool) -> DeriveStep {
    if disabled {
        DeriveStep::Finished(FilenodesOnlyPublic::Disabled)
    } else {
        DeriveStep::GenerateFilenodes
    }
}

/// Whether a step has anything read or stored: every step does but the
/// last.
pub open spec fn touches_content(step: DeriveStep) -> bool {
    !(step is Finished)
}

/// While file history is disabled, the derivation for any changeset gives
/// the sentinel and has nothing read or stored: its first step is its
/// last. And a lookup that the store of records answers with the sentinel
/// ends with the sentinel, not with a record.
pub proof fn law_disabled_mode_touches_no_content(disabled: bool)
    requires
        disabled,
    ensures
        first_step(disabled) == DeriveStep::Finished(FilenodesOnlyPublic::Disabled),
        !touches_content(first_step(disabled)),
        mapped_value(FilenodeResult::Disabled) == Some(FilenodesOnlyPublic::Disabled),
        records_to_put(FilenodesOnlyPublic::Disabled).len() == 0,
{
}

impl FilenodesOnlyPublic {
    /// The name under which this kind of derived data is known.
    pub fn name() -> (name: &'static str)
        ensures
            name@ == "filenodes"@,
    {
        "filenodes"
    }

    /// Opens the derivation for a changeset. While file history is disabled
    /// the derivation ends here, with the sentinel, and asks for no content.
    pub fn start(disabled: bool) -> (step: DeriveStep)
        ensures
            step == first_step(disabled),
    {
        if disabled {
            DeriveStep::Finished(FilenodesOnlyPublic::Disabled)
        } else {
            DeriveStep::GenerateFilenodes
        }
    }

    /// Decides on the records generated for a changeset.
    ///
    /// Without records the changeset has the tree of a parent and gets no
    /// root record of its own: the parent's derivation stored it. Otherwise
    /// exactly one of the records describes the root; the others are to be
    /// stored.
    pub fn derive_from_parents(filenodes: Vec<PreparedFilenode>) -> (res: Result<
        DeriveStep,
        Error,
    >)
        ensures
            filenodes@.len() == 0 ==> res == Ok::<DeriveStep, Error>(
                DeriveStep::Finished(FilenodesOnlyPublic::Present { root_filenode: None }),
            ),
            filenodes@.len() > 0 && roots_of(filenodes@).len() == 1 ==> (res matches Ok(
                DeriveStep::AddFilenodes { root_filenode, non_roots },
            ) && root_filenode == roots_of(filenodes@)[0] && non_roots@ == non_roots_of(
                filenodes@,
            )),
            filenodes@.len() > 0 && roots_of(filenodes@).len() != 1 ==> res == Err::<
                DeriveStep,
                Error,
            >(Error::StructuralViolation(Violation::ExpectedExactlyOneRoot)),
    {
        if filenodes.len() == 0 {
            Ok(DeriveStep::Finished(FilenodesOnlyPublic::Present { root_filenode: None }))
        } else {
            let (mut roots, non_roots) = partition_filenodes(filenodes);
            if roots.len() == 1 {
                let ghost before = roots@;
                match roots.pop() {
                    Some(root_filenode) => {
                        assert(root_filenode == before[0]);
                        Ok(DeriveStep::AddFilenodes { root_filenode, non_roots })
                    },
                    None => Err(Error::StructuralViolation(Violation::ExpectedExactlyOneRoot)),
                }
            } else {
                Err(Error::StructuralViolation(Violation::ExpectedExactlyOneRoot))
            }
        }
    }

    /// The value of a changeset whose other records were handed to the store.
    pub fn filenodes_added(root_filenode: PreparedRootFilenode, added: FilenodeResult<()>) -> (value:
        FilenodesOnlyPublic)
        ensures
            added is Present ==> value == (FilenodesOnlyPublic::Present {
                root_filenode: Some(root_filenode),
            }),
            added is Disabled ==> value == FilenodesOnlyPublic::Disabled,
    {
        match added {
            FilenodeResult::Present(()) => FilenodesOnlyPublic::Present {
                root_filenode: Some(root_filenode),
            },
            FilenodeResult::Disabled => FilenodesOnlyPublic::Disabled,
        }
    }
}


/// What the lookup of a changeset's root record does next.
#[derive(Clone, Debug, PartialEq, Eq)]
pub enum RootFilenodeStep {
    /// Load the legacy changeset and hand the id of its tree to
    /// `root_filenode_of_manifest`.
    FetchManifestId(HgChangesetId),
    /// Ask the store for the record at the root path with this id, and hand
    /// its answer to `root_filenode_of_info`.
    GetFilenode(HgFileNodeId),
    /// The lookup is over.
    Found(FilenodeResult<Option<PreparedRootFilenode>>),
}

/// The root record of the empty tree.
pub open spec fn null_root_filenode() -> PreparedRootFilenode {
    PreparedRootFilenode {
        filenode: HgFileNodeId { hash: crate::types::null_hash() },
        p1: None,
        p2: None,
        copyfrom: None,
        linknode: HgChangesetId { hash: crate::types::null_hash() },
    }
}

/// Opens the lookup of the root record of a changeset, given its legacy id
/// where it has one. A changeset without a legacy id has no root record.
pub fn fetch_root_filenode(maybe_hg_cs_id: Option<HgChangesetId>) -> (step: RootFilenodeStep)
    ensures
        step == (match maybe_hg_cs_id {
            None => RootFilenodeStep::Found(FilenodeResult::Present(None)),
            Some(hg_cs_id) => RootFilenodeStep::FetchManifestId(hg_cs_id),
        }),
{
    match maybe_hg_cs_id {
        None => RootFilenodeStep::Found(FilenodeResult::Present(None)),
        Some(hg_cs_id) => RootFilenodeStep::FetchManifestId(hg_cs_id),
    }
}

/// Goes on with the id of the changeset's tree. The empty tree has a record
/// that no store holds; any other is looked up under the tree's id.
pub fn root_filenode_of_manifest(mf_id: HgManifestId) -> (step: RootFilenodeStep)
    ensures
        mf_id.hash == crate::types::null_hash() ==> step == RootFilenodeStep::Found(
            FilenodeResult::Present(Some(null_root_filenode())),
        ),
        mf_id.hash != crate::types::null_hash() ==> step == RootFilenodeStep::GetFilenode(
            HgFileNodeId { hash: mf_id.hash },
        ),
{
    let mf_id = mf_id.into_nodehash();
    if mf_id == HgNodeHash::null() {
        RootFilenodeStep::Found(
            FilenodeResult::Present(
                Some(
                    PreparedRootFilenode {
                        filenode: HgFileNodeId::new(HgNodeHash::null()),
                        p1: None,
                        p2: None,
                        copyfrom: None,
                        linknode: HgChangesetId::new(HgNodeHash::null()),
                    },
                ),
            ),
        )
    } else {
        RootFilenodeStep::GetFilenode(HgFileNodeId::new(mf_id))
    }
}

/// The root record with the fields of `info`.
pub open spec fn root_of_info(info: FilenodeInfo) -> PreparedRootFilenode {
    PreparedRootFilenode {
        filenode: info.filenode,
        p1: info.p1,
        p2: info.p2,
        copyfrom: info.copyfrom,
        linknode: info.linknode,
    }
}

/// Ends the lookup with the store's answer for the root path.
pub fn root_filenode_of_info(filenode_res: FilenodeResult<Option<FilenodeInfo>>) -> (res: Result<
    FilenodeResult<Option<PreparedRootFilenode>>,
    Error,
>)
    ensures
        res == Ok::<FilenodeResult<Option<PreparedRootFilenode>>, Error>(
            match filenode_res {
                FilenodeResult::Disabled => FilenodeResult::Disabled,
                FilenodeResult::Present(None) => FilenodeResult::Present(None),
                FilenodeResult::Present(Some(info)) => FilenodeResult::Present(
                    Some(root_of_info(info)),
                ),
            },
        ),
{
    match filenode_res {
        FilenodeResult::Present(maybe_info) => {
            let info = match maybe_info {
                Some(info) => {
                    let root = PreparedRootFilenode::try_from(
                        PreparedFilenode { path: RepoPath::RootPath, info },
                    )?;
                    Some(root)
                },
                None => None,
            };
            Ok(FilenodeResult::Present(info))
        },
        FilenodeResult::Disabled => Ok(FilenodeResult::Disabled),
    }
}

/// The mapping from changesets to their derived values. It holds no values
/// itself: they are read from, and written to, the store of records.
#[derive(Clone, Copy, Debug, PartialEq, Eq, Structural)]
pub struct FilenodesOnlyPublicMapping {
    repo_id: RepositoryId,
}

/// The value that a changeset has in the mapping, given what the lookup of
/// its root record found: none where there is no record.
pub open spec fn mapped_value(found: FilenodeResult<Option<PreparedRootFilenode>>) -> Option<
    FilenodesOnlyPublic,
> {
    match found {
        FilenodeResult::Disabled => Some(FilenodesOnlyPublic::Disabled),
        FilenodeResult::Present(Some(root)) => Some(
            FilenodesOnlyPublic::Present { root_filenode: Some(root) },
        ),
        FilenodeResult::Present(None) => None,
    }
}

/// The changesets of `found` that have a value, each with its value, in the
/// order of `found`.
pub open spec fn mapped_values(
    found: Seq<(ChangesetId, FilenodeResult<Option<PreparedRootFilenode>>)>,
) -> Seq<(ChangesetId, FilenodesOnlyPublic)>
    decreases found.len(),
{
    if found.len() == 0 {
        Seq::empty()
    } else {
        let rest = mapped_values(found.drop_last());
        match mapped_value(found.last().1) {
            Some(value) => rest.push((found.last().0, value)),
            None => rest,
        }
    }
}

/// The records that storing `id` adds to the store.
pub open spec fn records_to_put(id: FilenodesOnlyPublic) -> Seq<PreparedFilenode> {
    match id {
        FilenodesOnlyPublic::Present { root_filenode: Some(root) } => seq![
            PreparedFilenode {
                path: RepoPath::RootPath,
                info: FilenodeInfo {
                    filenode: root.filenode,
                    p1: root.p1,
                    p2: root.p2,
                    copyfrom: root.copyfrom,
                    linknode: root.linknode,
                },
            },
        ],
        _ => Seq::empty(),
    }
}

impl FilenodesOnlyPublicMapping {
    /// The mapping of the repository `repo_id`.
    pub fn new(repo_id: RepositoryId) -> (mapping: Self)
        ensures
            mapping.repo_id() == repo_id,
    {
        Self { repo_id }
    }

    pub closed spec fn repo_id(&self) -> RepositoryId {
        self.repo_id
    }

    /// The repository whose store of records backs the mapping.
    pub fn get_repoid(&self) -> (repo_id: RepositoryId)
        ensures
            repo_id == self.repo_id(),
    {
        self.repo_id
    }

    /// The values of the changesets that were looked up: the sentinel where
    /// the store is disabled, the root record where there is one, and no
    /// value otherwise.
    pub fn get(
        &self,
        found: Vec<(ChangesetId, FilenodeResult<Option<PreparedRootFilenode>>)>,
    ) -> (values: Vec<(ChangesetId, FilenodesOnlyPublic)>)
        ensures
            values@ == mapped_values(found@),
    {
        let mut values: Vec<(ChangesetId, FilenodesOnlyPublic)> = Vec::new();
        for pair in it: found
            invariant
                it.seq() == found@,
                values@ == mapped_values(it.seq().take(it.index())),
        {
            proof {
                let next = it.seq().take(it.index() + 1);
                assert(next.drop_last() =~= it.seq().take(it.index()));
                assert(next.last() == pair);
            }
            let (cs_id, filenode_res) = pair;
            match filenode_res {
                FilenodeResult::Present(Some(filenode)) => {
                    values.push(
                        (cs_id, FilenodesOnlyPublic::Present { root_filenode: Some(filenode) }),
                    );
                },
                FilenodeResult::Present(None) => {},
                FilenodeResult::Disabled => {
                    values.push((cs_id, FilenodesOnlyPublic::Disabled));
                },
            }
        }
        proof {
            assert(found@.take(found@.len() as int) =~= found@);
        }
        values
    }

    /// The records to hand to the store so that `id` is remembered: the root
    /// record where `id` has one, nothing otherwise. A store that is
    /// disabled refuses them, which is no failure.
    pub fn put(&self, _csid: ChangesetId, id: FilenodesOnlyPublic) -> (records: Vec<
        PreparedFilenode,
    >)
        ensures
            records@ == records_to_put(id),
    {
        let root_filenode = match id {
            FilenodesOnlyPublic::Present { root_filenode } => root_filenode,
            FilenodesOnlyPublic::Disabled => None,
        };

        let mut records: Vec<PreparedFilenode> = Vec::new();
        match root_filenode {
            Some(root_filenode) => {
                records.push(PreparedFilenode::from(root_filenode));
            },
            None => {},
        }
        records
    }
}


/// One node of a tree held in memory: where it stands, what it is, and its
/// envelope. The root of the tree has no path.
#[derive(Clone, Debug, PartialEq, Eq)]
pub struct TreeNode {
    pub path: Option<MPath>,
    pub entry: Entry,
    pub envelope: Envelope,
}

/// Whether two places in a tree are the same place.
pub open spec fn same_place(a: Option<MPath>, b: Option<MPath>) -> bool {
    match (a, b) {
        (None, None) => true,
        (Some(a), Some(b)) => a@ == b@,
        _ => false,
    }
}

fn is_same_place(a: &Option<MPath>, b: &Option<MPath>) -> (same: bool)
    ensures
        same == same_place(*a, *b),
{
    match (a, b) {
        (None, None) => true,
        (Some(a), Some(b)) => a.same(b),
        _ => false,
    }
}

/// Whether some tree among `parents` holds at the place of `node` the very
/// entry that `node` is.
pub open spec fn unchanged_in_parent(node: TreeNode, parents: Seq<Vec<TreeNode>>) -> bool {
    exists|p: int, i: int|
        0 <= p < parents.len() && 0 <= i < parents[p]@.len() && same_place(
            (#[trigger] parents[p]@[i]).path,
            node.path,
        ) && parents[p]@[i].entry == node.entry
}

/// Whether `node` is a file, and some tree among `parents` holds at the
/// place of `node` a file of the same revision, of whatever kind.
pub open spec fn revision_in_parent(node: TreeNode, parents: Seq<Vec<TreeNode>>) -> bool {
    match node.entry {
        Entry::Tree(_) => false,
        Entry::Leaf(_, id) => exists|p: int, i: int|
            0 <= p < parents.len() && 0 <= i < parents[p]@.len() && same_place(
                (#[trigger] parents[p]@[i]).path,
                node.path,
            ) && is_revision(parents[p]@[i].entry, id),
    }
}

/// Whether `node` gets a record: it differs from what every parent holds at
/// its place, and is no file whose revision a parent holds there.
pub open spec fn is_new(node: TreeNode, parents: Seq<Vec<TreeNode>>) -> bool {
    !unchanged_in_parent(node, parents) && !revision_in_parent(node, parents)
}

/// The nodes of `tree` that get a record, in their order, each with its
/// envelope.
pub open spec fn new_entries(tree: Seq<TreeNode>, parents: Seq<Vec<TreeNode>>) -> Seq<LoadedEntry>
    decreases tree.len(),
{
    if tree.len() == 0 {
        Seq::empty()
    } else if is_new(tree.last(), parents) {
        new_entries(tree.drop_last(), parents).push(
            LoadedEntry { path: tree.last().path, envelope: tree.last().envelope },
        )
    } else {
        new_entries(tree.drop_last(), parents)
    }
}

fn check_new(node: &TreeNode, parents: &Vec<Vec<TreeNode>>) -> (new: bool)
    ensures
        new == is_new(*node, parents@),
{
    let mut p: usize = 0;
    while p < parents.len()
        invariant
            p <= parents.len(),
            forall|q: int, i: int|
                0 <= q < p && 0 <= i < parents@[q]@.len() && same_place(
                    (#[trigger] parents@[q]@[i]).path,
                    node.path,
                ) ==> parents@[q]@[i].entry != node.entry && !(node.entry is Leaf && is_revision(
                    parents@[q]@[i].entry,
                    node.entry->Leaf_1,
                )),
        decreases parents.len() - p,
    {
        let parent = &parents[p];
        let mut i: usize = 0;
        while i < parent.len()
            invariant
                i <= parent.len(),
                p < parents.len(),
                *parent == parents@[p as int],
                forall|k: int|
                    0 <= k < i && same_place((#[trigger] parent@[k]).path, node.path) ==> parent@[k].entry
                        != node.entry && !(node.entry is Leaf && is_revision(
                        parent@[k].entry,
                        node.entry->Leaf_1,
                    )),
            decreases parent.len() - i,
        {
            if is_same_place(&parent[i].path, &node.path) {
                let reused = match (parent[i].entry, node.entry) {
                    (Entry::Leaf(_, theirs), Entry::Leaf(_, ours)) => theirs == ours,
                    _ => false,
                };
                if parent[i].entry == node.entry || reused {
                    proof {
                        let there = parents@[p as int]@[i as int];
                        assert(same_place(there.path, node.path));
                        if there.entry == node.entry {
                            assert(unchanged_in_parent(*node, parents@));
                        } else {
                            assert(revision_in_parent(*node, parents@));
                        }
                    }
                    return false;
                }
            }
            i += 1;
        }
        p += 1;
    }
    true
}

/// Derives the file history of a changeset from its tree and the trees of
/// its parents: the records of the nodes that are new in the changeset,
/// each linked to `linknode`.
///
/// A node is new where no parent holds the same entry at its place, and no
/// parent holds there a file of the same revision. A tree that one parent
/// holds whole gives no record at all, not even for its root.
pub fn derive_file_history(
    tree: Vec<TreeNode>,
    parents: &Vec<Vec<TreeNode>>,
    linknode: HgChangesetId,
) -> (res: Result<Vec<PreparedFilenode>, Error>)
    ensures
        is_generated(res, new_entries(tree@, parents@), linknode),
{
    let mut loaded: Vec<LoadedEntry> = Vec::new();
    for node in it: tree
        invariant
            it.seq() == tree@,
            loaded@ == new_entries(it.seq().take(it.index()), parents@),
    {
        proof {
            let next = it.seq().take(it.index() + 1);
            assert(next.drop_last() =~= it.seq().take(it.index()));
            assert(next.last() == node);
        }
        if check_new(&node, parents) {
            loaded.push(LoadedEntry { path: node.path, envelope: node.envelope });
        }
    }
    proof {
        assert(tree@.take(tree@.len() as int) =~= tree@);
    }
    generate_all_filenodes(loaded, linknode)
}


/// A merge that takes the tree of a parent whole records nothing: where
/// every node of the changeset's tree stands with the same entry in one of
/// the parents' trees, no node is new, and the derivation makes no record.
pub proof fn law_tree_of_a_parent_gives_no_record(
    tree: Seq<TreeNode>,
    parents: Seq<Vec<TreeNode>>,
    k: int,
)
    requires
        0 <= k < parents.len(),
        forall|i: int|
            0 <= i < tree.len() ==> exists|j: int|
                0 <= j < parents[k]@.len() && same_place(
                    (#[trigger] parents[k]@[j]).path,
                    (#[trigger] tree[i]).path,
                ) && parents[k]@[j].entry == tree[i].entry,
    ensures
        new_entries(tree, parents) == Seq::<LoadedEntry>::empty(),
    decreases tree.len(),
{
    if tree.len() > 0 {
        let last = tree.len() - 1;
        assert forall|i: int| 0 <= i < tree.drop_last().len() implies exists|j: int|
            0 <= j < parents[k]@.len() && same_place(
                (#[trigger] parents[k]@[j]).path,
                (#[trigger] tree.drop_last()[i]).path,
            ) && parents[k]@[j].entry == tree.drop_last()[i].entry by {
            assert(tree.drop_last()[i] == tree[i]);
            let j = choose|j: int|
                0 <= j < parents[k]@.len() && same_place(
                    (#[trigger] parents[k]@[j]).path,
                    tree[i].path,
                ) && parents[k]@[j].entry == tree[i].entry;
            assert(same_place(parents[k]@[j].path, tree.drop_last()[i].path));
        }
        law_tree_of_a_parent_gives_no_record(tree.drop_last(), parents, k);
        let j = choose|j: int|
            0 <= j < parents[k]@.len() && same_place(
                (#[trigger] parents[k]@[j]).path,
                tree[last].path,
            ) && parents[k]@[j].entry == tree[last].entry;
        assert(same_place(parents[k]@[j].path, tree.last().path));
        assert(unchanged_in_parent(tree.last(), parents));
    }
}

/// Each entry that gets a record is a node of the changeset's tree that is
/// new. A file that a parent holds untouched at its place never gets a
/// second record.
pub proof fn law_records_are_of_new_nodes(tree: Seq<TreeNode>, parents: Seq<Vec<TreeNode>>, n: int)
    requires
        0 <= n < new_entries(tree, parents).len(),
    ensures
        exists|i: int|
            0 <= i < tree.len() && is_new(#[trigger] tree[i], parents) && new_entries(tree, parents)[n]
                == (LoadedEntry { path: tree[i].path, envelope: tree[i].envelope }),
    decreases tree.len(),
{
    let last = tree.len() - 1;
    if is_new(tree.last(), parents) && n == new_entries(tree, parents).len() - 1 {
        assert(is_new(tree[last], parents));
    } else {
        law_records_are_of_new_nodes(tree.drop_last(), parents, n);
        let i = choose|i: int|
            0 <= i < tree.drop_last().len() && is_new(#[trigger] tree.drop_last()[i], parents)
                && new_entries(tree.drop_last(), parents)[n] == (LoadedEntry {
                path: tree.drop_last()[i].path,
                envelope: tree.drop_last()[i].envelope,
            });
        assert(tree.drop_last()[i] == tree[i]);
        assert(is_new(tree[i], parents));
    }
}

} // verus!
