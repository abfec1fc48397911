//! What the administration commands compute: the difference between two
//! changesets of the legacy format, the paths that two trees do not share,
//! and what their arguments mean.

use crate::error::Error;
use crate::types::{HgChangesetId, HgManifestId, MPath};
use vstd::prelude::*;
use vstd::string::{StrSliceExecFns, StringExecFns, StringSliceAdditionalSpecFns};

verus! {

/// The text that `String::from_utf8_lossy` makes of bytes.
pub uninterp spec fn utf8_lossy(bytes: Seq<u8>) -> Seq<char>;

/// `String::from_utf8_lossy` reads bytes as text, with a replacement
/// character for what is no text; the same bytes give the same text.
#[verifier::external_body]
fn slice_to_str(slice: &[u8]) -> (text: String)
    ensures
        text@ == utf8_lossy(slice@),
{
    String::from_utf8_lossy(slice).into_owned()
}

fn mpath_to_str(mpath: &MPath) -> (text: String)
    ensures
        text@ == utf8_lossy(mpath@),
{
    let bytes = mpath.to_vec();
    slice_to_str(bytes.as_slice())
}

/// A changeset of the legacy format, as far as two of them are compared.
#[derive(Clone, Debug, PartialEq, Eq)]
pub struct HgChangeset {
    pub user: Vec<u8>,
    pub message: Vec<u8>,
    pub files: Vec<MPath>,
    pub extra: Vec<(Vec<u8>, Vec<u8>)>,
    pub manifestid: HgManifestId,
}

/// How the file at a path differs between two trees.
#[derive(Clone, Debug, PartialEq, Eq)]
pub enum BonsaiDiffFileChange {
    Changed(MPath),
    ChangedReusedId(MPath),
    Deleted(MPath),
}

/// The paths that differ between two trees.
#[derive(Clone, Debug, PartialEq, Eq)]
pub struct ManifestDiff {
    pub modified: Vec<String>,
    pub deleted: Vec<String>,
}

/// One respect in which two changesets differ, with what the left and the
/// right changeset have there.
#[derive(Clone, Debug, PartialEq, Eq)]
pub enum ChangesetAttrDiff {
    User(String, String),
    Comments(String, String),
    Manifest(ManifestDiff),
    Files(Vec<String>, Vec<String>),
    Extra(Vec<(String, String)>, Vec<(String, String)>),
}

/// The difference between two changesets.
#[derive(Clone, Debug, PartialEq, Eq)]
pub struct ChangesetDiff {
    pub left: HgChangesetId,
    pub right: HgChangesetId,
    pub diff: Vec<ChangesetAttrDiff>,
}

/// The texts of `strings`.
pub open spec fn texts(strings: Seq<String>) -> Seq<Seq<char>> {
    Seq::new(strings.len(), |i: int| strings[i]@)
}

/// The texts of the paths `paths`.
pub open spec fn path_texts(paths: Seq<MPath>) -> Seq<Seq<char>> {
    Seq::new(paths.len(), |i: int| utf8_lossy(paths[i]@))
}

/// The paths of the changes of one sort: those that changed where
/// `deleted` is false, those that were deleted where it is true.
pub open spec fn changed_paths(diffs: Seq<BonsaiDiffFileChange>, deleted: bool) -> Seq<Seq<char>>
    decreases diffs.len(),
{
    if diffs.len() == 0 {
        Seq::empty()
    } else {
        let rest = changed_paths(diffs.drop_last(), deleted);
        match diffs.last() {
            BonsaiDiffFileChange::Changed(path) | BonsaiDiffFileChange::ChangedReusedId(path) => if deleted {
                rest
            } else {
                rest.push(utf8_lossy(path@))
            },
            BonsaiDiffFileChange::Deleted(path) => if deleted {
                rest.push(utf8_lossy(path@))
            } else {
                rest
            },
        }
    }
}

/// Sums the differences between two trees up: the paths that changed and
/// the paths that were deleted, each in the order of `diffs`, and nothing
/// where the trees do not differ.
pub fn hg_manifest_diff(diffs: Vec<BonsaiDiffFileChange>) -> (res: Option<ChangesetAttrDiff>)
    ensures
        diffs@.len() == 0 <==> res is None,
        res matches Some(diff) ==> diff matches ChangesetAttrDiff::Manifest(mdiff) && texts(
            mdiff.modified@,
        ) == changed_paths(diffs@, false) && texts(mdiff.deleted@) == changed_paths(diffs@, true),
{
    let mut mdiff = ManifestDiff { modified: Vec::new(), deleted: Vec::new() };
    let mut i: usize = 0;
    while i < diffs.len()
        invariant
            i <= diffs.len(),
            texts(mdiff.modified@) == changed_paths(diffs@.take(i as int), false),
            texts(mdiff.deleted@) == changed_paths(diffs@.take(i as int), true),
            mdiff.modified@.len() + mdiff.deleted@.len() == i,
        decreases diffs.len() - i,
    {
        proof {
            assert(diffs@.take(i + 1).drop_last() =~= diffs@.take(i as int));
        }
        let ghost modified = mdiff.modified@;
        let ghost deleted = mdiff.deleted@;
        match &diffs[i] {
            BonsaiDiffFileChange::Changed(path) | BonsaiDiffFileChange::ChangedReusedId(path) => {
                mdiff.modified.push(mpath_to_str(path));
                assert(texts(mdiff.modified@) =~= texts(modified).push(utf8_lossy(path@)));
            },
            BonsaiDiffFileChange::Deleted(path) => {
                mdiff.deleted.push(mpath_to_str(path));
                assert(texts(mdiff.deleted@) =~= texts(deleted).push(utf8_lossy(path@)));
            },
        }
        i += 1;
    }
    proof {
        assert(diffs@.take(diffs@.len() as int) =~= diffs@);
    }
    if mdiff.modified.len() == 0 && mdiff.deleted.len() == 0 {
        None
    } else {
        Some(ChangesetAttrDiff::Manifest(mdiff))
    }
}

/// Whether two byte strings hold the same bytes.
pub fn same_bytes(a: &Vec<u8>, b: &Vec<u8>) -> (same: bool)
    ensures
        same == (a@ == b@),
{
    if a.len() != b.len() {
        return false;
    }
    let mut i: usize = 0;
    while i < a.len()
        invariant
            i <= a.len(),
            a.len() == b.len(),
            forall|j: int| 0 <= j < i ==> a@[j] == b@[j],
        decreases a.len() - i,
    {
        if a[i] != b[i] {
            return false;
        }
        i += 1;
    }
    assert(a@ =~= b@);
    true
}

/// The paths `paths` as byte strings.
pub open spec fn path_bytes(paths: Seq<MPath>) -> Seq<Seq<u8>> {
    Seq::new(paths.len(), |i: int| paths[i]@)
}

fn same_paths(a: &Vec<MPath>, b: &Vec<MPath>) -> (same: bool)
    ensures
        same == (path_bytes(a@) == path_bytes(b@)),
{
    if a.len() != b.len() {
        assert(path_bytes(a@).len() != path_bytes(b@).len());
        return false;
    }
    let mut i: usize = 0;
    while i < a.len()
        invariant
            i <= a.len(),
            a.len() == b.len(),
            forall|j: int| 0 <= j < i ==> a@[j]@ == b@[j]@,
        decreases a.len() - i,
    {
        if !a[i].same(&b[i]) {
            assert(path_bytes(a@)[i as int] != path_bytes(b@)[i as int]);
            return false;
        }
        i += 1;
    }
    assert(path_bytes(a@) =~= path_bytes(b@));
    true
}

/// The pairs `extra` as pairs of byte strings.
pub open spec fn extra_bytes(extra: Seq<(Vec<u8>, Vec<u8>)>) -> Seq<(Seq<u8>, Seq<u8>)> {
    Seq::new(extra.len(), |i: int| (extra[i].0@, extra[i].1@))
}

fn same_extra(a: &Vec<(Vec<u8>, Vec<u8>)>, b: &Vec<(Vec<u8>, Vec<u8>)>) -> (same: bool)
    ensures
        same == (extra_bytes(a@) == extra_bytes(b@)),
{
    if a.len() != b.len() {
        assert(extra_bytes(a@).len() != extra_bytes(b@).len());
        return false;
    }
    let mut i: usize = 0;
    while i < a.len()
        invariant
            i <= a.len(),
            a.len() == b.len(),
            forall|j: int| 0 <= j < i ==> a@[j].0@ == b@[j].0@ && a@[j].1@ == b@[j].1@,
        decreases a.len() - i,
    {
        if !(same_bytes(&a[i].0, &b[i].0) && same_bytes(&a[i].1, &b[i].1)) {
            assert(extra_bytes(a@)[i as int] != extra_bytes(b@)[i as int]);
            return false;
        }
        i += 1;
    }
    assert(extra_bytes(a@) =~= extra_bytes(b@));
    true
}

fn paths_to_strs(paths: &Vec<MPath>) -> (strs: Vec<String>)
    ensures
        texts(strs@) == path_texts(paths@),
{
    let mut strs: Vec<String> = Vec::new();
    let mut i: usize = 0;
    while i < paths.len()
        invariant
            i <= paths.len(),
            strs@.len() == i,
            forall|j: int| 0 <= j < i ==> (#[trigger] strs@[j])@ == utf8_lossy(paths@[j]@),
        decreases paths.len() - i,
    {
        strs.push(mpath_to_str(&paths[i]));
        i += 1;
    }
    assert(texts(strs@) =~= path_texts(paths@));
    strs
}

/// The pairs `extra` as pairs of texts.
pub open spec fn extra_texts(extra: Seq<(Vec<u8>, Vec<u8>)>) -> Seq<(Seq<char>, Seq<char>)> {
    Seq::new(extra.len(), |i: int| (utf8_lossy(extra[i].0@), utf8_lossy(extra[i].1@)))
}

/// The texts of the pairs `pairs`.
pub open spec fn pair_texts(pairs: Seq<(String, String)>) -> Seq<(Seq<char>, Seq<char>)> {
    Seq::new(pairs.len(), |i: int| (pairs[i].0@, pairs[i].1@))
}

fn extra_to_strs(extra: &Vec<(Vec<u8>, Vec<u8>)>) -> (strs: Vec<(String, String)>)
    ensures
        pair_texts(strs@) == extra_texts(extra@),
{
    let mut strs: Vec<(String, String)> = Vec::new();
    let mut i: usize = 0;
    while i < extra.len()
        invariant
            i <= extra.len(),
            strs@.len() == i,
            forall|j: int|
                0 <= j < i ==> (#[trigger] strs@[j]).0@ == utf8_lossy(extra@[j].0@) && strs@[j].1@
                    == utf8_lossy(extra@[j].1@),
        decreases extra.len() - i,
    {
        strs.push((slice_to_str(extra[i].0.as_slice()), slice_to_str(extra[i].1.as_slice())));
        i += 1;
    }
    assert(pair_texts(strs@) =~= extra_texts(extra@));
    strs
}

/// Whether `diff` says that the users differ, and are `left` and `right`.
pub open spec fn is_user_diff(diff: ChangesetAttrDiff, left: Seq<u8>, right: Seq<u8>) -> bool {
    diff matches ChangesetAttrDiff::User(l, r) && l@ == utf8_lossy(left) && r@ == utf8_lossy(right)
}

/// Whether `diff` says that the messages differ, and are `left` and `right`.
pub open spec fn is_comments_diff(diff: ChangesetAttrDiff, left: Seq<u8>, right: Seq<u8>) -> bool {
    diff matches ChangesetAttrDiff::Comments(l, r) && l@ == utf8_lossy(left) && r@ == utf8_lossy(
        right,
    )
}

/// Whether `diff` says that the lists of files differ, and are `left` and
/// `right`.
pub open spec fn is_files_diff(diff: ChangesetAttrDiff, left: Seq<MPath>, right: Seq<MPath>) -> bool {
    diff matches ChangesetAttrDiff::Files(l, r) && texts(l@) == path_texts(left) && texts(r@)
        == path_texts(right)
}

/// Whether `diff` says that the extras differ, and are `left` and `right`.
pub open spec fn is_extra_diff(
    diff: ChangesetAttrDiff,
    left: Seq<(Vec<u8>, Vec<u8>)>,
    right: Seq<(Vec<u8>, Vec<u8>)>,
) -> bool {
    diff matches ChangesetAttrDiff::Extra(l, r) && pair_texts(l@) == extra_texts(left)
        && pair_texts(r@) == extra_texts(right)
}

/// Whether the users, the messages, the lists of files, and the extras of
/// two changesets differ, in this order.
pub open spec fn differing(left: HgChangeset, right: HgChangeset) -> Seq<bool> {
    seq![
        left.user@ != right.user@,
        left.message@ != right.message@,
        path_bytes(left.files@) != path_bytes(right.files@),
        extra_bytes(left.extra@) != extra_bytes(right.extra@),
    ]
}

/// How many of the first `n` of `flags` are set.
pub open spec fn count_set(flags: Seq<bool>, n: int) -> int
    decreases n,
{
    if n <= 0 {
        0
    } else {
        count_set(flags, n - 1) + if flags[n - 1] {
            1int
        } else {
            0int
        }
    }
}

/// Compares two changesets: who made them, what they say, the files they
/// name and their extras, each named where it differs and in this order,
/// and behind them the difference between their trees, where there is one.
pub fn hg_changeset_diff(
    left_id: HgChangesetId,
    right_id: HgChangesetId,
    left: &HgChangeset,
    right: &HgChangeset,
    mdiff: Option<ChangesetAttrDiff>,
) -> (res: ChangesetDiff)
    ensures
        res.left == left_id,
        res.right == right_id,
        ({
            let flags = differing(*left, *right);
            let d = res.diff@;
            &&& d.len() == count_set(flags, 4) + if mdiff is Some {
                1int
            } else {
                0int
            }
            &&& flags[0] ==> is_user_diff(d[0], left.user@, right.user@)
            &&& flags[1] ==> is_comments_diff(d[count_set(flags, 1)], left.message@, right.message@)
            &&& flags[2] ==> is_files_diff(d[count_set(flags, 2)], left.files@, right.files@)
            &&& flags[3] ==> is_extra_diff(d[count_set(flags, 3)], left.extra@, right.extra@)
            &&& mdiff matches Some(m) ==> d[count_set(flags, 4)] == m
        }),
{
    let mut diff = ChangesetDiff { left: left_id, right: right_id, diff: Vec::new() };
    let ghost flags = differing(*left, *right);
    proof {
        reveal_with_fuel(count_set, 5);
    }

    if !same_bytes(&left.user, &right.user) {
        diff.diff.push(
            ChangesetAttrDiff::User(
                slice_to_str(left.user.as_slice()),
                slice_to_str(right.user.as_slice()),
            ),
        );
    }

    if !same_bytes(&left.message, &right.message) {
        diff.diff.push(
            ChangesetAttrDiff::Comments(
                slice_to_str(left.message.as_slice()),
                slice_to_str(right.message.as_slice()),
            ),
        )
    }

    if !same_paths(&left.files, &right.files) {
        diff.diff.push(
            ChangesetAttrDiff::Files(paths_to_strs(&left.files), paths_to_strs(&right.files)),
        )
    }

    if !same_extra(&left.extra, &right.extra) {
        diff.diff.push(
            ChangesetAttrDiff::Extra(extra_to_strs(&left.extra), extra_to_strs(&right.extra)),
        )
    }

    match mdiff {
        Some(mdiff) => diff.diff.push(mdiff),
        None => {},
    }
    diff
}

/// The paths of `ours` that `theirs` lacks, in the order of `ours`.
pub open spec fn paths_missing_in(ours: Seq<MPath>, theirs: Seq<MPath>) -> Seq<Seq<u8>>
    decreases ours.len(),
{
    if ours.len() == 0 {
        Seq::empty()
    } else if path_bytes(theirs).contains(ours.last()@) {
        paths_missing_in(ours.drop_last(), theirs)
    } else {
        paths_missing_in(ours.drop_last(), theirs).push(ours.last()@)
    }
}

fn has_path(paths: &Vec<MPath>, path: &MPath) -> (has: bool)
    ensures
        has == path_bytes(paths@).contains(path@),
{
    let mut i: usize = 0;
    while i < paths.len()
        invariant
            i <= paths.len(),
            forall|j: int| 0 <= j < i ==> paths@[j]@ != path@,
        decreases paths.len() - i,
    {
        if paths[i].same(path) {
            assert(path_bytes(paths@)[i as int] == path@);
            return true;
        }
        i += 1;
    }
    assert forall|j: int| 0 <= j < path_bytes(paths@).len() implies path_bytes(paths@)[j] != path@ by {
        assert(paths@[j]@ != path@);
    }
    false
}

fn missing_in(ours: &Vec<MPath>, theirs: &Vec<MPath>) -> (missing: Vec<MPath>)
    ensures
        path_bytes(missing@) == paths_missing_in(ours@, theirs@),
{
    let mut missing: Vec<MPath> = Vec::new();
    let mut i: usize = 0;
    while i < ours.len()
        invariant
            i <= ours.len(),
            path_bytes(missing@) == paths_missing_in(ours@.take(i as int), theirs@),
        decreases ours.len() - i,
    {
        proof {
            assert(ours@.take(i + 1).drop_last() =~= ours@.take(i as int));
        }
        if !has_path(theirs, &ours[i]) {
            let ghost before = missing@;
            missing.push(ours[i].duplicate());
            assert(path_bytes(missing@) =~= path_bytes(before).push(ours@[i as int]@));
        }
        i += 1;
    }
    proof {
        assert(ours@.take(ours@.len() as int) =~= ours@);
    }
    missing
}

/// The paths that one of two trees has and the other lacks.
#[derive(Clone, Debug, PartialEq, Eq)]
pub struct PathsDiffer {
    /// The paths of the legacy tree that the other lacks.
    pub only_hg: Vec<MPath>,
    /// The paths of the other tree that the legacy tree lacks.
    pub only_unode: Vec<MPath>,
}

/// Verifies that two trees of one changeset hold the same paths. Where they
/// do not, the paths that only one of them holds are returned.
pub fn single_verify(hg_paths: &Vec<MPath>, unode_paths: &Vec<MPath>) -> (res: Result<
    (),
    PathsDiffer,
>)
    ensures
        res is Ok <==> paths_missing_in(hg_paths@, unode_paths@).len() == 0 && paths_missing_in(
            unode_paths@,
            hg_paths@,
        ).len() == 0,
        res matches Err(differ) ==> path_bytes(differ.only_hg@) == paths_missing_in(
            hg_paths@,
            unode_paths@,
        ) && path_bytes(differ.only_unode@) == paths_missing_in(unode_paths@, hg_paths@),
{
    let only_hg = missing_in(hg_paths, unode_paths);
    let only_unode = missing_in(unode_paths, hg_paths);
    if only_hg.len() == 0 && only_unode.len() == 0 {
        Ok(())
    } else {
        Err(PathsDiffer { only_hg, only_unode })
    }
}

/// The path that an argument names: none for "/", which names the root.
pub fn path_resolve(path: &str) -> (res: Result<Option<MPath>, Error>)
    ensures
        path.spec_bytes() == seq![47u8] ==> res == Ok::<Option<MPath>, Error>(None),
        path.spec_bytes().len() == 0 ==> res == Err::<Option<MPath>, Error>(Error::EmptyPath),
        path.spec_bytes() != seq![47u8] && path.spec_bytes().len() > 0 ==> (res matches Ok(
            Some(p),
        ) && p@ == path.spec_bytes()),
{
    let bytes = path.as_bytes_vec();
    if bytes.len() == 1 && bytes[0] == 47u8 {
        assert(bytes@ =~= seq![47u8]);
        return Ok(None);
    }
    match MPath::new(bytes) {
        Some(path) => Ok(Some(path)),
        None => Err(Error::EmptyPath),
    }
}

/// The kinds of derived data that the benchmark can derive.
#[derive(Clone, Copy, Debug, PartialEq, Eq, Structural)]
pub enum DerivedType {
    HgChangeset,
    Unodes,
    Fsnodes,
}

/// The kind of derived data that an argument names.
pub fn derive_fn(derive_type: Option<&str>) -> (res: Result<DerivedType, Error>)
    ensures
        derive_type is None ==> res == Err::<DerivedType, Error>(Error::MissingDerivedType),
        derive_type matches Some(name) ==> {
            &&& name@ == "hg-changeset"@ ==> res == Ok::<DerivedType, Error>(DerivedType::HgChangeset)
            &&& name@ == "unodes"@ ==> res == Ok::<DerivedType, Error>(DerivedType::Unodes)
            &&& name@ == "fsnodes"@ ==> res == Ok::<DerivedType, Error>(DerivedType::Fsnodes)
            &&& name@ != "hg-changeset"@ && name@ != "unodes"@ && name@ != "fsnodes"@ ==> (
            res matches Err(Error::UnknownDerivedType(unknown)) && unknown@ == name@)
        },
{
    proof {
        reveal_strlit("hg-changeset");
        reveal_strlit("unodes");
        reveal_strlit("fsnodes");
        assert("hg-changeset"@.len() == 12);
        assert("unodes"@.len() == 6);
        assert("fsnodes"@.len() == 7);
    }
    match derive_type {
        None => Err(Error::MissingDerivedType),
        Some(given) => {
            let derived_type = String::from_str(given);
            if derived_type == String::from_str("hg-changeset") {
                Ok(DerivedType::HgChangeset)
            } else if derived_type == String::from_str("unodes") {
                Ok(DerivedType::Unodes)
            } else if derived_type == String::from_str("fsnodes") {
                Ok(DerivedType::Fsnodes)
            } else {
                Err(Error::UnknownDerivedType(derived_type))
            }
        },
    }
}

} // verus!
