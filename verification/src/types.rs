//! Identifiers and paths shared by all modules.

use crate::text::{push_decimal, push_hex_u128};
use vstd::prelude::*;
use vstd::string::StringExecFns;

verus! {

/// Identifier of a changeset: a 256-bit content hash. Two ids are equal when
/// all their bits are equal.
#[derive(Clone, Copy, Debug, PartialEq, Eq, Hash, PartialOrd, Ord, Structural)]
pub struct ChangesetId {
    pub hi: u128,
    pub lo: u128,
}

impl ChangesetId {
    pub fn new(hi: u128, lo: u128) -> (id: Self)
        ensures
            id == (ChangesetId { hi, lo }),
    {
        ChangesetId { hi, lo }
    }

    /// The id as text: its 64 hexadecimal digits.
    pub open spec fn hex(&self) -> Seq<char> {
        crate::text::hex_u128(self.hi) + crate::text::hex_u128(self.lo)
    }

    /// The 64 hexadecimal digits of the id, in lower case.
    pub fn to_hex(&self) -> (text: String)
        ensures
            text@ == self.hex(),
    {
        let mut text = String::new();
        push_hex_u128(&mut text, self.hi);
        push_hex_u128(&mut text, self.lo);
        assert(text@ =~= self.hex());
        text
    }
}

/// A 160-bit hash as the legacy changeset format uses it.
#[derive(Clone, Copy, Debug, PartialEq, Eq, Hash, PartialOrd, Ord, Structural)]
pub struct HgNodeHash {
    pub hi: u32,
    pub lo: u128,
}

/// The hash that stands for "no node".
pub open spec fn null_hash() -> HgNodeHash {
    HgNodeHash { hi: 0, lo: 0 }
}

impl HgNodeHash {
    /// The hash that stands for "no node".
    pub fn null() -> (hash: Self)
        ensures
            hash == null_hash(),
    {
        HgNodeHash { hi: 0, lo: 0 }
    }
}

/// Identifier of a changeset in the legacy format.
#[derive(Clone, Copy, Debug, PartialEq, Eq, Hash, PartialOrd, Ord, Structural)]
pub struct HgChangesetId {
    pub hash: HgNodeHash,
}

impl HgChangesetId {
    pub fn new(hash: HgNodeHash) -> (id: Self)
        ensures
            id.hash == hash,
    {
        HgChangesetId { hash }
    }

    pub fn into_nodehash(self) -> (hash: HgNodeHash)
        ensures
            hash == self.hash,
    {
        self.hash
    }
}

/// Identifier of one revision of a file or of a tree node.
#[derive(Clone, Copy, Debug, PartialEq, Eq, Hash, PartialOrd, Ord, Structural)]
pub struct HgFileNodeId {
    pub hash: HgNodeHash,
}

impl HgFileNodeId {
    pub fn new(hash: HgNodeHash) -> (id: Self)
        ensures
            id.hash == hash,
    {
        HgFileNodeId { hash }
    }

    pub fn into_nodehash(self) -> (hash: HgNodeHash)
        ensures
            hash == self.hash,
    {
        self.hash
    }
}

/// Identifier of a tree (manifest) node.
#[derive(Clone, Copy, Debug, PartialEq, Eq, Hash, PartialOrd, Ord, Structural)]
pub struct HgManifestId {
    pub hash: HgNodeHash,
}

impl HgManifestId {
    pub fn new(hash: HgNodeHash) -> (id: Self)
        ensures
            id.hash == hash,
    {
        HgManifestId { hash }
    }

    pub fn into_nodehash(self) -> (hash: HgNodeHash)
        ensures
            hash == self.hash,
    {
        self.hash
    }
}

/// Identifier of a repository.
#[derive(Clone, Copy, Debug, PartialEq, Eq, Hash, PartialOrd, Ord, Structural)]
pub struct RepositoryId {
    pub id: i32,
}

impl RepositoryId {
    pub fn new(id: i32) -> (repo: Self)
        ensures
            repo.id == id,
    {
        RepositoryId { id }
    }

    /// The text that the keys of a repository begin with: "repo", the id in
    /// at least four characters, and a dot.
    pub open spec fn prefix_text(&self) -> Seq<char> {
        if self.id >= 0 {
            "repo"@ + crate::text::zero_padded(crate::text::decimal(self.id as nat), 4) + "."@
        } else {
            "repo-"@ + crate::text::zero_padded(crate::text::decimal((-self.id) as nat), 3) + "."@
        }
    }

    /// The text that the keys of the repository begin with.
    pub fn prefix(&self) -> (text: String)
        ensures
            text@ == self.prefix_text(),
    {
        if self.id >= 0 {
            let mut text = String::from_str("repo");
            push_decimal(&mut text, self.id as u64, 4);
            text.append(".");
            text
        } else {
            let mut text = String::from_str("repo-");
            let magnitude: u64 = (-(self.id as i64)) as u64;
            push_decimal(&mut text, magnitude, 3);
            text.append(".");
            text
        }
    }
}

/// A path below the root of a tree: a non-empty byte string.
#[derive(Clone, Debug, PartialEq, Eq, Hash)]
pub struct MPath {
    bytes: Vec<u8>,
}

impl View for MPath {
    type V = Seq<u8>;

    closed spec fn view(&self) -> Seq<u8> {
        self.bytes@
    }
}

impl MPath {
    /// Every path that `new` hands out is non-empty.
    pub open spec fn wf(&self) -> bool {
        self@.len() > 0
    }

    /// Makes a path of `bytes`; there is no empty path.
    pub fn new(bytes: Vec<u8>) -> (res: Option<MPath>)
        ensures
            bytes@.len() == 0 <==> res is None,
            res matches Some(p) ==> p@ == bytes@ && p.wf(),
    {
        if bytes.len() == 0 {
            None
        } else {
            Some(MPath { bytes })
        }
    }

    /// The bytes of the path.
    pub fn to_vec(&self) -> (bytes: Vec<u8>)
        ensures
            bytes@ == self@,
    {
        self.bytes.clone()
    }

    /// A second path with the same bytes.
    pub fn duplicate(&self) -> (copy: MPath)
        ensures
            copy@ == self@,
    {
        MPath { bytes: self.bytes.clone() }
    }

    /// Whether two paths hold the same bytes.
    pub fn same(&self, other: &MPath) -> (eq: bool)
        ensures
            eq == (self@ == other@),
    {
        if self.bytes.len() != other.bytes.len() {
            return false;
        }
        let mut i: usize = 0;
        while i < self.bytes.len()
            invariant
                i <= self.bytes.len(),
                self.bytes.len() == other.bytes.len(),
                forall|j: int| 0 <= j < i ==> self.bytes@[j] == other.bytes@[j],
            decreases self.bytes.len() - i,
        {
            if self.bytes[i] != other.bytes[i] {
                return false;
            }
            i += 1;
        }
        assert(self.bytes@ =~= other.bytes@);
        true
    }
}


/// Identifier of the content of a file: a 256-bit content hash.
#[derive(Clone, Copy, Debug, PartialEq, Eq, Hash, PartialOrd, Ord, Structural)]
pub struct ContentId {
    pub hi: u128,
    pub lo: u128,
}

/// A changeset as the derivation engine sees it: its id and the ids of its
/// parents in their order, with what a commit says of itself, the content
/// that it gives to each path it changes (none where it removes the path),
/// and whatever else was recorded with it, by name. A changeset without
/// parents is a root; one with two or more is a merge.
#[derive(Clone, Debug, PartialEq, Eq)]
pub struct BonsaiChangeset {
    pub id: ChangesetId,
    pub parents: Vec<ChangesetId>,
    pub author: String,
    pub message: String,
    pub file_changes: Vec<(MPath, Option<ContentId>)>,
    pub extra: Vec<(String, Vec<u8>)>,
}

impl BonsaiChangeset {
    pub fn get_changeset_id(&self) -> (id: ChangesetId)
        ensures
            id == self.id,
    {
        self.id
    }
}


/// No two changeset ids have the same text.
pub proof fn lemma_hex_tells_ids_apart(a: ChangesetId, b: ChangesetId)
    requires
        a.hex() == b.hex(),
    ensures
        a == b,
{
    assert(crate::text::hex_u128(a.hi) =~= a.hex().subrange(0, 32));
    assert(crate::text::hex_u128(b.hi) =~= b.hex().subrange(0, 32));
    assert(crate::text::hex_u128(a.lo) =~= a.hex().subrange(32, 64));
    assert(crate::text::hex_u128(b.lo) =~= b.hex().subrange(32, 64));
    crate::text::lemma_hex_u128_injective(a.hi, b.hi);
    crate::text::lemma_hex_u128_injective(a.lo, b.lo);
}

/// No two repositories have the same prefix.
pub proof fn lemma_prefix_tells_repositories_apart(a: RepositoryId, b: RepositoryId)
    requires
        a.prefix_text() == b.prefix_text(),
    ensures
        a == b,
{
    reveal_strlit("repo");
    reveal_strlit("repo-");
    reveal_strlit(".");
    let na: nat = if a.id >= 0 {
        a.id as nat
    } else {
        (-a.id) as nat
    };
    let nb: nat = if b.id >= 0 {
        b.id as nat
    } else {
        (-b.id) as nat
    };
    let wa: nat = if a.id >= 0 {
        4
    } else {
        3
    };
    let wb: nat = if b.id >= 0 {
        4
    } else {
        3
    };
    let pa = crate::text::zero_padded(crate::text::decimal(na), wa);
    let pb = crate::text::zero_padded(crate::text::decimal(nb), wb);
    crate::text::lemma_decimal_is_digits(na);
    crate::text::lemma_decimal_is_digits(nb);
    assert(pa.len() >= 3 && pb.len() >= 3);
    assert(crate::text::is_decimal_digit(pa[0])) by {
        if crate::text::decimal(na).len() >= wa {
            assert(pa[0] == crate::text::decimal(na)[0]);
        } else {
            assert(pa[0] == '0');
            assert('0' == crate::text::hex_digit(0));
        }
    }
    assert(crate::text::is_decimal_digit(pb[0])) by {
        if crate::text::decimal(nb).len() >= wb {
            assert(pb[0] == crate::text::decimal(nb)[0]);
        } else {
            assert(pb[0] == '0');
            assert('0' == crate::text::hex_digit(0));
        }
    }
    let minus = "repo-"@[4];
    assert(!crate::text::is_decimal_digit(minus)) by {
        assert forall|d: int| 0 <= d < 10 implies minus != #[trigger] crate::text::hex_digit(d) by {}
    }
    if a.id >= 0 && b.id < 0 {
        assert(a.prefix_text()[4] == pa[0]);
        assert(b.prefix_text()[4] == minus);
    } else if a.id < 0 && b.id >= 0 {
        assert(b.prefix_text()[4] == pb[0]);
        assert(a.prefix_text()[4] == minus);
    } else {
        let head = if a.id >= 0 {
            "repo"@
        } else {
            "repo-"@
        };
        assert(a.prefix_text() =~= head + pa + "."@);
        assert(b.prefix_text() =~= head + pb + "."@);
        assert(a.prefix_text().len() == head.len() + pa.len() + 1);
        assert(pa =~= a.prefix_text().subrange(head.len() as int, a.prefix_text().len() - 1));
        assert(pb =~= b.prefix_text().subrange(head.len() as int, b.prefix_text().len() - 1));
        crate::text::lemma_zero_padded_injective(na, nb, wa);
    }
}

} // verus!
