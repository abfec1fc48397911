//! What the store of changesets holds of one changeset, and its form in
//! bytes in the distributed cache.
//!
//! The bytes of an entry are four fields, each behind a tag of its own:
//!
//! ```text
//! 01  repository id     4 bytes
//! 02  changeset id     32 bytes
//! 03  number of parents 8 bytes, then 32 bytes for each parent
//! 04  generation        8 bytes
//! ```
//!
//! Numbers have their least significant byte first.

use crate::types::{ChangesetId, RepositoryId};
use vstd::bytes::{
    u128_from_le_bytes, u128_to_le_bytes, u32_from_le_bytes, u32_to_le_bytes, u64_from_le_bytes,
    u64_to_le_bytes,
};
use vstd::prelude::*;
use vstd::slice::slice_subrange;

verus! {

/// The entry of one changeset: its repository, its parents in their order,
/// and its generation number.
#[derive(Clone, Debug, PartialEq, Eq, Hash)]
pub struct ChangesetEntry {
    pub repo_id: RepositoryId,
    pub cs_id: ChangesetId,
    pub parents: Vec<ChangesetId>,
    pub gen: u64,
}

/// A `ChangesetEntry` as a mathematical value.
pub struct ChangesetEntryView {
    pub repo_id: RepositoryId,
    pub cs_id: ChangesetId,
    pub parents: Seq<ChangesetId>,
    pub gen: u64,
}

impl View for ChangesetEntry {
    type V = ChangesetEntryView;

    open spec fn view(&self) -> ChangesetEntryView {
        ChangesetEntryView {
            repo_id: self.repo_id,
            cs_id: self.cs_id,
            parents: self.parents@,
            gen: self.gen,
        }
    }
}

impl ChangesetEntry {
    /// A second entry with the same content.
    pub fn duplicate(&self) -> (copy: ChangesetEntry)
        ensures
            copy@ == self@,
    {
        ChangesetEntry {
            repo_id: self.repo_id,
            cs_id: self.cs_id,
            parents: self.parents.clone(),
            gen: self.gen,
        }
    }
}

/// What is handed to the store to add a changeset.
#[derive(Clone, Debug, PartialEq, Eq, Hash)]
pub struct ChangesetInsert {
    pub repo_id: RepositoryId,
    pub cs_id: ChangesetId,
    pub parents: Vec<ChangesetId>,
}

/// A repository id as an unsigned number of 32 bits.
pub open spec fn repo_bits(id: i32) -> u32 {
    if id >= 0 {
        id as u32
    } else {
        (id + 0x1_0000_0000) as u32
    }
}

/// The 32 bytes of a changeset id.
pub open spec fn id_bytes(id: ChangesetId) -> Seq<u8> {
    vstd::bytes::spec_u128_to_le_bytes(id.hi) + vstd::bytes::spec_u128_to_le_bytes(id.lo)
}

/// The bytes of `ids`, one id after the other.
pub open spec fn ids_bytes(ids: Seq<ChangesetId>) -> Seq<u8>
    decreases ids.len(),
{
    if ids.len() == 0 {
        Seq::empty()
    } else {
        ids_bytes(ids.drop_last()) + id_bytes(ids.last())
    }
}

/// The bytes of an entry.
pub open spec fn encoded(e: ChangesetEntryView) -> Seq<u8> {
    seq![1u8] + vstd::bytes::spec_u32_to_le_bytes(repo_bits(e.repo_id.id)) + seq![2u8] + id_bytes(
        e.cs_id,
    ) + seq![3u8] + vstd::bytes::spec_u64_to_le_bytes(e.parents.len() as u64) + ids_bytes(e.parents)
        + seq![4u8] + vstd::bytes::spec_u64_to_le_bytes(e.gen)
}

/// A changeset id has 32 bytes: the two halves of the id.
pub proof fn lemma_id_bytes_len(id: ChangesetId)
    ensures
        id_bytes(id).len() == 32,
        id_bytes(id).subrange(0, 16) == vstd::bytes::spec_u128_to_le_bytes(id.hi),
        id_bytes(id).subrange(16, 32) == vstd::bytes::spec_u128_to_le_bytes(id.lo),
{
    vstd::bytes::lemma_auto_spec_u128_to_from_le_bytes();
    assert(id_bytes(id).subrange(0, 16) =~= vstd::bytes::spec_u128_to_le_bytes(id.hi));
    assert(id_bytes(id).subrange(16, 32) =~= vstd::bytes::spec_u128_to_le_bytes(id.lo));
}

proof fn lemma_ids_bytes_len(ids: Seq<ChangesetId>)
    ensures
        ids_bytes(ids).len() == 32 * ids.len(),
    decreases ids.len(),
{
    if ids.len() > 0 {
        lemma_ids_bytes_len(ids.drop_last());
        lemma_id_bytes_len(ids.last());
    }
}

/// Where the bytes of the `i`-th id stand.
proof fn lemma_ids_bytes_at(ids: Seq<ChangesetId>, i: int)
    requires
        0 <= i < ids.len(),
    ensures
        ids_bytes(ids).len() == 32 * ids.len(),
        ids_bytes(ids).subrange(32 * i, 32 * i + 32) == id_bytes(ids[i]),
        ids_bytes(ids.take(i)) == ids_bytes(ids).subrange(0, 32 * i),
    decreases ids.len(),
{
    lemma_ids_bytes_len(ids);
    lemma_ids_bytes_len(ids.drop_last());
    lemma_id_bytes_len(ids.last());
    if i == ids.len() - 1 {
        assert(ids_bytes(ids).subrange(32 * i, 32 * i + 32) =~= id_bytes(ids[i]));
        assert(ids.take(i) =~= ids.drop_last());
        assert(ids_bytes(ids).subrange(0, 32 * i) =~= ids_bytes(ids.drop_last()));
    } else {
        lemma_ids_bytes_at(ids.drop_last(), i);
        assert(ids_bytes(ids).subrange(32 * i, 32 * i + 32) =~= ids_bytes(
            ids.drop_last(),
        ).subrange(32 * i, 32 * i + 32));
        assert(ids.take(i) =~= ids.drop_last().take(i));
        assert(ids_bytes(ids).subrange(0, 32 * i) =~= ids_bytes(ids.drop_last()).subrange(
            0,
            32 * i,
        ));
    }
}

/// Where each field of an entry stands in its bytes.
pub proof fn lemma_encoded_layout(e: ChangesetEntryView)
    ensures
        ({
            let b = encoded(e);
            let k = e.parents.len() as int;
            &&& b.len() == 56 + 32 * k
            &&& b[0] == 1
            &&& b.subrange(1, 5) == vstd::bytes::spec_u32_to_le_bytes(repo_bits(e.repo_id.id))
            &&& b[5] == 2
            &&& b.subrange(6, 38) == id_bytes(e.cs_id)
            &&& b[38] == 3
            &&& b.subrange(39, 47) == vstd::bytes::spec_u64_to_le_bytes(e.parents.len() as u64)
            &&& b.subrange(47, 47 + 32 * k) == ids_bytes(e.parents)
            &&& b[47 + 32 * k] == 4
            &&& b.subrange(48 + 32 * k, 56 + 32 * k) == vstd::bytes::spec_u64_to_le_bytes(e.gen)
        }),
{
    vstd::bytes::lemma_auto_spec_u32_to_from_le_bytes();
    vstd::bytes::lemma_auto_spec_u64_to_from_le_bytes();
    lemma_id_bytes_len(e.cs_id);
    lemma_ids_bytes_len(e.parents);
    let b = encoded(e);
    let k = e.parents.len() as int;
    assert(b.subrange(1, 5) =~= vstd::bytes::spec_u32_to_le_bytes(repo_bits(e.repo_id.id)));
    assert(b.subrange(6, 38) =~= id_bytes(e.cs_id));
    assert(b.subrange(39, 47) =~= vstd::bytes::spec_u64_to_le_bytes(e.parents.len() as u64));
    assert(b.subrange(47, 47 + 32 * k) =~= ids_bytes(e.parents));
    assert(b.subrange(48 + 32 * k, 56 + 32 * k) =~= vstd::bytes::spec_u64_to_le_bytes(e.gen));
}

/// Appends the 32 bytes of `id`.
pub fn push_id(out: &mut Vec<u8>, id: ChangesetId)
    ensures
        final(out)@ == old(out)@ + id_bytes(id),
{
    let mut hi = u128_to_le_bytes(id.hi);
    let mut lo = u128_to_le_bytes(id.lo);
    out.append(&mut hi);
    out.append(&mut lo);
    assert(out@ =~= old(out)@ + id_bytes(id));
}

/// Writes an entry as bytes.
pub fn serialize_changeset_entry(entry: &ChangesetEntry) -> (bytes: Vec<u8>)
    ensures
        bytes@ == encoded(entry@),
{
    let mut out: Vec<u8> = Vec::new();
    out.push(1u8);
    let bits: u32 = if entry.repo_id.id >= 0 {
        entry.repo_id.id as u32
    } else {
        (entry.repo_id.id as i64 + 0x1_0000_0000) as u32
    };
    let mut repo = u32_to_le_bytes(bits);
    out.append(&mut repo);
    out.push(2u8);
    push_id(&mut out, entry.cs_id);
    out.push(3u8);
    let mut count = u64_to_le_bytes(entry.parents.len() as u64);
    out.append(&mut count);
    let ghost head = out@;
    let mut i: usize = 0;
    while i < entry.parents.len()
        invariant
            i <= entry.parents.len(),
            out@ == head + ids_bytes(entry.parents@.take(i as int)),
        decreases entry.parents.len() - i,
    {
        proof {
            assert(entry.parents@.take(i + 1).drop_last() =~= entry.parents@.take(i as int));
        }
        push_id(&mut out, entry.parents[i]);
        i += 1;
        assert(out@ =~= head + ids_bytes(entry.parents@.take(i as int)));
    }
    proof {
        assert(entry.parents@.take(entry.parents@.len() as int) =~= entry.parents@);
    }
    out.push(4u8);
    let mut gen = u64_to_le_bytes(entry.gen);
    out.append(&mut gen);
    assert(out@ =~= encoded(entry@));
    out
}

/// The changeset id whose bytes stand at `at`.
pub fn read_id(bytes: &[u8], at: usize) -> (id: ChangesetId)
    requires
        at + 32 <= bytes@.len(),
    ensures
        id_bytes(id) == bytes@.subrange(at as int, at + 32),
{
    let len = bytes.len();
    assert(at + 32 <= len);
    let hi = u128_from_le_bytes(slice_subrange(bytes, at, at + 16));
    let lo = u128_from_le_bytes(slice_subrange(bytes, at + 16, at + 32));
    proof {
        vstd::bytes::lemma_auto_spec_u128_to_from_le_bytes();
        let a = bytes@.subrange(at as int, at + 16);
        let b = bytes@.subrange(at + 16, at + 32);
        assert(vstd::bytes::spec_u128_to_le_bytes(vstd::bytes::spec_u128_from_le_bytes(a)) == a);
        assert(vstd::bytes::spec_u128_to_le_bytes(vstd::bytes::spec_u128_from_le_bytes(b)) == b);
        assert(a + b =~= bytes@.subrange(at as int, at + 32));
    }
    ChangesetId { hi, lo }
}

/// Reads an entry from bytes. It succeeds on the bytes that
/// `serialize_changeset_entry` writes for some entry, with that entry, and
/// on no others.
pub fn deserialize_changeset_entry(bytes: &[u8]) -> (res: Result<ChangesetEntry, ()>)
    ensures
        res matches Ok(entry) ==> encoded(entry@) == bytes@,
        res is Err ==> forall|entry: ChangesetEntry| encoded(entry@) != bytes@,
{
    proof {
        vstd::bytes::lemma_auto_spec_u32_to_from_le_bytes();
        vstd::bytes::lemma_auto_spec_u64_to_from_le_bytes();
        assert forall|entry: ChangesetEntry| encoded(entry@) == bytes@ implies {
            let k = entry.parents@.len() as int;
            &&& bytes@.len() == 56 + 32 * k
            &&& bytes@[0] == 1
            &&& bytes@[5] == 2
            &&& bytes@[38] == 3
            &&& bytes@.subrange(39, 47) == vstd::bytes::spec_u64_to_le_bytes(k as u64)
            &&& bytes@[47 + 32 * k] == 4
        } by {
            lemma_encoded_layout(entry@);
        }
    }
    let n = bytes.len();
    if n < 56 {
        return Err(());
    }
    if bytes[0] != 1u8 || bytes[5] != 2u8 || bytes[38] != 3u8 {
        return Err(());
    }
    let bits = u32_from_le_bytes(slice_subrange(bytes, 1, 5));
    let repo: i32 = if bits <= 0x7fff_ffff {
        bits as i32
    } else {
        (bits as i64 - 0x1_0000_0000) as i32
    };
    let cs_id = read_id(bytes, 6);
    let count = u64_from_le_bytes(slice_subrange(bytes, 39, 47));
    if (n - 56) % 32 != 0 || ((n - 56) / 32) as u64 != count {
        proof {
            assert forall|entry: ChangesetEntry| encoded(entry@) != bytes@ by {
                if encoded(entry@) == bytes@ {
                    let k = entry.parents@.len();
                    assert(bytes@.subrange(39, 47) == vstd::bytes::spec_u64_to_le_bytes(k as u64));
                    assert(count == k as u64);
                }
            }
        }
        return Err(());
    }
    let k: usize = (n - 56) / 32;
    if bytes[47 + 32 * k] != 4u8 {
        proof {
            assert forall|entry: ChangesetEntry| encoded(entry@) != bytes@ by {
                if encoded(entry@) == bytes@ {
                    assert(entry.parents@.len() == k);
                }
            }
        }
        return Err(());
    }
    let mut parents: Vec<ChangesetId> = Vec::new();
    let mut i: usize = 0;
    while i < k
        invariant
            i <= k,
            n == bytes@.len(),
            n == 56 + 32 * k,
            parents@.len() == i,
            ids_bytes(parents@) == bytes@.subrange(47, 47 + 32 * i),
        decreases k - i,
    {
        let id = read_id(bytes, 47 + 32 * i);
        let ghost before = parents@;
        parents.push(id);
        proof {
            assert(parents@.drop_last() =~= before);
            assert(ids_bytes(parents@) =~= bytes@.subrange(47, 47 + 32 * (i + 1)));
        }
        i += 1;
    }
    let gen = u64_from_le_bytes(slice_subrange(bytes, 48 + 32 * k, 56 + 32 * k));
    let entry = ChangesetEntry { repo_id: RepositoryId { id: repo }, cs_id, parents, gen };
    proof {
        assert(repo_bits(repo) == bits);
        let s1 = bytes@.subrange(1, 5);
        let s3 = bytes@.subrange(39, 47);
        let s4 = bytes@.subrange(48 + 32 * k, 56 + 32 * k);
        assert(vstd::bytes::spec_u32_to_le_bytes(vstd::bytes::spec_u32_from_le_bytes(s1)) == s1);
        assert(vstd::bytes::spec_u64_to_le_bytes(vstd::bytes::spec_u64_from_le_bytes(s3)) == s3);
        assert(vstd::bytes::spec_u64_to_le_bytes(vstd::bytes::spec_u64_from_le_bytes(s4)) == s4);
        assert(encoded(entry@) =~= bytes@);
    }
    Ok(entry)
}


/// No two changeset ids have the same bytes.
pub proof fn lemma_id_bytes_injective(a: ChangesetId, b: ChangesetId)
    requires
        id_bytes(a) == id_bytes(b),
    ensures
        a == b,
{
    vstd::bytes::lemma_auto_spec_u128_to_from_le_bytes();
    lemma_id_bytes_len(a);
    lemma_id_bytes_len(b);
    assert(vstd::bytes::spec_u128_from_le_bytes(vstd::bytes::spec_u128_to_le_bytes(a.hi)) == a.hi);
    assert(vstd::bytes::spec_u128_from_le_bytes(vstd::bytes::spec_u128_to_le_bytes(b.hi)) == b.hi);
    assert(vstd::bytes::spec_u128_from_le_bytes(vstd::bytes::spec_u128_to_le_bytes(a.lo)) == a.lo);
    assert(vstd::bytes::spec_u128_from_le_bytes(vstd::bytes::spec_u128_to_le_bytes(b.lo)) == b.lo);
}

/// No two entries have the same bytes.
pub proof fn lemma_encoded_injective(a: ChangesetEntry, b: ChangesetEntry)
    requires
        encoded(a@) == encoded(b@),
    ensures
        a@ == b@,
{
    vstd::bytes::lemma_auto_spec_u32_to_from_le_bytes();
    vstd::bytes::lemma_auto_spec_u64_to_from_le_bytes();
    lemma_encoded_layout(a@);
    lemma_encoded_layout(b@);
    let k = a.parents@.len() as int;
    assert(b.parents@.len() == k);
    let ra = repo_bits(a.repo_id.id);
    let rb = repo_bits(b.repo_id.id);
    assert(vstd::bytes::spec_u32_from_le_bytes(vstd::bytes::spec_u32_to_le_bytes(ra)) == ra);
    assert(vstd::bytes::spec_u32_from_le_bytes(vstd::bytes::spec_u32_to_le_bytes(rb)) == rb);
    assert(a.repo_id.id == b.repo_id.id);
    lemma_id_bytes_injective(a.cs_id, b.cs_id);
    assert(vstd::bytes::spec_u64_from_le_bytes(vstd::bytes::spec_u64_to_le_bytes(a.gen)) == a.gen);
    assert(vstd::bytes::spec_u64_from_le_bytes(vstd::bytes::spec_u64_to_le_bytes(b.gen)) == b.gen);
    assert forall|i: int| 0 <= i < k implies a.parents@[i] == b.parents@[i] by {
        lemma_ids_bytes_at(a.parents@, i);
        lemma_ids_bytes_at(b.parents@, i);
        lemma_id_bytes_injective(a.parents@[i], b.parents@[i]);
    }
    assert(a.parents@ =~= b.parents@);
}

/// Reads from `blob` the entry of the changeset `cs_id` of `repo_id`: what
/// `deserialize_changeset_entry` reads, where it is the entry of that
/// changeset.
pub fn decode_for(blob: &Vec<u8>, repo_id: RepositoryId, cs_id: ChangesetId) -> (res: Option<
    ChangesetEntry,
>)
    ensures
        res matches Some(entry) ==> encoded(entry@) == blob@ && entry.repo_id == repo_id
            && entry.cs_id == cs_id,
        res is None ==> forall|entry: ChangesetEntry|
            !(encoded(entry@) == blob@ && entry.repo_id == repo_id && entry.cs_id == cs_id),
{
    match deserialize_changeset_entry(blob.as_slice()) {
        Ok(entry) => {
            if entry.repo_id == repo_id && entry.cs_id == cs_id {
                Some(entry)
            } else {
                proof {
                    assert forall|other: ChangesetEntry|
                        !(encoded(other@) == blob@ && other.repo_id == repo_id && other.cs_id
                            == cs_id) by {
                        if encoded(other@) == blob@ {
                            lemma_encoded_injective(other, entry);
                        }
                    }
                }
                None
            }
        },
        Err(_) => None,
    }
}


/// An entry that was written as bytes is read back from them as it was.
pub proof fn law_written_entry_is_read_back(
    entry: ChangesetEntry,
    bytes: Seq<u8>,
    read: Result<ChangesetEntry, ()>,
)
    requires
        bytes == encoded(entry@),
        read matches Ok(e) ==> encoded(e@) == bytes,
        read is Err ==> forall|e: ChangesetEntry| encoded(e@) != bytes,
    ensures
        read matches Ok(e) && e@ == entry@,
{
    match read {
        Ok(e) => {
            lemma_encoded_injective(e, entry);
        },
        Err(_) => {
            assert(encoded(entry@) != bytes);
        },
    }
}

} // verus!
