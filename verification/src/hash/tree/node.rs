//! The nodes of a hash tree as they are stored: a branch lists its
//! children, a root comes with a payload.

use vstd::prelude::*;
use vstd::bytes::{spec_u64_from_le_bytes, spec_u64_to_le_bytes, u64_from_le_bytes, u64_to_le_bytes, lemma_auto_spec_u64_to_from_le_bytes};
use vstd::slice::slice_subrange;
use crate::blob::chunk_ref::FIXED_BYTES;
use crate::blob::{ChunkRef, ChunkRefView};
use crate::errors::HatError;
use crate::util::bytes::copy_bytes;

verus! {

/// A child of a branch: the hash of the child's chunk and where the chunk lies.
#[derive(Debug, PartialEq, Eq)]
pub struct HashRef {
    pub hash: crate::hash::Hash,
    pub persistent_ref: ChunkRef,
}

/// The mathematical value of a `HashRef`.
pub struct HashRefView {
    pub hash: Seq<u8>,
    pub persistent_ref: ChunkRefView,
}

impl View for HashRef {
    type V = HashRefView;

    open spec fn view(&self) -> HashRefView {
        HashRefView { hash: self.hash@, persistent_ref: self.persistent_ref@ }
    }
}

impl Clone for HashRef {
    fn clone(&self) -> (copy: HashRef)
        ensures
            copy@ == self@,
    {
        HashRef { hash: self.hash.clone(), persistent_ref: self.persistent_ref.clone() }
    }
}

/// The values of a list of children.
pub open spec fn refs_view(refs: Seq<HashRef>) -> Seq<HashRefView> {
    refs.map_values(|r: HashRef| r@)
}

impl HashRefView {
    /// The bytes that stand for the child in a branch: the length of the
    /// hash, the hash, and the byte form of the reference.
    pub open spec fn encode(self) -> Seq<u8> {
        spec_u64_to_le_bytes(self.hash.len() as u64) + self.hash + self.persistent_ref.encode()
    }

    /// What `encode` can write and `decode_first` read back: a hash that is
    /// not empty, and lengths that fit their fields.
    pub open spec fn encodable(self) -> bool {
        &&& 0 < self.hash.len() <= u64::MAX
        &&& self.persistent_ref.blob_name.len() <= u64::MAX
    }
}

/// The bytes of a branch with the children `refs`.
pub open spec fn encode_refs(refs: Seq<HashRefView>) -> Seq<u8>
    decreases refs.len(),
{
    if refs.len() == 0 {
        Seq::empty()
    } else {
        encode_refs(refs.drop_last()) + refs.last().encode()
    }
}

/// Reads the first child from the bytes of a branch, and tells how many
/// bytes it took.
pub open spec fn decode_first(bytes: Seq<u8>) -> Option<(HashRefView, int)> {
    if bytes.len() < 8 {
        None
    } else {
        let hash_len = spec_u64_from_le_bytes(bytes.subrange(0, 8)) as int;
        if hash_len == 0 || bytes.len() - 16 < hash_len {
            None
        } else {
            let name_len = spec_u64_from_le_bytes(bytes.subrange(8 + hash_len, 16 + hash_len)) as int;
            if bytes.len() - 8 - hash_len - FIXED_BYTES < name_len {
                None
            } else {
                let end = 8 + hash_len + FIXED_BYTES + name_len;
                match ChunkRefView::decode(bytes.subrange(8 + hash_len, end)) {
                    None => None,
                    Some(persistent_ref) => Some(
                        (HashRefView { hash: bytes.subrange(8, 8 + hash_len), persistent_ref }, end),
                    ),
                }
            }
        }
    }
}

/// Reads the children from the bytes of a branch.
pub open spec fn decode_refs(bytes: Seq<u8>) -> Option<Seq<HashRefView>>
    decreases bytes.len(),
{
    if bytes.len() == 0 {
        Some(Seq::empty())
    } else {
        match decode_first(bytes) {
            None => None,
            Some((first, used)) => if 0 < used <= bytes.len() {
                match decode_refs(bytes.subrange(used, bytes.len() as int)) {
                    None => None,
                    Some(rest) => Some(seq![first] + rest),
                }
            } else {
                None
            },
        }
    }
}

/// The first child is read back from its bytes, whatever follows them.
pub proof fn lemma_decode_first(first: HashRefView, rest: Seq<u8>)
    requires
        first.encodable(),
    ensures
        decode_first(first.encode() + rest) == Some((first, first.encode().len() as int)),
        first.encode().len() == 8 + first.hash.len() + FIXED_BYTES
            + first.persistent_ref.blob_name.len(),
{
    lemma_auto_spec_u64_to_from_le_bytes();
    first.persistent_ref.lemma_decode_encode();
    let bytes = first.encode() + rest;
    let hash_len = first.hash.len() as int;
    let name_len = first.persistent_ref.blob_name.len() as int;
    let end = 8 + hash_len + FIXED_BYTES + name_len;
    assert(first.encode().len() == end);
    assert(bytes.subrange(0, 8) =~= spec_u64_to_le_bytes(hash_len as u64));
    assert(bytes.subrange(8, 8 + hash_len) =~= first.hash);
    assert(bytes.subrange(8 + hash_len, 16 + hash_len) =~= spec_u64_to_le_bytes(name_len as u64));
    assert(bytes.subrange(8 + hash_len, end) =~= first.persistent_ref.encode());
}

/// The bytes of a branch start with the bytes of its first child.
pub proof fn lemma_encode_refs_front(first: HashRefView, rest: Seq<HashRefView>)
    ensures
        encode_refs(seq![first] + rest) == first.encode() + encode_refs(rest),
    decreases rest.len(),
{
    let all = seq![first] + rest;
    if rest.len() == 0 {
        assert(all.drop_last() =~= Seq::<HashRefView>::empty());
        assert(all.last() == first);
        assert(encode_refs(all.drop_last()) =~= Seq::<u8>::empty());
        assert(encode_refs(rest) =~= Seq::<u8>::empty());
        assert(encode_refs(all) == encode_refs(all.drop_last()) + all.last().encode());
        assert(encode_refs(all) =~= first.encode() + encode_refs(rest));
    } else {
        lemma_encode_refs_front(first, rest.drop_last());
        assert(all.drop_last() =~= seq![first] + rest.drop_last());
        assert(all.last() == rest.last());
        assert(encode_refs(all) =~= first.encode() + encode_refs(rest));
    }
}

/// The children of a branch are read back from its bytes.
pub proof fn lemma_decode_encode_refs(refs: Seq<HashRefView>)
    requires
        forall|i: int| 0 <= i < refs.len() ==> (#[trigger] refs[i]).encodable(),
    ensures
        decode_refs(encode_refs(refs)) == Some(refs),
    decreases refs.len(),
{
    if refs.len() > 0 {
        let first = refs[0];
        let rest = refs.subrange(1, refs.len() as int);
        assert(refs =~= seq![first] + rest);
        lemma_encode_refs_front(first, rest);
        lemma_decode_first(first, encode_refs(rest));
        let bytes = encode_refs(refs);
        let used = first.encode().len() as int;
        assert(bytes.subrange(used, bytes.len() as int) =~= encode_refs(rest));
        assert forall|i: int| 0 <= i < rest.len() implies (#[trigger] rest[i]).encodable() by {
            assert(rest[i] == refs[i + 1]);
        }
        lemma_decode_encode_refs(rest);
    }
}

/// Writes the bytes of a branch with the children `refs`.
pub fn encode_children(refs: &Vec<HashRef>) -> (bytes: Vec<u8>)
    ensures
        bytes@ == encode_refs(refs_view(refs@)),
{
    let mut bytes: Vec<u8> = Vec::new();
    let mut i: usize = 0;
    proof {
        assert(refs_view(refs@).take(0) =~= Seq::<HashRefView>::empty());
    }
    while i < refs.len()
        invariant
            i <= refs@.len(),
            bytes@ == encode_refs(refs_view(refs@).take(i as int)),
        decreases refs@.len() - i,
    {
        let child = &refs[i];
        let ghost before = bytes@;
        let hash_len = u64_to_le_bytes(child.hash.bytes.len() as u64);
        bytes.extend_from_slice(hash_len.as_slice());
        bytes.extend_from_slice(child.hash.bytes.as_slice());
        let reference = child.persistent_ref.to_bytes();
        bytes.extend_from_slice(reference.as_slice());
        proof {
            let views = refs_view(refs@);
            assert(views.take(i + 1).drop_last() =~= views.take(i as int));
            assert(views.take(i + 1).last() == child@);
            assert(bytes@ =~= before + child@.encode());
        }
        i += 1;
    }
    proof {
        assert(refs_view(refs@).take(i as int) =~= refs_view(refs@));
    }
    bytes
}

/// Reads the children from the bytes of a branch. Bytes that are not the
/// bytes of a list of children are a malformed record.
pub fn decode_children(bytes: &[u8]) -> (parsed: Result<Vec<HashRef>, HatError>)
    ensures
        match decode_refs(bytes@) {
            Some(refs) => parsed is Ok && refs_view(parsed.unwrap()@) == refs,
            None => parsed matches Err(HatError::Serialization),
        },
{
    let mut out: Vec<HashRef> = Vec::new();
    let mut pos: usize = 0;
    let len = bytes.len();
    proof {
        assert(bytes@.subrange(0, len as int) =~= bytes@);
        assert(refs_view(out@) =~= Seq::<HashRefView>::empty());
        assert(Seq::<HashRefView>::empty() + decode_refs(bytes@).unwrap() =~= decode_refs(
            bytes@,
        ).unwrap());
    }
    while pos < len
        invariant
            len == bytes@.len(),
            pos <= len,
            decode_refs(bytes@) == match decode_refs(bytes@.subrange(pos as int, len as int)) {
                Some(rest) => Some(refs_view(out@) + rest),
                None => None,
            },
        decreases len - pos,
    {
        let ghost suffix = bytes@.subrange(pos as int, len as int);
        let remaining: usize = len - pos;
        if remaining < 16 {
            proof {
                if remaining >= 8 {
                    let hash_len = spec_u64_from_le_bytes(suffix.subrange(0, 8)) as int;
                    assert(hash_len == 0 || suffix.len() - 16 < hash_len);
                }
            }
            return Err(HatError::Serialization);
        }
        let hash_len = u64_from_le_bytes(slice_subrange(bytes, pos, pos + 8));
        proof {
            assert(suffix.subrange(0, 8) =~= bytes@.subrange(pos as int, pos + 8));
        }
        if hash_len == 0 || ((remaining - 16) as u64) < hash_len {
            return Err(HatError::Serialization);
        }
        let hl: usize = hash_len as usize;
        let name_len = u64_from_le_bytes(slice_subrange(bytes, pos + 8 + hl, pos + 16 + hl));
        proof {
            assert(suffix.subrange(8 + hl, 16 + hl) =~= bytes@.subrange(
                pos + 8 + hl,
                pos + 16 + hl,
            ));
        }
        let after_hash: usize = remaining - 8 - hl;
        if after_hash < FIXED_BYTES || ((after_hash - FIXED_BYTES) as u64) < name_len {
            return Err(HatError::Serialization);
        }
        let nl: usize = name_len as usize;
        let used: usize = 8 + hl + FIXED_BYTES + nl;
        proof {
            assert(suffix.subrange(8 + hl, used as int) =~= bytes@.subrange(
                pos + 8 + hl,
                pos + used,
            ));
            assert(suffix.subrange(8, 8 + hl) =~= bytes@.subrange(pos + 8, pos + 8 + hl));
            assert(suffix.subrange(used as int, suffix.len() as int) =~= bytes@.subrange(
                pos + used,
                len as int,
            ));
        }
        let persistent_ref = match ChunkRef::from_bytes(
            slice_subrange(bytes, pos + 8 + hl, pos + used),
        ) {
            Ok(r) => r,
            Err(_) => {
                return Err(HatError::Serialization);
            },
        };
        let hash = crate::hash::Hash {
            bytes: copy_bytes(slice_subrange(bytes, pos + 8, pos + 8 + hl)),
        };
        let ghost before = refs_view(out@);
        let child = HashRef { hash, persistent_ref };
        let ghost first = child@;
        out.push(child);
        proof {
            assert(decode_first(suffix) == Some((first, used as int)));
            assert(refs_view(out@) =~= before.push(first));
            let tail = bytes@.subrange(pos + used, len as int);
            if decode_refs(tail) is Some {
                let rest = decode_refs(tail).unwrap();
                assert(before + (seq![first] + rest) =~= before.push(first) + rest);
            }
        }
        pos = pos + used;
    }
    proof {
        assert(bytes@.subrange(pos as int, len as int) =~= Seq::<u8>::empty());
        assert(refs_view(out@) + Seq::<HashRefView>::empty() =~= refs_view(out@));
    }
    Ok(out)
}

/// The payload of a root: the height of the tree and the length of the stream.
pub open spec fn payload_bytes(height: u64, length: u64) -> Seq<u8> {
    spec_u64_to_le_bytes(height) + spec_u64_to_le_bytes(length)
}

/// The height and the length that a payload tells, if it is a root's payload.
pub open spec fn payload_parts(payload: Seq<u8>) -> Option<(u64, u64)> {
    if payload.len() == 16 {
        Some(
            (
                spec_u64_from_le_bytes(payload.subrange(0, 8)),
                spec_u64_from_le_bytes(payload.subrange(8, 16)),
            ),
        )
    } else {
        None
    }
}

/// A payload tells the height and the length that it was made of.
pub proof fn lemma_payload_round_trip(height: u64, length: u64)
    ensures
        payload_parts(payload_bytes(height, length)) == Some((height, length)),
{
    lemma_auto_spec_u64_to_from_le_bytes();
    let payload = payload_bytes(height, length);
    assert(payload.subrange(0, 8) =~= spec_u64_to_le_bytes(height));
    assert(payload.subrange(8, 16) =~= spec_u64_to_le_bytes(length));
}

/// Writes the payload of a root.
pub fn encode_payload(height: u64, length: u64) -> (payload: Vec<u8>)
    ensures
        payload@ == payload_bytes(height, length),
        payload_parts(payload@) == Some((height, length)),
{
    let mut payload = u64_to_le_bytes(height);
    let tail = u64_to_le_bytes(length);
    payload.extend_from_slice(tail.as_slice());
    proof {
        assert(payload@ =~= payload_bytes(height, length));
        lemma_payload_round_trip(height, length);
    }
    payload
}

/// Reads height and length from the payload of a root.
pub fn decode_payload(payload: &[u8]) -> (parts: Option<(u64, u64)>)
    ensures
        parts == payload_parts(payload@),
{
    if payload.len() != 16 {
        return None;
    }
    let height = u64_from_le_bytes(slice_subrange(payload, 0, 8));
    let length = u64_from_le_bytes(slice_subrange(payload, 8, 16));
    Some((height, length))
}

/// The root of a hash tree: the root node, and the payload that tells the
/// tree's height and the stream's length.
#[derive(Debug, PartialEq, Eq)]
pub struct TreeRoot {
    pub hash: crate::hash::Hash,
    pub persistent_ref: ChunkRef,
    pub payload: Vec<u8>,
}

} // verus!
