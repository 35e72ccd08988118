//! The persistent reference to a chunk, and its canonical byte form.
//!
//! The byte form is the blob name with its length in front, then offset,
//! length and kind: `name_len (u64 LE) | name | offset (u64 LE) | length (u64 LE) | kind (u8)`.

use vstd::prelude::*;
use vstd::bytes::{spec_u64_from_le_bytes, spec_u64_to_le_bytes, u64_from_le_bytes, u64_to_le_bytes, lemma_auto_spec_u64_to_from_le_bytes};
use vstd::slice::slice_subrange;
use crate::errors::HatError;
use crate::util::bytes::{copy_bytes, same_bytes};

verus! {

/// What a chunk holds: file content, or the list of a tree node's children.
#[derive(Clone, Copy, Debug, PartialEq, Eq, Structural)]
pub enum Kind {
    TreeLeaf,
    TreeBranch,
}

/// Number of bytes that the byte form needs besides the blob name.
pub const FIXED_BYTES: usize = 25;

impl Kind {
    /// The byte that stands for the kind in the byte form.
    pub open spec fn spec_to_byte(self) -> u8 {
        match self {
            Kind::TreeLeaf => 0,
            Kind::TreeBranch => 1,
        }
    }

    pub open spec fn spec_from_byte(b: u8) -> Option<Kind> {
        if b == 0 {
            Some(Kind::TreeLeaf)
        } else if b == 1 {
            Some(Kind::TreeBranch)
        } else {
            None
        }
    }

    pub fn to_byte(self) -> (b: u8)
        ensures
            b == self.spec_to_byte(),
    {
        match self {
            Kind::TreeLeaf => 0,
            Kind::TreeBranch => 1,
        }
    }

    pub fn from_byte(b: u8) -> (kind: Option<Kind>)
        ensures
            kind == Kind::spec_from_byte(b),
    {
        if b == 0 {
            Some(Kind::TreeLeaf)
        } else if b == 1 {
            Some(Kind::TreeBranch)
        } else {
            None
        }
    }

    /// Level 0 of a hash tree holds leaves, every higher level branches.
    pub open spec fn spec_of_level(level: i64) -> Kind {
        if level == 0 {
            Kind::TreeLeaf
        } else {
            Kind::TreeBranch
        }
    }

    pub fn of_level(level: i64) -> (kind: Kind)
        ensures
            kind == Kind::spec_of_level(level),
    {
        if level == 0 {
            Kind::TreeLeaf
        } else {
            Kind::TreeBranch
        }
    }
}

/// Locates a chunk: the bytes `[offset, offset + length)` of the named blob.
#[derive(Debug, PartialEq, Eq)]
pub struct ChunkRef {
    pub blob_name: Vec<u8>,
    pub offset: u64,
    pub length: u64,
    pub kind: Kind,
}

/// The mathematical value of a `ChunkRef`.
pub struct ChunkRefView {
    pub blob_name: Seq<u8>,
    pub offset: u64,
    pub length: u64,
    pub kind: Kind,
}

impl View for ChunkRef {
    type V = ChunkRefView;

    open spec fn view(&self) -> ChunkRefView {
        ChunkRefView {
            blob_name: self.blob_name@,
            offset: self.offset,
            length: self.length,
            kind: self.kind,
        }
    }
}

impl ChunkRefView {
    /// The canonical byte form.
    pub open spec fn encode(self) -> Seq<u8> {
        spec_u64_to_le_bytes(self.blob_name.len() as u64) + self.blob_name + spec_u64_to_le_bytes(
            self.offset,
        ) + spec_u64_to_le_bytes(self.length) + seq![self.kind.spec_to_byte()]
    }

    /// The reference that `bytes` is the canonical form of, if it is one.
    pub open spec fn decode(bytes: Seq<u8>) -> Option<ChunkRefView> {
        if bytes.len() < FIXED_BYTES {
            None
        } else {
            let n = bytes.len() - FIXED_BYTES;
            if spec_u64_from_le_bytes(bytes.subrange(0, 8)) != n {
                None
            } else {
                match Kind::spec_from_byte(bytes[n + 24]) {
                    None => None,
                    Some(kind) => Some(
                        ChunkRefView {
                            blob_name: bytes.subrange(8, 8 + n),
                            offset: spec_u64_from_le_bytes(bytes.subrange(8 + n, 16 + n)),
                            length: spec_u64_from_le_bytes(bytes.subrange(16 + n, 24 + n)),
                            kind,
                        },
                    ),
                }
            }
        }
    }

    /// Decoding the byte form of a reference gives the reference back.
    pub proof fn lemma_decode_encode(self)
        requires
            self.blob_name.len() <= u64::MAX,
        ensures
            ChunkRefView::decode(self.encode()) == Some(self),
            self.encode().len() == self.blob_name.len() + FIXED_BYTES,
    {
        lemma_auto_spec_u64_to_from_le_bytes();
        let bytes = self.encode();
        let n = self.blob_name.len() as int;
        assert(bytes.len() == n + 25);
        assert(bytes.subrange(0, 8) =~= spec_u64_to_le_bytes(n as u64));
        assert(bytes.subrange(8, 8 + n) =~= self.blob_name);
        assert(bytes.subrange(8 + n, 16 + n) =~= spec_u64_to_le_bytes(self.offset));
        assert(bytes.subrange(16 + n, 24 + n) =~= spec_u64_to_le_bytes(self.length));
        assert(bytes[n + 24] == self.kind.spec_to_byte());
    }

    /// The byte form is canonical: only the encoding of a reference decodes to it.
    pub proof fn lemma_encode_decode(bytes: Seq<u8>)
        requires
            ChunkRefView::decode(bytes) is Some,
        ensures
            ChunkRefView::decode(bytes).unwrap().encode() == bytes,
    {
        lemma_auto_spec_u64_to_from_le_bytes();
        let v = ChunkRefView::decode(bytes).unwrap();
        let n = bytes.len() - 25;
        assert(spec_u64_to_le_bytes(spec_u64_from_le_bytes(bytes.subrange(0, 8)))
            == bytes.subrange(0, 8));
        assert(spec_u64_to_le_bytes(spec_u64_from_le_bytes(bytes.subrange(8 + n, 16 + n)))
            == bytes.subrange(8 + n, 16 + n));
        assert(spec_u64_to_le_bytes(spec_u64_from_le_bytes(bytes.subrange(16 + n, 24 + n)))
            == bytes.subrange(16 + n, 24 + n));
        assert(v.encode() =~= bytes);
    }
}

impl Clone for ChunkRef {
    fn clone(&self) -> (copy: ChunkRef)
        ensures
            copy@ == self@,
    {
        ChunkRef {
            blob_name: copy_bytes(self.blob_name.as_slice()),
            offset: self.offset,
            length: self.length,
            kind: self.kind,
        }
    }
}

impl ChunkRef {
    /// Tells whether two references locate the same bytes of the same blob.
    pub fn equals(&self, other: &ChunkRef) -> (same: bool)
        ensures
            same == (self@ == other@),
    {
        let same = same_bytes(self.blob_name.as_slice(), other.blob_name.as_slice())
            && self.offset == other.offset && self.length == other.length && self.kind
            == other.kind;
        proof {
            if same {
                assert(self@.blob_name == other@.blob_name);
            }
        }
        same
    }

    /// The canonical byte form of the reference.
    pub fn to_bytes(&self) -> (bytes: Vec<u8>)
        ensures
            bytes@ == self@.encode(),
            ChunkRefView::decode(bytes@) == Some(self@),
    {
        let mut bytes = u64_to_le_bytes(self.blob_name.len() as u64);
        bytes.extend_from_slice(self.blob_name.as_slice());
        let offset = u64_to_le_bytes(self.offset);
        bytes.extend_from_slice(offset.as_slice());
        let length = u64_to_le_bytes(self.length);
        bytes.extend_from_slice(length.as_slice());
        bytes.push(self.kind.to_byte());
        proof {
            assert(bytes@ =~= self@.encode());
            self@.lemma_decode_encode();
        }
        bytes
    }

    /// Reads a reference from its canonical byte form. Any other byte sequence
    /// is rejected as a malformed record.
    pub fn from_bytes(bytes: &[u8]) -> (parsed: Result<ChunkRef, HatError>)
        ensures
            match ChunkRefView::decode(bytes@) {
                Some(v) => parsed is Ok && parsed.unwrap()@ == v,
                None => parsed == Err::<ChunkRef, HatError>(HatError::Serialization),
            },
    {
        if bytes.len() < FIXED_BYTES {
            return Err(HatError::Serialization);
        }
        let n: usize = bytes.len() - FIXED_BYTES;
        let name_len = u64_from_le_bytes(slice_subrange(bytes, 0, 8));
        if name_len != n as u64 {
            return Err(HatError::Serialization);
        }
        match Kind::from_byte(bytes[n + 24]) {
            None => Err(HatError::Serialization),
            Some(kind) => {
                let blob_name = copy_bytes(slice_subrange(bytes, 8, 8 + n));
                let offset = u64_from_le_bytes(slice_subrange(bytes, 8 + n, 16 + n));
                let length = u64_from_le_bytes(slice_subrange(bytes, 16 + n, 24 + n));
                Ok(ChunkRef { blob_name, offset, length, kind })
            },
        }
    }
}

/// The value behind an optional chunk reference.
pub open spec fn opt_ref_view(chunk_ref: Option<ChunkRef>) -> Option<ChunkRefView> {
    match chunk_ref {
        Some(r) => Some(r@),
        None => None,
    }
}

/// A copy of an optional chunk reference.
pub fn copy_opt_ref(chunk_ref: &Option<ChunkRef>) -> (copy: Option<ChunkRef>)
    ensures
        opt_ref_view(copy) == opt_ref_view(*chunk_ref),
{
    match chunk_ref {
        Some(r) => Some(r.clone()),
        None => None,
    }
}

/// Reading back what `to_bytes` wrote gives an equal reference, and writing
/// what `from_bytes` accepted gives the same bytes.
pub proof fn lemma_chunk_ref_round_trip(r: ChunkRef, bytes: Seq<u8>)
    ensures
        ChunkRefView::decode(r@.encode()) == Some(r@),
        ChunkRefView::decode(bytes) is Some ==> ChunkRefView::decode(bytes).unwrap().encode()
            == bytes,
{
    assert(r.blob_name.len() == r.blob_name@.len());
    r@.lemma_decode_encode();
    if ChunkRefView::decode(bytes) is Some {
        ChunkRefView::lemma_encode_decode(bytes);
    }
}

} // verus!
