//! Content hashes.

use vstd::prelude::*;
use crate::util::bytes::{copy_bytes, same_bytes};

pub mod index;
pub mod tree;

pub use self::index::{Entry, EntryView, HashIndex, ReserveResult, SlotView};

verus! {

/// Number of bytes in every hash that `Hash::new` produces.
pub const HASH_BYTES: usize = 64;

/// The SHA-512 digest of a byte sequence, as libsodium computes it.
pub uninterp spec fn sha512(data: Seq<u8>) -> Seq<u8>;

/// Calls `sodiumoxide::crypto::hash::sha512::hash` and copies the digest out.
/// Trusted: the result is the SHA-512 digest of `data`, a function of the bytes
/// alone, and it is 64 bytes long (`crypto_hash_sha512_BYTES`).
#[verifier::external_body]
fn sha512_digest(data: &[u8]) -> (digest: Vec<u8>)
    ensures
        digest@ == sha512(data@),
        digest@.len() == 64,
{
    sodiumoxide::crypto::hash::sha512::hash(data).0.to_vec()
}

/// Calls `sodiumoxide::init`. Nothing is promised of the outcome: it tells
/// whether libsodium reported that it is ready.
#[verifier::external_body]
pub(crate) fn sodium_ready() -> (ready: bool) {
    sodiumoxide::init().is_ok()
}

/// The hash of a chunk. Two hashes are equal when their bytes are equal; a hash
/// without bytes is invalid.
#[derive(Debug, PartialEq, Eq)]
pub struct Hash {
    pub bytes: Vec<u8>,
}

impl View for Hash {
    type V = Seq<u8>;

    open spec fn view(&self) -> Seq<u8> {
        self.bytes@
    }
}

/// The bytes behind an optional hash.
pub open spec fn opt_hash_view(hash: Option<Hash>) -> Option<Seq<u8>> {
    match hash {
        Some(h) => Some(h@),
        None => None,
    }
}

impl Clone for Hash {
    fn clone(&self) -> (copy: Hash)
        ensures
            copy@ == self@,
    {
        Hash { bytes: copy_bytes(self.bytes.as_slice()) }
    }
}

impl Hash {
    /// Hashes `text`.
    pub fn new(text: &[u8]) -> (hash: Hash)
        ensures
            hash@ == sha512(text@),
            hash@.len() == HASH_BYTES,
            hash.is_valid(),
    {
        Hash { bytes: sha512_digest(text) }
    }

    /// A hash is valid when it has at least one byte.
    pub open spec fn is_valid(&self) -> bool {
        self@.len() > 0
    }

    /// Tells whether the hash has at least one byte.
    pub fn check_valid(&self) -> (valid: bool)
        ensures
            valid == self.is_valid(),
    {
        self.bytes.len() > 0
    }

    /// Byte equality.
    pub fn equals(&self, other: &Hash) -> (same: bool)
        ensures
            same == (self@ == other@),
    {
        same_bytes(self.bytes.as_slice(), other.bytes.as_slice())
    }
}

} // verus!
