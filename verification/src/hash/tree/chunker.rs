//! Cutting a stream into chunks. Where a chunk ends depends on the bytes
//! of the chunk, so that a change in one place of a stream moves the cuts
//! near that place only.

use vstd::prelude::*;
use crate::hash::tree::shape::{concat_all, lemma_concat_all_join, lemma_concat_all_one};

verus! {

/// No chunk is cut before it has this many bytes, unless the stream ends.
pub const MIN_CHUNK: usize = 1024;

/// Every chunk is cut when it has this many bytes.
pub const MAX_CHUNK: usize = 65536;

/// The fingerprint of a chunk after one more byte.
pub open spec fn roll(fingerprint: u64, byte: u8) -> u64 {
    ((fingerprint * 31 + byte + 1) % 0x1_0000_0000) as u64
}

/// The fingerprint of the bytes `[start, end)` of a stream.
pub open spec fn fingerprint(data: Seq<u8>, start: int, end: int) -> u64
    decreases end - start,
{
    if end <= start {
        0
    } else {
        roll(fingerprint(data, start, end - 1), data[end - 1])
    }
}

/// Whether a chunk that starts at `start` is cut at `end`: at the end of the
/// stream, at the largest size, or where, from the smallest size on, the low
/// twelve bits of the fingerprint are all set.
pub open spec fn cut_at(data: Seq<u8>, start: int, end: int) -> bool {
    ||| end >= data.len()
    ||| end - start >= MAX_CHUNK
    ||| (end - start >= MIN_CHUNK && fingerprint(data, start, end) % 4096 == 4095)
}

/// The first place at or after `end` where a chunk that starts at `start`
/// is cut.
pub open spec fn next_cut(data: Seq<u8>, start: int, end: int) -> int
    decreases data.len() - end,
{
    if end >= data.len() {
        data.len() as int
    } else if cut_at(data, start, end) {
        end
    } else {
        next_cut(data, start, end + 1)
    }
}

/// The fingerprint after one more byte.
pub fn roll_byte(fingerprint: u64, byte: u8) -> (rolled: u64)
    requires
        fingerprint < 0x1_0000_0000,
    ensures
        rolled == roll(fingerprint, byte),
        rolled < 0x1_0000_0000,
{
    (fingerprint * 31 + (byte as u64) + 1) % 0x1_0000_0000
}

/// Where the chunk that starts at `start` ends. The place depends on the
/// bytes of the chunk alone, so that equal stretches of two streams are cut
/// alike once a cut has fallen on the same byte in both.
pub fn chunk_end(data: &[u8], start: usize) -> (end: usize)
    requires
        start < data@.len(),
    ensures
        end == next_cut(data@, start as int, start + 1),
        start < end <= data@.len(),
        end - start <= MAX_CHUNK,
{
    let len = data.len();
    let mut end: usize = start + 1;
    let mut print: u64 = roll_byte(0, data[start]);
    proof {
        reveal_with_fuel(fingerprint, 2);
    }
    while end < len && !(end - start >= MAX_CHUNK || (end - start >= MIN_CHUNK && print % 4096
        == 4095))
        invariant
            len == data@.len(),
            start < end <= len,
            end - start <= MAX_CHUNK,
            print < 0x1_0000_0000,
            print == fingerprint(data@, start as int, end as int),
            next_cut(data@, start as int, start + 1) == next_cut(data@, start as int, end as int),
        decreases len - end,
    {
        print = roll_byte(print, data[end]);
        end += 1;
    }
    end
}

/// A cut falls behind the place from which it is looked for, and within the
/// stream.
pub proof fn lemma_next_cut_bounds(data: Seq<u8>, start: int, end: int)
    requires
        end <= data.len(),
    ensures
        end <= next_cut(data, start, end) <= data.len(),
    decreases data.len() - end,
{
    if end < data.len() && !cut_at(data, start, end) {
        lemma_next_cut_bounds(data, start, end + 1);
    }
}

/// The pieces that a stream is cut into from the place `start` on.
pub open spec fn pieces_from(data: Seq<u8>, start: int) -> Seq<Seq<u8>>
    decreases data.len() - start,
{
    if start < 0 || start >= data.len() {
        Seq::empty()
    } else {
        let end = next_cut(data, start, start + 1);
        if end <= start || end > data.len() {
            Seq::empty()
        } else {
            seq![data.subrange(start, end)] + pieces_from(data, end)
        }
    }
}

/// The pieces that a stream is cut into.
pub open spec fn pieces(data: Seq<u8>) -> Seq<Seq<u8>> {
    pieces_from(data, 0)
}

/// The pieces of a stream, one after the other, are the stream.
pub proof fn lemma_pieces_make_stream(data: Seq<u8>, start: int)
    requires
        0 <= start <= data.len(),
    ensures
        concat_all(pieces_from(data, start)) == data.subrange(start, data.len() as int),
    decreases data.len() - start,
{
    if start < data.len() {
        let end = next_cut(data, start, start + 1);
        lemma_next_cut_bounds(data, start, start + 1);
        lemma_pieces_make_stream(data, end);
        lemma_concat_all_join(seq![data.subrange(start, end)], pieces_from(data, end));
        lemma_concat_all_one(data.subrange(start, end));
        assert(data.subrange(start, end) + data.subrange(end, data.len() as int)
            =~= data.subrange(start, data.len() as int));
    } else {
        assert(data.subrange(start, data.len() as int) =~= Seq::<u8>::empty());
    }
}

} // verus!
