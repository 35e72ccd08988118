//! The hash index: the registry of every hash that is known, with the
//! reference of its chunk once that is committed.
//!
//! A hash is reserved by the first ingester that brings it and committed when
//! the blob with its chunk has been written. Whoever brings the hash again in
//! between is told that it is known, and to ask again for the reference.

use vstd::prelude::*;
use crate::blob::chunk_ref::{copy_opt_ref, opt_ref_view};
use crate::blob::{ChunkRef, ChunkRefView};
use crate::errors::{HatError, RetryError};
use crate::util::bytes::{copy_opt_bytes, opt_bytes_view, same_bytes};
use crate::util::assoc::{assoc_map, has_key, keys_distinct, lemma_assoc_at, lemma_assoc_dom, lemma_assoc_push, lemma_assoc_update};

verus! {

/// What is known of a hash: the level of its node in the hash tree (0 for a
/// leaf), the node's payload, and the reference of its chunk.
#[derive(Debug, PartialEq, Eq)]
pub struct Entry {
    pub hash: crate::hash::Hash,
    pub level: i64,
    pub payload: Option<Vec<u8>>,
    pub persistent_ref: Option<ChunkRef>,
}

/// The mathematical value of an `Entry`.
pub struct EntryView {
    pub hash: Seq<u8>,
    pub level: i64,
    pub payload: Option<Seq<u8>>,
    pub persistent_ref: Option<ChunkRefView>,
}

impl View for Entry {
    type V = EntryView;

    open spec fn view(&self) -> EntryView {
        EntryView {
            hash: self.hash@,
            level: self.level,
            payload: opt_bytes_view(self.payload),
            persistent_ref: opt_ref_view(self.persistent_ref),
        }
    }
}

impl Clone for Entry {
    fn clone(&self) -> (copy: Entry)
        ensures
            copy@ == self@,
    {
        Entry {
            hash: self.hash.clone(),
            level: self.level,
            payload: copy_opt_bytes(&self.payload),
            persistent_ref: copy_opt_ref(&self.persistent_ref),
        }
    }
}

/// The answer to a reservation.
#[derive(Debug, PartialEq, Eq)]
pub enum ReserveResult {
    /// The hash has an entry already: this one.
    HashKnown(Entry),
    /// The hash was unknown and is reserved now. The number counts the
    /// entries that the index held before.
    ReserveOk(u64),
}

/// What the index holds for one hash.
pub struct SlotView {
    pub level: i64,
    pub payload: Option<Seq<u8>>,
    pub persistent_ref: Option<ChunkRefView>,
    pub committed: bool,
}

impl SlotView {
    /// The slot of a fresh reservation for `entry`.
    pub open spec fn reserved(entry: EntryView) -> SlotView {
        SlotView {
            level: entry.level,
            payload: entry.payload,
            persistent_ref: entry.persistent_ref,
            committed: false,
        }
    }

    /// The slot after its commit with `chunk_ref`.
    pub open spec fn committed_with(self, chunk_ref: ChunkRefView) -> SlotView {
        SlotView { persistent_ref: Some(chunk_ref), committed: true, ..self }
    }

    /// The entry that the slot makes for the hash `hash`.
    pub open spec fn entry(self, hash: Seq<u8>) -> EntryView {
        EntryView {
            hash,
            level: self.level,
            payload: self.payload,
            persistent_ref: self.persistent_ref,
        }
    }
}

/// One entry of the index with the mark of its commit.
struct Slot {
    entry: Entry,
    committed: bool,
}

impl View for Slot {
    type V = SlotView;

    closed spec fn view(&self) -> SlotView {
        SlotView {
            level: self.entry.level,
            payload: opt_bytes_view(self.entry.payload),
            persistent_ref: opt_ref_view(self.entry.persistent_ref),
            committed: self.committed,
        }
    }
}

/// The hash index: one slot for each hash that is known, in the order of
/// the reservations.
pub struct HashIndex {
    slots: Vec<Slot>,
}

impl View for HashIndex {
    type V = Map<Seq<u8>, SlotView>;

    /// The index as a map from hash to slot.
    closed spec fn view(&self) -> Map<Seq<u8>, SlotView> {
        assoc_map(self.pairs())
    }
}

impl HashIndex {
    /// The slots in the order of their reservation, each with its hash.
    pub closed spec fn pairs(&self) -> Seq<(Seq<u8>, SlotView)> {
        self.slots@.map_values(|s: Slot| (s.entry.hash@, s@))
    }

    /// No hash has two entries, and a committed entry has its reference.
    pub closed spec fn wf(&self) -> bool {
        &&& keys_distinct(self.pairs())
        &&& forall|i: int|
            0 <= i < self.pairs().len() && (#[trigger] self.pairs()[i]).1.committed
                ==> self.pairs()[i].1.persistent_ref is Some
    }

    /// A committed entry has its reference.
    pub proof fn lemma_committed_has_ref(&self, hash: Seq<u8>)
        requires
            self.wf(),
            self@.contains_key(hash),
            self@[hash].committed,
        ensures
            self@[hash].persistent_ref is Some,
    {
        lemma_assoc_dom(self.pairs(), hash);
        let i = choose|i: int| 0 <= i < self.pairs().len() && (#[trigger] self.pairs()[i]).0 == hash;
        lemma_assoc_at(self.pairs(), i);
    }

    /// Number of hashes known.
    pub closed spec fn count(&self) -> nat {
        self.slots@.len()
    }

    /// An index that knows no hash.
    pub fn new() -> (index: HashIndex)
        ensures
            index.wf(),
            index@ == Map::<Seq<u8>, SlotView>::empty(),
            index.count() == 0,
    {
        let index = HashIndex { slots: Vec::new() };
        assert(index.pairs() =~= Seq::empty());
        index
    }

    /// Number of hashes known.
    pub fn len(&self) -> (n: usize)
        ensures
            n == self.count(),
    {
        self.slots.len()
    }

    /// Every hash that the index knows is committed.
    pub open spec fn settled(&self) -> bool {
        forall|h: Seq<u8>| #[trigger] self@.contains_key(h) ==> self@[h].committed
    }

    /// Tells whether every hash that the index knows is committed.
    pub fn is_settled(&self) -> (settled: bool)
        requires
            self.wf(),
        ensures
            settled == self.settled(),
    {
        let mut i: usize = 0;
        while i < self.slots.len()
            invariant
                self.wf(),
                i <= self.slots@.len(),
                forall|j: int| 0 <= j < i ==> (#[trigger] self.pairs()[j]).1.committed,
            decreases self.slots@.len() - i,
        {
            if !self.slots[i].committed {
                proof {
                    lemma_assoc_at(self.pairs(), i as int);
                    assert(self@.contains_key(self.pairs()[i as int].0));
                }
                return false;
            }
            i += 1;
        }
        proof {
            assert forall|h: Seq<u8>| #[trigger] self@.contains_key(h) implies self@[h].committed by {
                lemma_assoc_dom(self.pairs(), h);
                let k = choose|k: int|
                    0 <= k < self.pairs().len() && (#[trigger] self.pairs()[k]).0 == h;
                lemma_assoc_at(self.pairs(), k);
            }
        }
        true
    }

    /// The place of the slot of `hash`.
    fn position_of(&self, hash: &[u8]) -> (place: Option<usize>)
        requires
            self.wf(),
        ensures
            match place {
                Some(i) => {
                    &&& i < self.pairs().len()
                    &&& self.pairs()[i as int].0 == hash@
                    &&& self@.contains_key(hash@)
                    &&& self@[hash@] == self.pairs()[i as int].1
                },
                None => !self@.contains_key(hash@) && !has_key(self.pairs(), hash@),
            },
    {
        let mut i: usize = 0;
        while i < self.slots.len()
            invariant
                self.wf(),
                i <= self.slots@.len(),
                forall|j: int| 0 <= j < i ==> (#[trigger] self.pairs()[j]).0 != hash@,
            decreases self.slots@.len() - i,
        {
            if same_bytes(self.slots[i].entry.hash.bytes.as_slice(), hash) {
                proof {
                    lemma_assoc_at(self.pairs(), i as int);
                }
                return Some(i);
            }
            i += 1;
        }
        proof {
            lemma_assoc_dom(self.pairs(), hash@);
        }
        None
    }

    /// Reserves the hash of `entry` if it has no entry yet. This is the one
    /// place where it is decided who stores a chunk: the caller that is told
    /// `ReserveOk`.
    pub fn reserve(&mut self, entry: &Entry) -> (answer: ReserveResult)
        requires
            old(self).wf(),
        ensures
            final(self).wf(),
            match answer {
                ReserveResult::HashKnown(known) => {
                    &&& old(self)@.contains_key(entry@.hash)
                    &&& known@ == old(self)@[entry@.hash].entry(entry@.hash)
                    &&& final(self)@ == old(self)@
                    &&& final(self).count() == old(self).count()
                },
                ReserveResult::ReserveOk(token) => {
                    &&& !old(self)@.contains_key(entry@.hash)
                    &&& token == old(self).count()
                    &&& final(self)@ == old(self)@.insert(entry@.hash, SlotView::reserved(entry@))
                    &&& final(self).count() == old(self).count() + 1
                },
            },
    {
        match self.position_of(entry.hash.bytes.as_slice()) {
            Some(i) => ReserveResult::HashKnown(self.slots[i].entry.clone()),
            None => {
                let token = self.slots.len() as u64;
                let ghost before = self.pairs();
                self.slots.push(Slot { entry: entry.clone(), committed: false });
                proof {
                    assert(self.pairs() =~= before.push((entry@.hash, SlotView::reserved(entry@))));
                    lemma_assoc_push(before, entry@.hash, SlotView::reserved(entry@));
                }
                ReserveResult::ReserveOk(token)
            },
        }
    }

    /// Records level, payload and reference of `entry` against its hash while
    /// that is reserved; the hash stays reserved. Nothing changes for a hash
    /// that is unknown or committed already.
    pub fn update_reserved(&mut self, entry: Entry)
        requires
            old(self).wf(),
        ensures
            final(self).wf(),
            final(self).count() == old(self).count(),
            final(self)@ == if old(self)@.contains_key(entry@.hash) && !old(self)@[entry@.hash].committed {
                old(self)@.insert(entry@.hash, SlotView::reserved(entry@))
            } else {
                old(self)@
            },
    {
        match self.position_of(entry.hash.bytes.as_slice()) {
            Some(i) => {
                if !self.slots[i].committed {
                    let ghost before = self.pairs();
                    let ghost hash = entry@.hash;
                    let ghost slot = SlotView::reserved(entry@);
                    let place = &mut self.slots[i];
                    place.entry.level = entry.level;
                    place.entry.payload = entry.payload;
                    place.entry.persistent_ref = entry.persistent_ref;
                    proof {
                        assert(self.pairs() =~= before.update(i as int, (hash, slot)));
                        lemma_assoc_update(before, i as int, slot);
                    }
                }
            },
            None => {},
        }
    }

    /// Commits `hash` with the reference of its chunk. The hash must be
    /// known. Committing it again with the same reference changes nothing;
    /// with another reference it is a breach of the protocol, which callers
    /// rule out.
    pub fn commit(&mut self, hash: &crate::hash::Hash, chunk_ref: ChunkRef)
        requires
            old(self).wf(),
            old(self)@.contains_key(hash@),
            old(self)@[hash@].committed ==> old(self)@[hash@].persistent_ref == Some(chunk_ref@),
        ensures
            final(self).wf(),
            final(self).count() == old(self).count(),
            final(self)@ == old(self)@.insert(hash@, old(self)@[hash@].committed_with(chunk_ref@)),
    {
        match self.position_of(hash.bytes.as_slice()) {
            Some(i) => {
                let ghost before = self.pairs();
                let ghost slot = before[i as int].1.committed_with(chunk_ref@);
                let place = &mut self.slots[i];
                place.entry.persistent_ref = Some(chunk_ref);
                place.committed = true;
                proof {
                    assert(self.pairs() =~= before.update(i as int, (hash@, slot)));
                    lemma_assoc_update(before, i as int, slot);
                }
            },
            None => {},
        }
    }

    /// The reference of the chunk of `hash`: `Some` when the hash is
    /// committed, `None` when it is unknown, and the request to retry when it
    /// is reserved and not yet committed.
    pub fn fetch_persistent_ref(&self, hash: &crate::hash::Hash) -> (fetched: Result<
        Option<ChunkRef>,
        RetryError,
    >)
        requires
            self.wf(),
        ensures
            match fetched {
                Ok(Some(chunk_ref)) => {
                    &&& self@.contains_key(hash@)
                    &&& self@[hash@].committed
                    &&& self@[hash@].persistent_ref == Some(chunk_ref@)
                },
                Ok(None) => !self@.contains_key(hash@),
                Err(_) => self@.contains_key(hash@) && !self@[hash@].committed,
            },
    {
        match self.position_of(hash.bytes.as_slice()) {
            None => Ok(None),
            Some(i) => {
                if self.slots[i].committed {
                    match &self.slots[i].entry.persistent_ref {
                        Some(chunk_ref) => Ok(Some(chunk_ref.clone())),
                        None => Err(RetryError),
                    }
                } else {
                    Err(RetryError)
                }
            },
        }
    }

    /// The payload of `hash` once the hash is committed: `None` for a hash
    /// that is unknown or only reserved, else the payload, which may itself
    /// be absent.
    pub fn fetch_payload(&self, hash: &crate::hash::Hash) -> (fetched: Option<Option<Vec<u8>>>)
        requires
            self.wf(),
        ensures
            match fetched {
                Some(payload) => {
                    &&& self@.contains_key(hash@)
                    &&& self@[hash@].committed
                    &&& opt_bytes_view(payload) == self@[hash@].payload
                },
                None => !self@.contains_key(hash@) || !self@[hash@].committed,
            },
    {
        match self.position_of(hash.bytes.as_slice()) {
            None => None,
            Some(i) => {
                if self.slots[i].committed {
                    Some(copy_opt_bytes(&self.slots[i].entry.payload))
                } else {
                    None
                }
            },
        }
    }

    /// The index that a restart leaves: the committed entries, in their
    /// order. What was only reserved is gone.
    pub fn recovered(&self) -> (index: HashIndex)
        requires
            self.wf(),
        ensures
            index.wf(),
            index.settled(),
            index@ == committed_part(self@),
    {
        let mut slots: Vec<Slot> = Vec::new();
        let ghost mut origin: Seq<int> = Seq::empty();
        let mut i: usize = 0;
        while i < self.slots.len()
            invariant
                self.wf(),
                i <= self.slots@.len(),
                origin.len() == slots@.len(),
                forall|k: int| 0 <= k < origin.len() ==> 0 <= (#[trigger] origin[k]) < i,
                forall|k: int, m: int| 0 <= k < m < origin.len() ==> origin[k] < origin[m],
                forall|k: int|
                    0 <= k < slots@.len() ==> (#[trigger] slots@[k]).entry.hash@ == self.pairs()[origin[k]].0
                        && slots@[k]@ == self.pairs()[origin[k]].1 && slots@[k]@.committed,
                forall|j: int|
                    0 <= j < i && (#[trigger] self.pairs()[j]).1.committed ==> exists|k: int|
                        0 <= k < origin.len() && origin[k] == j,
            decreases self.slots@.len() - i,
        {
            if self.slots[i].committed {
                slots.push(Slot { entry: self.slots[i].entry.clone(), committed: true });
                proof {
                    let before = origin;
                    origin = origin.push(i as int);
                    assert forall|j: int|
                        0 <= j < i + 1 && (#[trigger] self.pairs()[j]).1.committed implies exists|
                        k: int,
                    |
                        0 <= k < origin.len() && origin[k] == j by {
                        if j < i {
                            let k = choose|k: int| 0 <= k < before.len() && before[k] == j;
                            assert(origin[k] == j);
                        } else {
                            assert(origin[before.len() as int] == j);
                        }
                    }
                }
            }
            i += 1;
        }
        let index = HashIndex { slots };
        proof {
            let pairs = self.pairs();
            let kept = index.pairs();
            assert forall|a: int, b: int| 0 <= a < b < kept.len() implies (#[trigger] kept[a]).0 != (
            #[trigger] kept[b]).0 by {
                assert(origin[a] < origin[b]);
                assert(pairs[origin[a]].0 != pairs[origin[b]].0);
            }
            assert forall|h: Seq<u8>| #[trigger] index@.contains_key(h) implies index@[h].committed by {
                lemma_assoc_dom(kept, h);
                let k = choose|k: int| 0 <= k < kept.len() && (#[trigger] kept[k]).0 == h;
                lemma_assoc_at(kept, k);
            }
            let target = committed_part(self@);
            assert forall|h: Seq<u8>| index@.contains_key(h) <==> target.contains_key(h) by {
                lemma_assoc_dom(kept, h);
                lemma_assoc_dom(pairs, h);
                if has_key(kept, h) {
                    let k = choose|k: int| 0 <= k < kept.len() && (#[trigger] kept[k]).0 == h;
                    lemma_assoc_at(pairs, origin[k]);
                    assert(pairs[origin[k]].0 == h);
                }
                if target.contains_key(h) {
                    let j = choose|j: int| 0 <= j < pairs.len() && (#[trigger] pairs[j]).0 == h;
                    lemma_assoc_at(pairs, j);
                    let k = choose|k: int| 0 <= k < origin.len() && origin[k] == j;
                    assert(kept[k].0 == h);
                }
            }
            assert forall|h: Seq<u8>| index@.contains_key(h) implies index@[h] == target[h] by {
                lemma_assoc_dom(kept, h);
                let k = choose|k: int| 0 <= k < kept.len() && (#[trigger] kept[k]).0 == h;
                lemma_assoc_at(kept, k);
                lemma_assoc_at(pairs, origin[k]);
            }
            assert(index@ =~= target);
        }
        index
    }

    /// The entries of all hashes, committed or not, in the order of their
    /// reservation, each with the mark of its commit.
    pub fn entries(&self) -> (entries: Vec<(Entry, bool)>)
        requires
            self.wf(),
        ensures
            entries@.len() == self.count(),
            forall|i: int|
                0 <= i < entries@.len() ==> {
                    &&& self@.contains_key((#[trigger] entries@[i]).0@.hash)
                    &&& entries@[i].0@ == self@[entries@[i].0@.hash].entry(entries@[i].0@.hash)
                    &&& entries@[i].1 == self@[entries@[i].0@.hash].committed
                },
            forall|i: int, j: int|
                0 <= i < j < entries@.len() ==> (#[trigger] entries@[i]).0@.hash != (
                #[trigger] entries@[j]).0@.hash,
            forall|h: Seq<u8>| #[trigger]
                self@.contains_key(h) ==> exists|i: int|
                    0 <= i < entries@.len() && (#[trigger] entries@[i]).0@.hash == h,
    {
        let mut entries: Vec<(Entry, bool)> = Vec::new();
        let mut i: usize = 0;
        while i < self.slots.len()
            invariant
                self.wf(),
                i <= self.slots@.len(),
                entries@.len() == i,
                forall|k: int|
                    0 <= k < i ==> (#[trigger] entries@[k]).0@.hash == self.pairs()[k].0
                        && entries@[k].0@ == self.pairs()[k].1.entry(self.pairs()[k].0)
                        && entries@[k].1 == self.pairs()[k].1.committed,
            decreases self.slots@.len() - i,
        {
            entries.push((self.slots[i].entry.clone(), self.slots[i].committed));
            i += 1;
        }
        proof {
            let pairs = self.pairs();
            assert forall|k: int| 0 <= k < entries@.len() implies {
                &&& self@.contains_key((#[trigger] entries@[k]).0@.hash)
                &&& entries@[k].0@ == self@[entries@[k].0@.hash].entry(entries@[k].0@.hash)
                &&& entries@[k].1 == self@[entries@[k].0@.hash].committed
            } by {
                lemma_assoc_at(pairs, k);
            }
            assert forall|a: int, b: int| 0 <= a < b < entries@.len() implies (
            #[trigger] entries@[a]).0@.hash != (#[trigger] entries@[b]).0@.hash by {
                assert(pairs[a].0 != pairs[b].0);
            }
            assert forall|h: Seq<u8>| #[trigger] self@.contains_key(h) implies exists|k: int|
                0 <= k < entries@.len() && (#[trigger] entries@[k]).0@.hash == h by {
                lemma_assoc_dom(pairs, h);
                let k = choose|k: int| 0 <= k < pairs.len() && (#[trigger] pairs[k]).0 == h;
                assert(entries@[k].0@.hash == h);
            }
        }
        entries
    }

    /// An index over entries that were saved as committed. A list in which a
    /// hash occurs twice, or an entry has no reference, is malformed.
    pub fn restore(entries: Vec<Entry>) -> (restored: Result<HashIndex, HatError>)
        ensures
            match restored {
                Ok(index) => {
                    &&& restorable(entries@)
                    &&& index.wf()
                    &&& index.settled()
                    &&& index.count() == entries@.len()
                    &&& forall|i: int|
                        0 <= i < entries@.len() ==> index@.contains_key(
                            (#[trigger] entries@[i])@.hash,
                        ) && index@[entries@[i]@.hash] == SlotView::reserved(
                            entries@[i]@,
                        ).committed_with(entries@[i]@.persistent_ref.unwrap())
                    &&& forall|h: Seq<u8>| #[trigger]
                        index@.contains_key(h) ==> exists|i: int|
                            0 <= i < entries@.len() && (#[trigger] entries@[i])@.hash == h
                },
                Err(e) => e == HatError::Serialization && !restorable(entries@),
            },
    {
        let mut index = HashIndex::new();
        let mut i: usize = 0;
        while i < entries.len()
            invariant
                i <= entries@.len(),
                index.wf(),
                index.slots@.len() == i,
                forall|k: int|
                    0 <= k < i ==> (#[trigger] entries@[k])@.persistent_ref is Some
                        && index.pairs()[k].0 == entries@[k]@.hash && index.pairs()[k].1
                        == SlotView::reserved(entries@[k]@).committed_with(
                        entries@[k]@.persistent_ref.unwrap(),
                    ),
            decreases entries@.len() - i,
        {
            let entry = &entries[i];
            if entry.persistent_ref.is_none() {
                return Err(HatError::Serialization);
            }
            match index.position_of(entry.hash.bytes.as_slice()) {
                Some(k) => {
                    assert(entries@[k as int]@.hash == entries@[i as int]@.hash);
                    return Err(HatError::Serialization);
                },
                None => {},
            }
            let ghost before = index.pairs();
            index.slots.push(Slot { entry: entry.clone(), committed: true });
            proof {
                let slot = SlotView::reserved(entry@).committed_with(
                    entry@.persistent_ref.unwrap(),
                );
                assert(index.pairs() =~= before.push((entry@.hash, slot)));
                lemma_assoc_push(before, entry@.hash, slot);
            }
            i += 1;
        }
        proof {
            let pairs = index.pairs();
            assert forall|a: int, b: int| 0 <= a < b < entries@.len() implies (
            #[trigger] entries@[a])@.hash != (#[trigger] entries@[b])@.hash by {
                assert(pairs[a].0 != pairs[b].0);
            }
            assert forall|k: int| 0 <= k < entries@.len() implies index@.contains_key(
                (#[trigger] entries@[k])@.hash,
            ) && index@[entries@[k]@.hash] == SlotView::reserved(entries@[k]@).committed_with(
                entries@[k]@.persistent_ref.unwrap(),
            ) by {
                lemma_assoc_at(pairs, k);
            }
            assert forall|h: Seq<u8>| #[trigger] index@.contains_key(h) implies (exists|k: int|
                0 <= k < entries@.len() && (#[trigger] entries@[k])@.hash == h)
                && index@[h].committed by {
                lemma_assoc_dom(pairs, h);
                let k = choose|k: int| 0 <= k < pairs.len() && (#[trigger] pairs[k]).0 == h;
                lemma_assoc_at(pairs, k);
                assert(entries@[k]@.hash == h);
            }
        }
        Ok(index)
    }
}

/// The committed entries of an index.
pub open spec fn committed_part(index: Map<Seq<u8>, SlotView>) -> Map<Seq<u8>, SlotView> {
    index.restrict(Set::new(|h: Seq<u8>| index.contains_key(h) && index[h].committed))
}

/// Whether a list of entries can be restored: every entry has its reference,
/// and no hash occurs twice.
pub open spec fn restorable(entries: Seq<Entry>) -> bool {
    &&& forall|i: int| 0 <= i < entries.len() ==> (#[trigger] entries[i])@.persistent_ref is Some
    &&& forall|i: int, j: int|
        0 <= i < j < entries.len() ==> (#[trigger] entries[i])@.hash != (#[trigger] entries[j])@.hash
}

} // verus!
