//! The chunk service of the hash tree: a hash index and a blob store, bound
//! together so that every chunk is stored at most once and that its reference
//! is committed only after its blob has been written.

use vstd::prelude::*;
use crate::backend::StoreBackend;
use crate::blob::store::{blob_name, completions_view, LogEntry};
use crate::blob::chunk_ref::opt_ref_view;
use crate::blob::{BlobStore, ChunkRef, ChunkRefView, Completion, Kind};
use crate::errors::HatError;
use crate::hash::index::{Entry, HashIndex, ReserveResult, SlotView};
use crate::hash::{sha512, sodium_ready};
use crate::util::bytes::{copy_bytes, opt_bytes_view};

verus! {

/// How the index `index` and the blob store's log belong together. Of the
/// log only the part from `base` on is spoken of: the chunks that came through
/// the service. `done` is the number of log entries whose blob is written.
///
/// - No two of these chunks have the same hash.
/// - Each of their hashes is in the index: committed with the chunk's
///   reference when the blob is written, reserved otherwise, and then with
///   that reference or none.
/// - Every other hash of the index, those of `before`, is committed.
pub open spec fn linked(
    index: Map<Seq<u8>, SlotView>,
    log: Seq<LogEntry>,
    base: int,
    done: int,
    before: Set<Seq<u8>>,
) -> bool {
    &&& 0 <= base <= done <= log.len()
    &&& forall|i: int, j: int|
        base <= i < j < log.len() ==> (#[trigger] log[i]).token != (#[trigger] log[j]).token
    &&& forall|i: int|
        base <= i < log.len() ==> {
            let slot = index[(#[trigger] log[i]).token];
            &&& index.contains_key(log[i].token)
            &&& !before.contains(log[i].token)
            &&& (i < done ==> slot.committed && slot.persistent_ref == Some(log[i].chunk_ref))
            &&& (i >= done ==> !slot.committed && (slot.persistent_ref is None
                || slot.persistent_ref == Some(log[i].chunk_ref)))
        }
    &&& forall|h: Seq<u8>| #[trigger]
        index.contains_key(h) ==> before.contains(h) || written_at(log, base, h) is Some
    &&& forall|h: Seq<u8>| #[trigger] before.contains(h) ==> index.contains_key(h) && index[h].committed
}

/// The place in the log, from `base` on, of the chunk with the hash `hash`.
pub open spec fn written_at(log: Seq<LogEntry>, base: int, hash: Seq<u8>) -> Option<int> {
    if exists|i: int| base <= i < log.len() && (#[trigger] log[i]).token == hash {
        Some(choose|i: int| base <= i < log.len() && (#[trigger] log[i]).token == hash)
    } else {
        None
    }
}

/// With distinct hashes, the place of a log entry is the place of its hash.
pub proof fn lemma_written_at(
    index: Map<Seq<u8>, SlotView>,
    log: Seq<LogEntry>,
    base: int,
    done: int,
    before: Set<Seq<u8>>,
    i: int,
)
    requires
        linked(index, log, base, done, before),
        base <= i < log.len(),
    ensures
        written_at(log, base, log[i].token) == Some(i),
{
    let h = log[i].token;
    let j = choose|j: int| base <= j < log.len() && (#[trigger] log[j]).token == h;
    if j < i {
        assert(log[j].token != log[i].token);
    }
    if i < j {
        assert(log[i].token != log[j].token);
    }
}

/// A reserved hash has its chunk among the pending ones.
pub proof fn lemma_reserved_is_pending(
    index: Map<Seq<u8>, SlotView>,
    log: Seq<LogEntry>,
    base: int,
    done: int,
    before: Set<Seq<u8>>,
    hash: Seq<u8>,
)
    requires
        linked(index, log, base, done, before),
        index.contains_key(hash),
        !index[hash].committed,
    ensures
        written_at(log, base, hash) is Some,
        done <= written_at(log, base, hash).unwrap() < log.len(),
        log[written_at(log, base, hash).unwrap()].token == hash,
{
    assert(!before.contains(hash));
    let i = written_at(log, base, hash).unwrap();
    assert(log[i].token == hash);
}

/// Reserving an unknown hash and storing its chunk keeps index and log together.
pub proof fn lemma_linked_after_store(
    index: Map<Seq<u8>, SlotView>,
    log: Seq<LogEntry>,
    base: int,
    done: int,
    before: Set<Seq<u8>>,
    entry: LogEntry,
    slot: SlotView,
)
    requires
        linked(index, log, base, done, before),
        !index.contains_key(entry.token),
        !slot.committed,
        slot.persistent_ref is None || slot.persistent_ref == Some(entry.chunk_ref),
    ensures
        linked(index.insert(entry.token, slot), log.push(entry), base, done, before),
{
    let index2 = index.insert(entry.token, slot);
    let log2 = log.push(entry);
    assert forall|i: int, j: int| base <= i < j < log2.len() implies (#[trigger] log2[i]).token != (
    #[trigger] log2[j]).token by {
        if j < log.len() {
            assert(log[i].token != log[j].token);
        } else {
            assert(index.contains_key(log[i].token));
        }
    }
    assert forall|i: int| base <= i < log2.len() implies {
        let slot = index2[(#[trigger] log2[i]).token];
        &&& index2.contains_key(log2[i].token)
        &&& !before.contains(log2[i].token)
        &&& (i < done ==> slot.committed && slot.persistent_ref == Some(log2[i].chunk_ref))
        &&& (i >= done ==> !slot.committed && (slot.persistent_ref is None || slot.persistent_ref
            == Some(log2[i].chunk_ref)))
    } by {
        if i < log.len() {
            assert(log2[i] == log[i]);
            assert(index.contains_key(log[i].token));
        }
    }
    assert forall|h: Seq<u8>| #[trigger] index2.contains_key(h) implies before.contains(h)
        || written_at(log2, base, h) is Some by {
        if h == entry.token {
            assert(log2[log.len() as int].token == h);
        } else if !before.contains(h) {
            let i = written_at(log, base, h).unwrap();
            assert(log2[i].token == h);
        }
    }
}

/// Overwriting the slot of a reserved hash, with its chunk's reference or
/// with none, keeps index and log together.
pub proof fn lemma_linked_after_update(
    index: Map<Seq<u8>, SlotView>,
    log: Seq<LogEntry>,
    base: int,
    done: int,
    before: Set<Seq<u8>>,
    i: int,
    slot: SlotView,
)
    requires
        linked(index, log, base, done, before),
        done <= i < log.len(),
        !slot.committed,
        slot.persistent_ref is None || slot.persistent_ref == Some(log[i].chunk_ref),
    ensures
        linked(index.insert(log[i].token, slot), log, base, done, before),
{
    let index2 = index.insert(log[i].token, slot);
    assert forall|j: int| base <= j < log.len() implies {
        let slot = index2[(#[trigger] log[j]).token];
        &&& index2.contains_key(log[j].token)
        &&& !before.contains(log[j].token)
        &&& (j < done ==> slot.committed && slot.persistent_ref == Some(log[j].chunk_ref))
        &&& (j >= done ==> !slot.committed && (slot.persistent_ref is None || slot.persistent_ref
            == Some(log[j].chunk_ref)))
    } by {
        if j < i {
            assert(log[j].token != log[i].token);
        }
        if i < j {
            assert(log[i].token != log[j].token);
        }
    }
    assert forall|h: Seq<u8>| #[trigger] index2.contains_key(h) implies before.contains(h)
        || written_at(log, base, h) is Some by {
        if h == log[i].token {
            assert(log[i].token == h);
        }
    }
}

/// Committing the first pending chunk with its reference keeps index and log
/// together, with one more log entry done.
pub proof fn lemma_linked_after_commit(
    index: Map<Seq<u8>, SlotView>,
    log: Seq<LogEntry>,
    base: int,
    done: int,
    before: Set<Seq<u8>>,
)
    requires
        linked(index, log, base, done, before),
        done < log.len(),
    ensures
        linked(
            index.insert(log[done].token, index[log[done].token].committed_with(log[done].chunk_ref)),
            log,
            base,
            done + 1,
            before,
        ),
{
    let h = log[done].token;
    let index2 = index.insert(h, index[h].committed_with(log[done].chunk_ref));
    assert forall|j: int| base <= j < log.len() implies {
        let slot = index2[(#[trigger] log[j]).token];
        &&& index2.contains_key(log[j].token)
        &&& !before.contains(log[j].token)
        &&& (j < done + 1 ==> slot.committed && slot.persistent_ref == Some(log[j].chunk_ref))
        &&& (j >= done + 1 ==> !slot.committed && (slot.persistent_ref is None
            || slot.persistent_ref == Some(log[j].chunk_ref)))
    } by {
        if j < done {
            assert(log[j].token != log[done].token);
        }
        if done < j {
            assert(log[done].token != log[j].token);
        }
    }
    assert forall|k: Seq<u8>| #[trigger] index2.contains_key(k) implies before.contains(k)
        || written_at(log, base, k) is Some by {
        if k == h {
            assert(log[done].token == k);
        }
    }
    assert forall|k: Seq<u8>| #[trigger] before.contains(k) implies index2.contains_key(k)
        && index2[k].committed by {
        assert(index.contains_key(k));
    }
}

/// The index after the commits of the log entries from `from` up to `to`,
/// each with the reference of its chunk, in the order of the log.
pub open spec fn commit_range(
    index: Map<Seq<u8>, SlotView>,
    log: Seq<LogEntry>,
    from: int,
    to: int,
) -> Map<Seq<u8>, SlotView>
    decreases to - from,
{
    if to <= from {
        index
    } else {
        let so_far = commit_range(index, log, from, to - 1);
        so_far.insert(
            log[to - 1].token,
            so_far[log[to - 1].token].committed_with(log[to - 1].chunk_ref),
        )
    }
}

/// The slot of a hash that was just reserved for a node of the given level
/// and payload, with the reference `chunk_ref`.
pub open spec fn reserved_slot(
    level: i64,
    payload: Option<Seq<u8>>,
    chunk_ref: Option<ChunkRefView>,
) -> SlotView {
    SlotView { level, payload, persistent_ref: chunk_ref, committed: false }
}

/// A chunk is handed out only if it hashes to the hash that was asked for.
pub open spec fn verified(hash: Seq<u8>, found: Option<Seq<u8>>) -> Option<Seq<u8>> {
    match found {
        Some(bytes) => if sha512(bytes) == hash {
            Some(bytes)
        } else {
            None
        },
        None => None,
    }
}

/// Hands `data` out if its hash `actual` is the hash `expected` that was
/// asked for, and nothing otherwise.
pub fn check_digest(expected: &crate::hash::Hash, actual: &crate::hash::Hash, data: Vec<u8>) -> (checked:
    Option<Vec<u8>>)
    ensures
        checked == if expected@ == actual@ {
            Some(data)
        } else {
            None
        },
{
    if expected.equals(actual) {
        Some(data)
    } else {
        None
    }
}

/// The chunk service over the backend `B`. It owns the hash index and the
/// blob store, and remembers, for the proofs only, which part of the blob
/// store's log is its own, which hashes the index knew before, and whether it
/// is tainted.
pub struct HashStoreBackend<B: StoreBackend> {
    hash_index: HashIndex,
    blob_store: BlobStore<B>,
    base: Ghost<int>,
    before: Ghost<Set<Seq<u8>>>,
    tainted: Ghost<bool>,
}

impl<B: StoreBackend> HashStoreBackend<B> {
    /// The hash index, as a map from hash to slot.
    pub closed spec fn index(&self) -> Map<Seq<u8>, SlotView> {
        self.hash_index@
    }

    /// The blob store.
    pub closed spec fn blob_store(&self) -> BlobStore<B> {
        self.blob_store
    }

    /// The length that the blob store's log had when the service was made.
    pub closed spec fn base(&self) -> int {
        self.base@
    }

    /// The chunks that the service has handed to the blob store since it was
    /// made, oldest first.
    pub open spec fn written(&self) -> Seq<LogEntry> {
        self.blob_store().log().subrange(self.base(), self.blob_store().log().len() as int)
    }

    /// Whether some insertion was answered with a reference under which
    /// other bytes lie than those that were brought, or none. This happens
    /// only to a hash that was known already: when two different chunks have
    /// one hash, or when the index held a reference to bytes that are not the
    /// chunk's.
    pub closed spec fn tainted(&self) -> bool {
        self.tainted@
    }

    /// Whether the backend below the blob store is reliable.
    pub open spec fn reliable(&self) -> bool {
        self.blob_store().backend().reliable()
    }

    /// Whether what the service hands out is what was brought: the backend
    /// is reliable, and the service is not tainted.
    pub open spec fn sound(&self) -> bool {
        self.reliable() && !self.tainted()
    }

    /// The hashes that the index knew when the service was made.
    pub closed spec fn known_before(&self) -> Set<Seq<u8>> {
        self.before@
    }

    /// The invariant of the service: both parts are well formed, and index
    /// and log belong together as `linked` says.
    pub closed spec fn wf(&self) -> bool {
        &&& self.hash_index.wf()
        &&& self.blob_store.wf()
        &&& linked(
            self.hash_index@,
            self.blob_store.log(),
            self.base@,
            self.blob_store.sealed_count(),
            self.before@,
        )
    }

    /// The bytes that the service stored under `hash`, if it stored that hash.
    pub open spec fn content_of(&self, hash: Seq<u8>) -> Option<Seq<u8>> {
        match written_at(self.blob_store().log(), self.base(), hash) {
            Some(i) => Some(self.blob_store().log()[i].bytes),
            None => None,
        }
    }

    /// The index after the commit of every pending chunk.
    pub open spec fn settled_index(&self) -> Map<Seq<u8>, SlotView> {
        commit_range(
            self.index(),
            self.blob_store().log(),
            self.blob_store().sealed_count(),
            self.blob_store().log().len() as int,
        )
    }

    /// Whether `after` is what `flush` makes of this service, `ok` telling
    /// whether it succeeds: the blob store is flushed, and on success every
    /// pending chunk is committed.
    pub open spec fn flushed(&self, after: HashStoreBackend<B>, ok: bool) -> bool {
        &&& after.base() == self.base()
        &&& after.known_before() == self.known_before()
        &&& self.blob_store().flushed(after.blob_store(), ok)
        &&& after.index() == if ok {
            self.settled_index()
        } else {
            self.index()
        }
    }

    /// Whether `after` has the same index and the same blob store.
    pub open spec fn same_as(&self, after: HashStoreBackend<B>) -> bool {
        &&& after.index() == self.index()
        &&& after.blob_store() == self.blob_store()
        &&& after.base() == self.base()
        &&& after.known_before() == self.known_before()
    }

    /// Whether the hash is known and only reserved.
    pub open spec fn reserved(&self, hash: Seq<u8>) -> bool {
        self.index().contains_key(hash) && !self.index()[hash].committed
    }

    /// Whether `after` is what an insertion makes of this service when it
    /// meets the known hash `hash`: a flush when the hash is only reserved, so
    /// that its reference becomes known, else no change.
    pub open spec fn resolved(&self, hash: Seq<u8>, after: HashStoreBackend<B>, ok: bool) -> bool {
        if self.reserved(hash) {
            self.flushed(after, ok)
        } else {
            ok && self.same_as(after)
        }
    }

    /// Whether `after` is what `insert_chunk` makes of this service, `ok`
    /// telling whether it succeeds.
    ///
    /// - A hash that is committed already: nothing changes.
    /// - A hash that is reserved: the service is flushed, so that the
    ///   reference becomes known.
    /// - An unknown hash: it is reserved, and the chunk goes to the blob
    ///   store, as a leaf for level 0 and as a branch otherwise. The hash
    ///   then holds the chunk's reference, and is committed with everything
    ///   else that was pending if the blob store wrote its blob. If that
    ///   write failed, the hash stays reserved without reference. A full blob
    ///   store takes no chunk, and nothing changes.
    pub open spec fn inserted(
        &self,
        hash: Seq<u8>,
        level: i64,
        payload: Option<Seq<u8>>,
        chunk: Seq<u8>,
        after: HashStoreBackend<B>,
        ok: bool,
    ) -> bool {
        let store = self.blob_store();
        let kind = Kind::spec_of_level(level);
        let r = store.next_ref(chunk, kind);
        if self.index().contains_key(hash) {
            self.resolved(hash, after, ok)
        } else if store.full() {
            !ok && self.same_as(after)
        } else {
            &&& after.base() == self.base()
            &&& after.known_before() == self.known_before()
            &&& store.stored(chunk, kind, hash, after.blob_store(), ok)
            &&& after.index() == if store.open_bytes().len() + chunk.len() < store.max_blob_size() {
                self.index().insert(hash, reserved_slot(level, payload, Some(r)))
            } else if ok {
                commit_range(
                    self.index().insert(hash, reserved_slot(level, payload, None)),
                    after.blob_store().log(),
                    store.sealed_count(),
                    after.blob_store().log().len() as int,
                )
            } else {
                self.index().insert(hash, reserved_slot(level, payload, None))
            }
        }
    }

    /// The hash index of the service.
    pub fn hash_index_ref(&self) -> (index: &HashIndex)
        ensures
            index@ == self.index(),
    {
        &self.hash_index
    }

    /// The blob store of the service.
    pub fn blob_store_ref(&self) -> (store: &BlobStore<B>)
        ensures
            *store == self.blob_store(),
    {
        &self.blob_store
    }

    /// Takes the service apart again.
    pub fn into_parts(self) -> (parts: (HashIndex, BlobStore<B>))
        ensures
            parts.0@ == self.index(),
            parts.1 == self.blob_store(),
    {
        (self.hash_index, self.blob_store)
    }

    /// Whether an index and a blob store are at rest: no chunk is pending in
    /// the store, and no hash is merely reserved in the index.
    pub open spec fn at_rest(hash_index: HashIndex, blob_store: BlobStore<B>) -> bool {
        blob_store.pending().len() == 0 && hash_index.settled()
    }

    /// Binds a hash index and a blob store together, `ready` telling whether
    /// the hashing library is ready. Both parts must be at rest; otherwise
    /// `Corruption` is reported. When they are, and the library is not
    /// ready, a `Message` is reported.
    pub fn bind(hash_index: HashIndex, blob_store: BlobStore<B>, ready: bool) -> (made: Result<
        HashStoreBackend<B>,
        HatError,
    >)
        requires
            hash_index.wf(),
            blob_store.wf(),
        ensures
            match made {
                Ok(service) => {
                    &&& Self::at_rest(hash_index, blob_store)
                    &&& ready
                    &&& service.wf()
                    &&& service.index() == hash_index@
                    &&& service.blob_store() == blob_store
                    &&& service.base() == blob_store.log().len()
                    &&& service.known_before() == hash_index@.dom()
                    &&& !service.tainted()
                },
                Err(HatError::Corruption) => !Self::at_rest(hash_index, blob_store),
                Err(HatError::Message(text)) => {
                    &&& Self::at_rest(hash_index, blob_store)
                    &&& !ready
                    &&& text@ == "The hashing library is not ready"@
                },
                Err(_) => false,
            },
    {
        if blob_store.pending_count() != 0 || !hash_index.is_settled() {
            return Err(HatError::Corruption);
        }
        if !ready {
            return Err(HatError::Message(String::from_str("The hashing library is not ready")));
        }
        let ghost base = blob_store.log().len() as int;
        let ghost before = hash_index@.dom();
        let service = HashStoreBackend {
            hash_index,
            blob_store,
            base: Ghost(base),
            before: Ghost(before),
            tainted: Ghost(false),
        };
        Ok(service)
    }

    /// Binds a hash index and a blob store together, after asking the
    /// hashing library to make itself ready. Both parts must be at rest;
    /// otherwise `Corruption` is reported. A `Message` is reported when the
    /// library says that it is not ready; whether it does is not known
    /// beforehand.
    pub fn new(hash_index: HashIndex, blob_store: BlobStore<B>) -> (made: Result<
        HashStoreBackend<B>,
        HatError,
    >)
        requires
            hash_index.wf(),
            blob_store.wf(),
        ensures
            made matches Err(HatError::Corruption) <==> !Self::at_rest(hash_index, blob_store),
            match made {
                Ok(service) => {
                    &&& service.wf()
                    &&& service.index() == hash_index@
                    &&& service.blob_store() == blob_store
                    &&& service.base() == blob_store.log().len()
                    &&& service.known_before() == hash_index@.dom()
                    &&& !service.tainted()
                },
                Err(e) => e == HatError::Corruption || e is Message,
            },
    {
        let ready = sodium_ready();
        Self::bind(hash_index, blob_store, ready)
    }

    /// Commits, in order, the completions of a blob that was just written.
    fn commit_all(&mut self, completed: &Vec<Completion>)
        requires
            old(self).hash_index.wf(),
            old(self).blob_store.wf(),
            completed@.len() <= old(self).blob_store.log().len(),
            linked(
                old(self).hash_index@,
                old(self).blob_store.log(),
                old(self).base@,
                old(self).blob_store.log().len() - completed@.len(),
                old(self).before@,
            ),
            forall|i: int|
                0 <= i < completed@.len() ==> (#[trigger] completed@[i])@ == old(
                    self,
                ).blob_store.log()[old(self).blob_store.log().len() - completed@.len()
                    + i].completion(),
        ensures
            final(self).hash_index.wf(),
            final(self).blob_store == old(self).blob_store,
            final(self).base == old(self).base,
            final(self).before == old(self).before,
            final(self).tainted == old(self).tainted,
            linked(
                final(self).hash_index@,
                final(self).blob_store.log(),
                final(self).base@,
                final(self).blob_store.log().len() as int,
                final(self).before@,
            ),
            final(self).hash_index@ == commit_range(
                old(self).hash_index@,
                old(self).blob_store.log(),
                old(self).blob_store.log().len() - completed@.len(),
                old(self).blob_store.log().len() as int,
            ),
    {
        let ghost log = self.blob_store.log();
        let ghost start = log.len() - completed@.len();
        let ghost index0 = self.hash_index@;
        let mut k: usize = 0;
        while k < completed.len()
            invariant
                k <= completed@.len(),
                self.hash_index.wf(),
                self.blob_store == old(self).blob_store,
                self.base == old(self).base,
                self.before == old(self).before,
                self.tainted == old(self).tainted,
                log == self.blob_store.log(),
                start == log.len() - completed@.len(),
                start >= 0,
                linked(self.hash_index@, log, self.base@, start + k, self.before@),
                self.hash_index@ == commit_range(index0, log, start, start + k),
                forall|i: int|
                    0 <= i < completed@.len() ==> (#[trigger] completed@[i])@ == log[start
                        + i].completion(),
            decreases completed@.len() - k,
        {
            let completion = &completed[k];
            let hash = crate::hash::Hash { bytes: copy_bytes(completion.token.as_slice()) };
            proof {
                assert(completed@[k as int]@ == log[start + k].completion());
                assert(hash@ == log[start + k].token);
                lemma_linked_after_commit(
                    self.hash_index@,
                    log,
                    self.base@,
                    start + k,
                    self.before@,
                );
            }
            self.hash_index.commit(&hash, completion.chunk_ref.clone());
            k += 1;
        }
    }

    /// Writes the open blob and commits the hashes of its chunks, in the
    /// order in which the chunks were stored. When the backend fails,
    /// `Storage` is reported and nothing is committed.
    pub fn flush(&mut self) -> (done: Result<(), HatError>)
        requires
            old(self).wf(),
        ensures
            final(self).wf(),
            old(self).flushed(*final(self), done is Ok),
            final(self).tainted() == old(self).tainted(),
            done matches Err(e) ==> e == HatError::Storage,
    {
        proof {
            self.blob_store.lemma_log();
        }
        match self.blob_store.flush() {
            Err(_) => Err(HatError::Storage),
            Ok(completed) => {
                proof {
                    self.blob_store.lemma_log();
                    let log = self.blob_store.log();
                    let start = log.len() - completed@.len();
                    assert forall|i: int| 0 <= i < completed@.len() implies (
                    #[trigger] completed@[i])@ == log[start + i].completion() by {
                        assert(completions_view(completed@)[i] == old(self).blob_store.pending()[i]);
                    }
                }
                self.commit_all(&completed);
                Ok(())
            },
        }
    }

    /// Number of times that the index is asked for a reference before the
    /// wait for it is given up.
    pub const RETRY_LIMIT: usize = 3;

    /// The reference of the chunk of `hash`, or `None` for an unknown hash.
    /// Nothing is written and nothing changes. While the hash is only
    /// reserved the index asks to retry; it is asked `RETRY_LIMIT` times, and
    /// when it still has no reference the stall is reported as `Retry`. The
    /// reference becomes known when the blob with the chunk is written,
    /// which `flush` brings about.
    pub fn fetch_persistent_ref(&self, hash: &crate::hash::Hash) -> (fetched: Result<
        Option<ChunkRef>,
        HatError,
    >)
        requires
            self.wf(),
            hash.is_valid(),
        ensures
            match fetched {
                Ok(Some(chunk_ref)) => {
                    &&& self.index().contains_key(hash@)
                    &&& self.index()[hash@].committed
                    &&& self.index()[hash@].persistent_ref == Some(chunk_ref@)
                },
                Ok(None) => !self.index().contains_key(hash@),
                Err(e) => e == HatError::Retry && self.reserved(hash@),
            },
    {
        let mut asked: usize = 0;
        while asked < Self::RETRY_LIMIT
            invariant
                self.wf(),
                asked <= Self::RETRY_LIMIT,
                asked > 0 ==> self.reserved(hash@),
            decreases Self::RETRY_LIMIT - asked,
        {
            match self.hash_index.fetch_persistent_ref(hash) {
                Ok(found) => {
                    return Ok(found);
                },
                Err(_) => {},
            }
            asked += 1;
        }
        Err(HatError::Retry)
    }

    /// Makes the reference of a known hash known: while the hash is only
    /// reserved, the service flushes, which commits the hash, and the index
    /// is asked again. This is what an insertion does that meets a hash
    /// whose chunk is still pending. `Storage` is reported when that flush
    /// fails.
    fn settle_persistent_ref(&mut self, hash: &crate::hash::Hash) -> (fetched: Result<
        Option<ChunkRef>,
        HatError,
    >)
        requires
            old(self).wf(),
            hash.is_valid(),
        ensures
            final(self).wf(),
            old(self).resolved(hash@, *final(self), fetched is Ok),
            final(self).tainted() == old(self).tainted(),
            match fetched {
                Ok(Some(chunk_ref)) => {
                    &&& old(self).index().contains_key(hash@)
                    &&& final(self).index().contains_key(hash@)
                    &&& final(self).index()[hash@].committed
                    &&& final(self).index()[hash@].persistent_ref == Some(chunk_ref@)
                },
                Ok(None) => !old(self).index().contains_key(hash@),
                Err(e) => e == HatError::Storage,
            },
    {
        loop
            invariant
                self.wf(),
                old(self).wf(),
                self.tainted() == old(self).tainted(),
                old(self).same_as(*self) || (old(self).reserved(hash@) && old(self).flushed(
                    *self,
                    true,
                )),
            decreases
                    (if self.reserved(hash@) {
                        1nat
                    } else {
                        0nat
                    }),
        {
            match self.hash_index.fetch_persistent_ref(hash) {
                Ok(found) => {
                    proof {
                        if !old(self).same_as(*self) {
                            old(self).lemma_settled();
                        }
                    }
                    return Ok(found);
                },
                Err(_) => {
                    proof {
                        if !old(self).same_as(*self) {
                            old(self).lemma_settled();
                            self.lemma_at_rest(hash@);
                        }
                    }
                    match self.flush() {
                        Err(e) => {
                            return Err(e);
                        },
                        Ok(()) => {
                            proof {
                                old(self).lemma_settled();
                                self.lemma_at_rest(hash@);
                            }
                        },
                    }
                },
            }
        }
    }

    /// The payload of `hash` once the hash is committed; nothing for a hash
    /// that is unknown, only reserved, or without payload.
    pub fn fetch_payload(&self, hash: &crate::hash::Hash) -> (payload: Option<Vec<u8>>)
        requires
            self.wf(),
        ensures
            opt_bytes_view(payload) == if self.index().contains_key(hash@) && self.index()[hash@].committed {
                self.index()[hash@].payload
            } else {
                None
            },
    {
        match self.hash_index.fetch_payload(hash) {
            Some(p) => p,
            None => None,
        }
    }

    /// Reads the bytes that a reference selects from the blob store.
    pub fn fetch_chunk_from_persistent_ref(&self, chunk_ref: &ChunkRef) -> (found: Result<
        Option<Vec<u8>>,
        HatError,
    >)
        requires
            self.wf(),
        ensures
            match found {
                Ok(bytes) => self.reliable() || self.in_open_blob(chunk_ref@)
                    ==> opt_bytes_view(bytes) == self.blob_store().chunk_at(chunk_ref@),
                Err(e) => e == HatError::Storage && !self.reliable() && !self.in_open_blob(
                    chunk_ref@,
                ),
            },
    {
        self.blob_store.retrieve(chunk_ref)
    }

    /// Whether a reference names the open blob, which is read from memory.
    pub open spec fn in_open_blob(&self, chunk_ref: ChunkRefView) -> bool {
        chunk_ref.blob_name == blob_name(self.blob_store().open_id())
    }

    /// Reads the chunk of `hash` through the reference that the index holds
    /// for it; nothing for an unknown hash. Nothing is written and nothing
    /// changes. A hash that is only reserved has no reference yet: the stall
    /// is reported as `Retry`. `Storage` is reported when the backend fails
    /// to read the blob of a committed hash.
    pub fn fetch_chunk_from_hash(&self, hash: &crate::hash::Hash) -> (found: Result<
        Option<Vec<u8>>,
        HatError,
    >)
        requires
            self.wf(),
            hash.is_valid(),
        ensures
            match found {
                Ok(bytes) => {
                    &&& !self.reserved(hash@)
                    &&& !self.index().contains_key(hash@) ==> bytes is None
                    &&& self.index().contains_key(hash@) && (self.reliable() || self.in_open_blob(
                        self.index()[hash@].persistent_ref.unwrap(),
                    )) ==> opt_bytes_view(bytes) == self.located(hash@)
                },
                Err(e) => if self.reserved(hash@) {
                    e == HatError::Retry
                } else {
                    &&& e == HatError::Storage
                    &&& self.index().contains_key(hash@)
                    &&& !self.reliable()
                    &&& !self.in_open_blob(self.index()[hash@].persistent_ref.unwrap())
                },
            },
    {
        match self.fetch_persistent_ref(hash) {
            Err(e) => Err(e),
            Ok(None) => Ok(None),
            Ok(Some(chunk_ref)) => self.fetch_chunk_from_persistent_ref(&chunk_ref),
        }
    }

    /// The bytes that the reference of a committed hash selects.
    pub open spec fn located(&self, hash: Seq<u8>) -> Option<Seq<u8>> {
        if self.index().contains_key(hash) && self.index()[hash].committed {
            match self.index()[hash].persistent_ref {
                Some(r) => self.blob_store().chunk_at(r),
                None => None,
            }
        } else {
            None
        }
    }

    /// The reference under which `fetch_chunk` looks: the one that is given,
    /// else the one that the index holds for a committed hash.
    pub open spec fn looked_under(&self, hash: Seq<u8>, given: Option<ChunkRefView>) -> Option<
        ChunkRefView,
    > {
        match given {
            Some(r) => Some(r),
            None => if self.index().contains_key(hash) && self.index()[hash].committed {
                self.index()[hash].persistent_ref
            } else {
                None
            },
        }
    }

    /// Reads the chunk of `hash`: under `persistent_ref` when that is given,
    /// else under the reference that the index holds. Nothing is written and
    /// nothing changes. The chunk is handed out only if it hashes to `hash`,
    /// whatever the backend is; a missing chunk, an unknown hash and a chunk
    /// with another hash all give `None`. What is read from the open blob,
    /// or from a reliable backend, is the chunk that the reference selects.
    /// Without a reference, a hash that is only reserved stalls the fetch,
    /// which is reported as `Retry`. `Storage` is reported when the backend
    /// fails to read a blob; the open blob is never asked of it.
    pub fn fetch_chunk(&self, hash: &crate::hash::Hash, persistent_ref: Option<ChunkRef>) -> (found:
        Result<Option<Vec<u8>>, HatError>)
        requires
            self.wf(),
            hash.is_valid(),
        ensures
            found matches Ok(Some(bytes)) ==> sha512(bytes@) == hash@,
            match found {
                Ok(bytes) => match self.looked_under(hash@, opt_ref_view(persistent_ref)) {
                    Some(r) => self.reliable() || self.in_open_blob(r) ==> opt_bytes_view(bytes)
                        == verified(hash@, self.blob_store().chunk_at(r)),
                    None => bytes is None && !self.index().contains_key(hash@),
                },
                Err(e) => if persistent_ref is None && self.reserved(hash@) {
                    e == HatError::Retry
                } else {
                    &&& e == HatError::Storage
                    &&& !self.reliable()
                    &&& self.looked_under(hash@, opt_ref_view(persistent_ref)) matches Some(r)
                        && !self.in_open_blob(r)
                },
            },
    {
        let data_opt = match persistent_ref {
            Some(r) => self.fetch_chunk_from_persistent_ref(&r),
            None => {
                proof {
                    if self.index().contains_key(hash@) && self.index()[hash@].committed {
                        self.hash_index.lemma_committed_has_ref(hash@);
                    }
                }
                self.fetch_chunk_from_hash(hash)
            },
        };
        match data_opt {
            Err(e) => Err(e),
            Ok(None) => Ok(None),
            Ok(Some(data)) => {
                let actual_hash = crate::hash::Hash::new(data.as_slice());
                Ok(check_digest(hash, &actual_hash, data))
            },
        }
    }

    /// Takes a chunk with its hash. A hash that is known already is not
    /// stored again: the reference of the chunk that is there is returned,
    /// after a flush if it was not yet committed. An unknown hash is reserved,
    /// its chunk goes to the blob store, and the new reference is returned.
    /// `Storage` is reported when the backend fails to write a blob, or when
    /// the blob store is full and the hash unknown.
    pub fn insert_chunk(
        &mut self,
        hash: &crate::hash::Hash,
        level: i64,
        payload: Option<Vec<u8>>,
        chunk: Vec<u8>,
    ) -> (inserted: Result<ChunkRef, HatError>)
        requires
            old(self).wf(),
            hash.is_valid(),
        ensures
            final(self).wf(),
            old(self).inserted(
                hash@,
                level,
                opt_bytes_view(payload),
                chunk@,
                *final(self),
                inserted is Ok,
            ),
            final(self).reliable() == old(self).reliable(),
            old(self).reliable() ==> old(self).blob_store().kept_by(&final(self).blob_store()),
            final(self).tainted() == (old(self).tainted() || match inserted {
                Ok(chunk_ref) => final(self).blob_store().chunk_at(chunk_ref@) != Some(chunk@),
                Err(_) => false,
            }),
            match inserted {
                Ok(chunk_ref) => {
                    &&& final(self).index().contains_key(hash@)
                    &&& if old(self).index().contains_key(hash@) {
                        &&& final(self).index()[hash@].committed
                        &&& final(self).index()[hash@].persistent_ref == Some(chunk_ref@)
                    } else {
                        chunk_ref@ == old(self).blob_store().next_ref(
                            chunk@,
                            Kind::spec_of_level(level),
                        )
                    }
                },
                Err(e) => e == HatError::Storage,
            },
    {
        if self.blob_store.is_full() {
            proof {
                self.blob_store.lemma_log();
                if self.index().contains_key(hash@) {
                    self.lemma_at_rest(hash@);
                }
            }
            return match self.hash_index.fetch_persistent_ref(hash) {
                Ok(Some(chunk_ref)) => {
                    proof {
                        self.tainted@ = self.tainted@ || self.blob_store.chunk_at(chunk_ref@)
                            != Some(chunk@);
                    }
                    Ok(chunk_ref)
                },
                _ => Err(HatError::Storage),
            };
        }
        let ghost payload_view = opt_bytes_view(payload);
        let mut hash_entry = Entry { hash: hash.clone(), level, payload, persistent_ref: None };
        match self.hash_index.reserve(&hash_entry) {
            ReserveResult::HashKnown(_) => {
                // Someone came before us: piggyback on their result.
                match self.settle_persistent_ref(hash) {
                    Ok(Some(chunk_ref)) => {
                        proof {
                            self.tainted@ = self.tainted@ || self.blob_store.chunk_at(chunk_ref@)
                                != Some(chunk@);
                        }
                        Ok(chunk_ref)
                    },
                    Ok(None) => Err(HatError::Storage),
                    Err(e) => Err(e),
                }
            },
            ReserveResult::ReserveOk(_) => {
                // We came first: this data-chunk is ours to process.
                let kind = Kind::of_level(level);
                let ghost index0 = old(self).hash_index@;
                let ghost log0 = old(self).blob_store.log();
                let ghost start = old(self).blob_store.sealed_count();
                let ghost chunk_view = chunk@;
                let ghost entry = LogEntry {
                    token: hash@,
                    blob_id: old(self).blob_store.open_id(),
                    chunk_ref: old(self).blob_store.next_ref(chunk@, kind),
                    bytes: chunk@,
                };
                let ghost slot = reserved_slot(level, payload_view, None);
                proof {
                    old(self).blob_store.lemma_log();
                    assert(SlotView::reserved(hash_entry@) == slot);
                    lemma_linked_after_store(
                        index0,
                        log0,
                        self.base@,
                        start,
                        self.before@,
                        entry,
                        slot,
                    );
                }
                let token = copy_bytes(hash.bytes.as_slice());
                match self.blob_store.store(chunk, kind, token) {
                    Err(_) => {
                        proof {
                            self.blob_store.lemma_log();
                        }
                        Err(HatError::Storage)
                    },
                    Ok(stored) => {
                        proof {
                            self.blob_store.lemma_log();
                            let log = self.blob_store.log();
                            let pending0 = old(self).blob_store.pending();
                            let views = completions_view(stored.completed@);
                            let begin = log.len() - stored.completed@.len();
                            assert(log == log0.push(entry));
                            assert(views.len() == stored.completed@.len());
                            if stored.completed@.len() > 0 {
                                assert(views == pending0.push(entry.completion()));
                                assert(begin == start);
                                assert forall|i: int| 0 <= i < stored.completed@.len() implies (
                                #[trigger] stored.completed@[i])@ == log[begin + i].completion() by {
                                    assert(views[i] == stored.completed@[i]@);
                                    if i < pending0.len() {
                                        assert(views[i] == pending0[i]);
                                        assert(log[begin + i] == log0[start + i]);
                                    }
                                }
                            }
                        }
                        if stored.completed.len() > 0 {
                            self.commit_all(&stored.completed);
                        }
                        let chunk_ref = stored.chunk_ref;
                        hash_entry.persistent_ref = Some(chunk_ref.clone());
                        let ghost index1 = self.hash_index@;
                        proof {
                            if stored.completed@.len() == 0 {
                                lemma_written_at(
                                    index1,
                                    self.blob_store.log(),
                                    self.base@,
                                    start,
                                    self.before@,
                                    log0.len() as int,
                                );
                                lemma_linked_after_update(
                                    index1,
                                    self.blob_store.log(),
                                    self.base@,
                                    start,
                                    self.before@,
                                    log0.len() as int,
                                    SlotView::reserved(hash_entry@),
                                );
                                assert(index1.insert(hash@, SlotView::reserved(hash_entry@))
                                    =~= index0.insert(
                                    hash@,
                                    reserved_slot(level, payload_view, Some(chunk_ref@)),
                                ));
                            } else {
                                assert(index1[hash@].committed);
                            }
                        }
                        self.hash_index.update_reserved(hash_entry);
                        proof {
                            self.tainted@ = self.tainted@ || self.blob_store.chunk_at(chunk_ref@)
                                != Some(chunk_view);
                        }
                        Ok(chunk_ref)
                    },
                }
            },
        }
    }

    /// The index after the commit of every pending chunk knows the same
    /// hashes, with the same levels and payloads.
    pub proof fn lemma_settled(&self)
        requires
            self.wf(),
        ensures
            forall|h: Seq<u8>|
                self.index().contains_key(h) <==> #[trigger] self.settled_index().contains_key(h),
            forall|h: Seq<u8>| #[trigger]
                self.index().contains_key(h) ==> {
                    &&& self.settled_index()[h].level == self.index()[h].level
                    &&& self.settled_index()[h].payload == self.index()[h].payload
                    &&& (self.index()[h].committed ==> self.settled_index()[h] == self.index()[h])
                },
    {
        self.blob_store.lemma_log();
        lemma_commit_range(
            self.index(),
            self.blob_store.log(),
            self.base@,
            self.blob_store.sealed_count(),
            self.before@,
            self.blob_store.log().len() as int,
        );
    }

    /// Deduplication. The chunks that the service has handed to the blob
    /// store have pairwise different hashes, none of which the index knew
    /// before; and the index knows exactly those hashes and the ones it knew
    /// before. So every distinct hash that was brought has been stored once.
    pub proof fn lemma_written_once(&self)
        requires
            self.wf(),
        ensures
            forall|i: int, j: int|
                0 <= i < j < self.written().len() ==> (#[trigger] self.written()[i]).token != (
                #[trigger] self.written()[j]).token,
            forall|i: int|
                0 <= i < self.written().len() ==> !self.known_before().contains(
                    (#[trigger] self.written()[i]).token,
                ),
            forall|h: Seq<u8>| #[trigger]
                self.index().contains_key(h) <==> self.known_before().contains(h) || exists|i: int|
                    0 <= i < self.written().len() && (#[trigger] self.written()[i]).token == h,
    {
        let log = self.blob_store.log();
        let base = self.base@;
        let written = self.written();
        assert forall|i: int, j: int| 0 <= i < j < written.len() implies (
        #[trigger] written[i]).token != (#[trigger] written[j]).token by {
            assert(log[base + i].token != log[base + j].token);
        }
        assert forall|i: int| 0 <= i < written.len() implies !self.known_before().contains(
            (#[trigger] written[i]).token,
        ) by {
            assert(!self.before@.contains(log[base + i].token));
        }
        assert forall|h: Seq<u8>| #[trigger]
            self.index().contains_key(h) <==> self.known_before().contains(h) || exists|i: int|
                0 <= i < written.len() && (#[trigger] written[i]).token == h by {
            if self.index().contains_key(h) && !self.known_before().contains(h) {
                let k = written_at(log, base, h).unwrap();
                assert(written[k - base].token == h);
            }
            if exists|i: int| 0 <= i < written.len() && (#[trigger] written[i]).token == h {
                let i = choose|i: int| 0 <= i < written.len() && (#[trigger] written[i]).token == h;
                assert(log[base + i].token == h);
            }
        }
    }

    /// Commit order. The hashes are committed in the order in which their
    /// chunks were stored: when the hash of a chunk is committed, so is the
    /// hash of every chunk that was stored before it. In particular the
    /// children of a committed branch are committed.
    pub proof fn lemma_commit_order(&self, i: int, j: int)
        requires
            self.wf(),
            0 <= i < j < self.written().len(),
            self.index()[self.written()[j].token].committed,
        ensures
            self.index().contains_key(self.written()[i].token),
            self.index()[self.written()[i].token].committed,
    {
        let log = self.blob_store.log();
        let base = self.base@;
        assert(log[base + i].token == self.written()[i].token);
        assert(log[base + j].token == self.written()[j].token);
        assert(self.index().contains_key(log[base + j].token));
    }

    /// A reference that the index hands out points into a blob that is
    /// written: the hash of a chunk that the service stored is committed only
    /// when the chunk's blob has a lower number than the open blob; the
    /// reference is then the one under which the chunk was stored, and in a
    /// reliable backend it selects the chunk's bytes.
    pub proof fn lemma_committed_is_written(&self, i: int)
        requires
            self.wf(),
            0 <= i < self.written().len(),
            self.index()[self.written()[i].token].committed,
        ensures
            self.written()[i].blob_id < self.blob_store().open_id(),
            self.index()[self.written()[i].token].persistent_ref == Some(self.written()[i].chunk_ref),
            self.written()[i].chunk_ref.blob_name == blob_name(self.written()[i].blob_id),
            self.reliable() ==> self.blob_store().chunk_at(self.written()[i].chunk_ref) == Some(
                self.written()[i].bytes,
            ),
    {
        let log = self.blob_store.log();
        let base = self.base@;
        self.blob_store.lemma_log();
        assert(log[base + i] == self.written()[i]);
        assert(self.index().contains_key(log[base + i].token));
    }

    /// Over a reliable backend, a service can only be tainted by two
    /// different chunks with one hash. When a chunk is brought under its own
    /// hash, a hash that the index did not know before the service was made,
    /// and the chunk stored under that hash was brought under its own hash
    /// too, then the insertion taints the service only if the two chunks
    /// differ, which makes them a collision of the hash function.
    pub proof fn lemma_taint_needs_collision(
        &self,
        hash: Seq<u8>,
        level: i64,
        payload: Option<Seq<u8>>,
        chunk: Seq<u8>,
        after: HashStoreBackend<B>,
        chunk_ref: ChunkRefView,
    )
        requires
            self.wf(),
            after.wf(),
            self.reliable(),
            self.inserted(hash, level, payload, chunk, after, true),
            if self.index().contains_key(hash) {
                after.index().contains_key(hash) && after.index()[hash].committed
                    && after.index()[hash].persistent_ref == Some(chunk_ref)
            } else {
                chunk_ref == self.blob_store().next_ref(chunk, Kind::spec_of_level(level))
            },
            after.blob_store().chunk_at(chunk_ref) != Some(chunk),
            !self.known_before().contains(hash),
            hash == sha512(chunk),
            self.content_of(hash) matches Some(stored) ==> sha512(stored) == hash,
        ensures
            exists|other: Seq<u8>| other != chunk && sha512(other) == sha512(chunk),
    {
        self.blob_store.lemma_log();
        after.blob_store.lemma_log();
        if self.index().contains_key(hash) {
            let log = self.blob_store.log();
            let i = written_at(log, self.base@, hash).unwrap();
            assert(log[i].token == hash);
            assert(after.blob_store.log() == log);
            assert(after.index()[log[i].token].committed);
            assert(after.blob_store().chunk_at(log[i].chunk_ref) == Some(log[i].bytes));
            assert(log[i].bytes != chunk);
            assert(sha512(log[i].bytes) == sha512(chunk));
        }
    }

    /// What `insert_chunk` does to the chunks written: it adds the chunk when
    /// the hash was unknown and the blob store not full, and nothing
    /// otherwise.
    pub proof fn lemma_insert_writes(
        &self,
        hash: Seq<u8>,
        level: i64,
        payload: Option<Seq<u8>>,
        chunk: Seq<u8>,
        after: HashStoreBackend<B>,
        ok: bool,
    )
        requires
            self.wf(),
            after.wf(),
            self.inserted(hash, level, payload, chunk, after, ok),
        ensures
            after.written() == if !self.index().contains_key(hash) && !self.blob_store().full() {
                self.written().push(
                    LogEntry {
                        token: hash,
                        blob_id: self.blob_store().open_id(),
                        chunk_ref: self.blob_store().next_ref(chunk, Kind::spec_of_level(level)),
                        bytes: chunk,
                    },
                )
            } else {
                self.written()
            },
    {
        if !self.index().contains_key(hash) && !self.blob_store().full() {
            assert(after.written() =~= self.written().push(
                LogEntry {
                    token: hash,
                    blob_id: self.blob_store().open_id(),
                    chunk_ref: self.blob_store().next_ref(chunk, Kind::spec_of_level(level)),
                    bytes: chunk,
                },
            ));
        }
    }

    /// Whoever brings a hash again gets the reference that the first one got,
    /// and stores nothing: of two insertions of one hash, the first being of
    /// an unknown hash, only the first reaches the blob store.
    pub proof fn lemma_same_ref_again(
        &self,
        hash: Seq<u8>,
        first_level: i64,
        first_payload: Option<Seq<u8>>,
        first_chunk: Seq<u8>,
        between: HashStoreBackend<B>,
        level: i64,
        payload: Option<Seq<u8>>,
        chunk: Seq<u8>,
        after: HashStoreBackend<B>,
    )
        requires
            self.wf(),
            between.wf(),
            after.wf(),
            !self.index().contains_key(hash),
            self.inserted(hash, first_level, first_payload, first_chunk, between, true),
            between.inserted(hash, level, payload, chunk, after, true),
        ensures
            after.written() == between.written(),
            after.index().contains_key(hash),
            after.index()[hash].persistent_ref == Some(
                self.blob_store().next_ref(first_chunk, Kind::spec_of_level(first_level)),
            ),
    {
        let r = self.blob_store().next_ref(first_chunk, Kind::spec_of_level(first_level));
        let log = between.blob_store.log();
        let place = self.blob_store.log().len() as int;
        self.blob_store.lemma_log();
        between.blob_store.lemma_log();
        assert(log[place].token == hash);
        assert(log[place].chunk_ref == r);
        assert(between.index().contains_key(hash));
        if between.reserved(hash) {
            between.lemma_settled();
            after.blob_store.lemma_log();
            assert(after.blob_store.log() == log);
            assert(after.index().contains_key(hash));
            after.lemma_at_rest(hash);
        } else {
            assert(after.index() == between.index());
        }
        between.lemma_insert_writes(hash, level, payload, chunk, after, true);
    }

    /// While nothing is pending, every hash is committed.
    pub proof fn lemma_at_rest(&self, hash: Seq<u8>)
        requires
            self.wf(),
            self.blob_store().pending().len() == 0,
            self.index().contains_key(hash),
        ensures
            self.index()[hash].committed,
    {
        if !self.index()[hash].committed {
            lemma_reserved_is_pending(
                self.index(),
                self.blob_store.log(),
                self.base@,
                self.blob_store.sealed_count(),
                self.before@,
                hash,
            );
        }
    }
}

/// Commits of pending chunks change neither the hashes that the index knows
/// nor their levels and payloads, and they leave committed hashes alone.
pub proof fn lemma_commit_range(
    index: Map<Seq<u8>, SlotView>,
    log: Seq<LogEntry>,
    base: int,
    done: int,
    before: Set<Seq<u8>>,
    to: int,
)
    requires
        linked(index, log, base, done, before),
        done <= to <= log.len(),
    ensures
        linked(commit_range(index, log, done, to), log, base, to, before),
        forall|h: Seq<u8>|
            index.contains_key(h) <==> #[trigger] commit_range(index, log, done, to).contains_key(h),
        forall|h: Seq<u8>| #[trigger]
            index.contains_key(h) ==> {
                let slot = commit_range(index, log, done, to)[h];
                &&& slot.level == index[h].level
                &&& slot.payload == index[h].payload
                &&& (index[h].committed ==> slot == index[h])
            },
    decreases to - done,
{
    if to > done {
        lemma_commit_range(index, log, base, done, before, to - 1);
        let so_far = commit_range(index, log, done, to - 1);
        lemma_linked_after_commit(so_far, log, base, to - 1, before);
        let h = log[to - 1].token;
        assert(so_far.contains_key(h));
        assert(!so_far[h].committed);
        assert(index.contains_key(h));
    }
}

} // verus!
