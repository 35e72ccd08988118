//! The blob store: chunks are appended to one open blob, which is written to
//! the backend when it has reached its target size. Each chunk comes with a
//! token; the tokens of a blob's chunks are handed back, with the chunks'
//! references, once the blob has been written.

use vstd::prelude::*;
use vstd::bytes::{spec_u64_from_le_bytes, spec_u64_to_le_bytes, u64_from_le_bytes, u64_to_le_bytes, lemma_auto_spec_u64_to_from_le_bytes};
use vstd::slice::slice_subrange;
use crate::backend::{lists_names, StoreBackend};
use crate::blob::chunk_ref::{ChunkRef, ChunkRefView, Kind};
use crate::errors::HatError;
use crate::util::bytes::{copy_bytes, opt_bytes_view, same_bytes};

verus! {

/// The name of the blob with the number `id`.
pub open spec fn blob_name(id: u64) -> Seq<u8> {
    spec_u64_to_le_bytes(id)
}

/// Different numbers give different names.
pub proof fn lemma_blob_names_differ(a: u64, b: u64)
    ensures
        blob_name(a).len() == 8,
        blob_name(a) == blob_name(b) ==> a == b,
{
    lemma_auto_spec_u64_to_from_le_bytes();
}

/// The token of a chunk whose blob has been written, with the chunk's reference.
#[derive(Debug, PartialEq, Eq)]
pub struct Completion {
    pub token: Vec<u8>,
    pub chunk_ref: ChunkRef,
}

impl View for Completion {
    type V = (Seq<u8>, ChunkRefView);

    open spec fn view(&self) -> (Seq<u8>, ChunkRefView) {
        (self.token@, self.chunk_ref@)
    }
}

/// The values of a list of completions.
pub open spec fn completions_view(list: Seq<Completion>) -> Seq<(Seq<u8>, ChunkRefView)> {
    list.map_values(|c: Completion| c@)
}

/// What `store` hands back: where the chunk lies, and the completions of the
/// blob that this call has written, if it has written one.
#[derive(Debug, PartialEq, Eq)]
pub struct Stored {
    pub chunk_ref: ChunkRef,
    pub completed: Vec<Completion>,
}

/// One chunk that the store has taken, as the store's history records it.
pub struct LogEntry {
    pub token: Seq<u8>,
    pub blob_id: u64,
    pub chunk_ref: ChunkRefView,
    pub bytes: Seq<u8>,
}

impl LogEntry {
    /// What is handed back for the chunk when its blob has been written.
    pub open spec fn completion(self) -> (Seq<u8>, ChunkRefView) {
        (self.token, self.chunk_ref)
    }
}

/// The bytes that `chunk_ref` selects in a blob that holds `blob`.
pub open spec fn slice_of(blob: Seq<u8>, chunk_ref: ChunkRefView) -> Option<Seq<u8>> {
    if chunk_ref.offset + chunk_ref.length <= blob.len() {
        Some(blob.subrange(chunk_ref.offset as int, chunk_ref.offset + chunk_ref.length))
    } else {
        None
    }
}

/// The blob store over the backend `B`: the open blob, the completions that
/// are due when it has been written, and the number that names it. Blobs are
/// numbered in the order in which they are opened; a blob's name is the
/// little-endian form of its number.
pub struct BlobStore<B: StoreBackend> {
    backend: B,
    max_blob_size: usize,
    next_id: u64,
    buffer: Vec<u8>,
    pending: Vec<Completion>,
    log: Ghost<Seq<LogEntry>>,
}

impl<B: StoreBackend> BlobStore<B> {
    /// The backend below the store.
    pub closed spec fn backend(&self) -> B {
        self.backend
    }

    /// The blobs that the backend holds.
    pub open spec fn sealed(&self) -> Map<Seq<u8>, Seq<u8>> {
        self.backend().contents()
    }

    /// The size at which the open blob is written.
    pub closed spec fn max_blob_size(&self) -> usize {
        self.max_blob_size
    }

    /// The number of the open blob.
    pub closed spec fn open_id(&self) -> u64 {
        self.next_id
    }

    /// The bytes of the open blob.
    pub closed spec fn open_bytes(&self) -> Seq<u8> {
        self.buffer@
    }

    /// The completions that are due when the open blob has been written, in
    /// the order in which the chunks were stored.
    pub closed spec fn pending(&self) -> Seq<(Seq<u8>, ChunkRefView)> {
        completions_view(self.pending@)
    }

    /// Every chunk that the store has taken since it was made, oldest first.
    pub closed spec fn log(&self) -> Seq<LogEntry> {
        self.log@
    }

    /// No blob number is left: the store takes no more chunks.
    pub open spec fn full(&self) -> bool {
        self.open_id() == u64::MAX
    }

    /// Number of chunks of the log whose blob has been written.
    pub open spec fn sealed_count(&self) -> int {
        self.log().len() - self.pending().len()
    }

    /// The bytes that a reference selects: in the open blob when it names
    /// that one, else in the backend's blob of that name.
    pub open spec fn chunk_at(&self, chunk_ref: ChunkRefView) -> Option<Seq<u8>> {
        if chunk_ref.blob_name == blob_name(self.open_id()) {
            slice_of(self.open_bytes(), chunk_ref)
        } else if self.sealed().contains_key(chunk_ref.blob_name) {
            slice_of(self.sealed()[chunk_ref.blob_name], chunk_ref)
        } else {
            None
        }
    }

    /// Whatever a reference selects in this store, it selects in `later` too.
    pub open spec fn kept_by(&self, later: &BlobStore<B>) -> bool {
        forall|r: ChunkRefView| #[trigger]
            self.chunk_at(r) is Some ==> later.chunk_at(r) == self.chunk_at(r)
    }

    /// The store's invariant.
    pub closed spec fn wf(&self) -> bool {
        let log = self.log();
        let pending = self.pending();
        let sealed_count = log.len() - pending.len();
        &&& pending.len() <= log.len()
        &&& forall|i: int|
            0 <= i < pending.len() ==> #[trigger] pending[i] == log[sealed_count + i].completion()
        &&& forall|i: int|
            0 <= i < log.len() ==> {
                &&& (#[trigger] log[i]).chunk_ref.blob_name == blob_name(log[i].blob_id)
                &&& (self.backend().reliable() || i >= sealed_count ==> self.chunk_at(
                    log[i].chunk_ref,
                ) == Some(log[i].bytes))
                &&& log[i].chunk_ref.length == log[i].bytes.len()
                &&& (i < sealed_count ==> log[i].blob_id < self.open_id())
                &&& (i >= sealed_count ==> log[i].blob_id == self.open_id())
            }
        &&& forall|i: int, j: int|
            0 <= i < j < log.len() ==> (#[trigger] log[i]).blob_id <= (#[trigger] log[j]).blob_id
        &&& self.backend().reliable() ==> forall|id: u64|
            id > self.open_id() ==> !self.sealed().contains_key(#[trigger] blob_name(id))
        &&& pending.len() == 0 ==> self.open_bytes().len() == 0
        &&& self.full() ==> pending.len() == 0
    }

    /// What the invariant says of the log: the chunks that are still pending
    /// are the last ones, in the order of the log, and lie in the open blob;
    /// all others lie in blobs with lower numbers; the blob numbers never
    /// decrease along the log; and every chunk can be read under its
    /// reference, whole and from one blob, while it is pending, and ever
    /// after from a reliable backend.
    pub proof fn lemma_log(&self)
        requires
            self.wf(),
        ensures
            self.pending().len() <= self.log().len(),
            forall|i: int|
                0 <= i < self.pending().len() ==> #[trigger] self.pending()[i] == self.log()[self.sealed_count()
                    + i].completion(),
            forall|i: int|
                0 <= i < self.log().len() ==> {
                    &&& (#[trigger] self.log()[i]).chunk_ref.blob_name == blob_name(
                        self.log()[i].blob_id,
                    )
                    &&& (self.backend().reliable() || i >= self.sealed_count() ==> self.chunk_at(
                        self.log()[i].chunk_ref,
                    ) == Some(self.log()[i].bytes))
                    &&& self.log()[i].chunk_ref.length == self.log()[i].bytes.len()
                    &&& (i < self.sealed_count() ==> self.log()[i].blob_id < self.open_id())
                    &&& (i >= self.sealed_count() ==> self.log()[i].blob_id == self.open_id())
                },
            forall|i: int, j: int|
                0 <= i < j < self.log().len() ==> (#[trigger] self.log()[i]).blob_id <= (
                #[trigger] self.log()[j]).blob_id,
            self.pending().len() == 0 ==> self.open_bytes().len() == 0,
            self.full() ==> self.pending().len() == 0,
    {
    }

    /// Tells whether the store takes no more chunks.
    pub fn is_full(&self) -> (full: bool)
        ensures
            full == self.full(),
    {
        self.next_id == u64::MAX
    }

    /// Number of chunks in the open blob.
    pub fn pending_count(&self) -> (n: usize)
        ensures
            n == self.pending().len(),
    {
        self.pending.len()
    }

    /// Number of bytes in the open blob.
    pub fn open_len(&self) -> (n: usize)
        ensures
            n == self.open_bytes().len(),
    {
        self.buffer.len()
    }

    /// The backend below the store.
    pub fn backend_ref(&self) -> (backend: &B)
        ensures
            *backend == self.backend(),
    {
        &self.backend
    }

    /// Gives the backend back. What was pending in the open blob is lost.
    pub fn into_backend(self) -> (backend: B)
        ensures
            backend == self.backend(),
    {
        self.backend
    }

    /// A store over `backend` whose open blob is empty. Its number is 0 in an
    /// empty backend, and else one above the highest number of a blob that
    /// the backend lists. Fails with `Storage` when the backend cannot list
    /// its blobs, or when it lists the blob with the last number.
    pub fn new(backend: B, max_blob_size: usize) -> (made: Result<BlobStore<B>, HatError>)
        ensures
            match made {
                Ok(store) => {
                    &&& store.wf()
                    &&& store.backend() == backend
                    &&& store.max_blob_size() == max_blob_size
                    &&& store.log().len() == 0
                    &&& store.pending().len() == 0
                    &&& store.open_bytes().len() == 0
                    &&& backend.reliable() ==> {
                        &&& forall|id: u64|
                            id >= store.open_id() ==> !backend.contents().contains_key(
                                #[trigger] blob_name(id),
                            )
                        &&& store.open_id() == 0 || backend.contents().contains_key(
                            blob_name((store.open_id() - 1) as u64),
                        )
                    }
                },
                Err(e) => {
                    &&& e == HatError::Storage
                    &&& !backend.reliable() || backend.contents().contains_key(blob_name(u64::MAX))
                },
            },
    {
        let names = match backend.list() {
            Ok(names) => names,
            Err(_) => {
                return Err(HatError::Storage);
            },
        };
        let mut next: u64 = 0;
        let mut exhausted = false;
        let mut i: usize = 0;
        while i < names.len()
            invariant
                i <= names@.len(),
                forall|j: int|
                    0 <= j < i && (#[trigger] names@[j])@.len() == 8 ==> spec_u64_from_le_bytes(
                        names@[j]@,
                    ) < next || exhausted,
                backend.reliable() ==> lists_names(names@, backend.contents()),
                exhausted ==> exists|j: int|
                    0 <= j < names@.len() && (#[trigger] names@[j])@ == blob_name(u64::MAX),
                next == 0 || exists|j: int|
                    0 <= j < names@.len() && (#[trigger] names@[j])@ == blob_name(
                        (next - 1) as u64,
                    ),
            decreases names@.len() - i,
        {
            if names[i].len() == 8 {
                let id = u64_from_le_bytes(names[i].as_slice());
                if id == u64::MAX {
                    proof {
                        lemma_auto_spec_u64_to_from_le_bytes();
                        assert(spec_u64_to_le_bytes(spec_u64_from_le_bytes(names@[i as int]@))
                            == names@[i as int]@);
                    }
                    exhausted = true;
                } else if id >= next {
                    proof {
                        lemma_auto_spec_u64_to_from_le_bytes();
                        assert(spec_u64_to_le_bytes(spec_u64_from_le_bytes(names@[i as int]@))
                            == names@[i as int]@);
                    }
                    next = id + 1;
                }
            }
            i += 1;
        }
        if exhausted {
            return Err(HatError::Storage);
        }
        let store = BlobStore {
            backend,
            max_blob_size,
            next_id: next,
            buffer: Vec::new(),
            pending: Vec::new(),
            log: Ghost(Seq::empty()),
        };
        proof {
            lemma_auto_spec_u64_to_from_le_bytes();
            assert(store.pending() =~= Seq::empty());
            if backend.reliable() {
                assert forall|id: u64| id >= next implies !backend.contents().contains_key(
                    #[trigger] blob_name(id),
                ) by {
                    if backend.contents().contains_key(blob_name(id)) {
                        let j = choose|j: int|
                            0 <= j < names@.len() && (#[trigger] names@[j])@ == blob_name(id);
                        assert(spec_u64_from_le_bytes(names@[j]@) == id);
                    }
                }
            }
        }
        Ok(store)
    }

    /// Reads the bytes that a reference selects; `None` when its blob is
    /// missing or shorter than the reference says. The open blob is read
    /// from memory; for any other, the backend is asked, and its failure is
    /// reported as `Storage`. What a backend hands out that is not reliable
    /// is passed on as it comes.
    pub fn retrieve(&self, chunk_ref: &ChunkRef) -> (found: Result<Option<Vec<u8>>, HatError>)
        requires
            self.wf(),
        ensures
            match found {
                Ok(bytes) => self.backend().reliable() || chunk_ref@.blob_name == blob_name(
                    self.open_id(),
                ) ==> opt_bytes_view(bytes) == self.chunk_at(chunk_ref@),
                Err(e) => e == HatError::Storage && !self.backend().reliable() && chunk_ref@.blob_name
                    != blob_name(self.open_id()),
            },
    {
        let open_name = u64_to_le_bytes(self.next_id);
        if same_bytes(chunk_ref.blob_name.as_slice(), open_name.as_slice()) {
            Ok(cut(self.buffer.as_slice(), chunk_ref))
        } else {
            match self.backend.get(chunk_ref.blob_name.as_slice()) {
                Err(_) => Err(HatError::Storage),
                Ok(None) => Ok(None),
                Ok(Some(blob)) => Ok(cut(blob.as_slice(), chunk_ref)),
            }
        }
    }

    /// Writes the open blob to the backend, if it holds a chunk, and opens the
    /// next one. The completions of the written blob come back in the order
    /// in which its chunks were stored. When the backend fails, `Storage` is
    /// reported, nothing is completed, and the open blob stays as it is, to
    /// be written by a later call.
    pub fn flush(&mut self) -> (done: Result<Vec<Completion>, HatError>)
        requires
            old(self).wf(),
        ensures
            final(self).wf(),
            old(self).flushed(*final(self), done is Ok),
            done matches Ok(completed) ==> completions_view(completed@) == old(self).pending(),
            done matches Err(e) ==> e == HatError::Storage,
    {
        if self.pending.len() == 0 {
            let none: Vec<Completion> = Vec::new();
            assert(completions_view(none@) =~= Seq::empty());
            return Ok(none);
        }
        let name = u64_to_le_bytes(self.next_id);
        let ghost before = *self;
        match self.backend.put(name.as_slice(), self.buffer.as_slice()) {
            Err(_) => {
                proof {
                    before.lemma_put_failed(*self);
                }
                Err(HatError::Storage)
            },
            Ok(()) => {
                let mut fired: Vec<Completion> = Vec::new();
                core::mem::swap(&mut self.pending, &mut fired);
                self.buffer = Vec::new();
                self.next_id = self.next_id + 1;
                proof {
                    assert(self.pending() =~= Seq::empty());
                    before.lemma_sealed(*self);
                }
                Ok(fired)
            },
        }
    }

    /// The reference that the next chunk gets: it lies at the end of the
    /// open blob.
    pub open spec fn next_ref(&self, chunk: Seq<u8>, kind: Kind) -> ChunkRefView {
        ChunkRefView {
            blob_name: blob_name(self.open_id()),
            offset: self.open_bytes().len() as u64,
            length: chunk.len() as u64,
            kind,
        }
    }

    /// The completions that `store` hands back with a chunk when it
    /// succeeds: none while the open blob stays below the target size, else
    /// those of the whole blob, the new chunk's last.
    pub open spec fn completed_by(&self, chunk: Seq<u8>, kind: Kind, token: Seq<u8>) -> Seq<
        (Seq<u8>, ChunkRefView),
    > {
        if self.open_bytes().len() + chunk.len() < self.max_blob_size() {
            Seq::empty()
        } else {
            self.pending().push((token, self.next_ref(chunk, kind)))
        }
    }

    /// Whether `after` is what `store` makes of this store, `ok` telling
    /// whether it succeeds. With a reliable backend it succeeds unless the
    /// store is full, every reference selects what it selected before, and
    /// the new reference selects the chunk.
    pub open spec fn stored(
        &self,
        chunk: Seq<u8>,
        kind: Kind,
        token: Seq<u8>,
        after: BlobStore<B>,
        ok: bool,
    ) -> bool {
        let r = self.next_ref(chunk, kind);
        let entry = LogEntry { token, blob_id: self.open_id(), chunk_ref: r, bytes: chunk };
        let bytes = self.open_bytes() + chunk;
        let name = blob_name(self.open_id());
        &&& after.max_blob_size() == self.max_blob_size()
        &&& after.backend().reliable() == self.backend().reliable()
        &&& self.backend().reliable() ==> self.kept_by(&after)
        &&& if self.full() {
            &&& !ok
            &&& after.log() == self.log()
            &&& after.pending() == self.pending()
            &&& after.open_bytes() == self.open_bytes()
            &&& after.open_id() == self.open_id()
            &&& after.backend() == self.backend()
        } else {
            &&& after.log() == self.log().push(entry)
            &&& if bytes.len() < self.max_blob_size() {
                &&& ok
                &&& after.chunk_at(r) == Some(chunk)
                &&& after.pending() == self.pending().push((token, r))
                &&& after.open_bytes() == bytes
                &&& after.open_id() == self.open_id()
                &&& after.backend() == self.backend()
            } else if ok {
                &&& after.pending().len() == 0
                &&& after.open_bytes().len() == 0
                &&& after.open_id() == self.open_id() + 1
                &&& self.backend().reliable() ==> {
                    &&& after.chunk_at(r) == Some(chunk)
                    &&& after.sealed() == self.sealed().insert(name, bytes)
                }
            } else {
                &&& !self.backend().reliable()
                &&& after.chunk_at(r) == Some(chunk)
                &&& after.pending() == self.pending().push((token, r))
                &&& after.open_bytes() == bytes
                &&& after.open_id() == self.open_id()
            }
        }
    }

    /// Appends a chunk to the open blob and notes its completion as pending.
    fn append(&mut self, chunk: Vec<u8>, kind: Kind, token: Vec<u8>) -> (chunk_ref: ChunkRef)
        requires
            old(self).wf(),
            !old(self).full(),
        ensures
            final(self).wf(),
            chunk_ref@ == old(self).next_ref(chunk@, kind),
            final(self).log() == old(self).log().push(
                LogEntry {
                    token: token@,
                    blob_id: old(self).open_id(),
                    chunk_ref: chunk_ref@,
                    bytes: chunk@,
                },
            ),
            final(self).pending() == old(self).pending().push((token@, chunk_ref@)),
            final(self).open_bytes() == old(self).open_bytes() + chunk@,
            final(self).open_id() == old(self).open_id(),
            final(self).backend() == old(self).backend(),
            final(self).max_blob_size() == old(self).max_blob_size(),
            final(self).chunk_at(chunk_ref@) == Some(chunk@),
            old(self).kept_by(final(self)),
    {
        let ghost before = *self;
        let chunk_ref = ChunkRef {
            blob_name: u64_to_le_bytes(self.next_id),
            offset: self.buffer.len() as u64,
            length: chunk.len() as u64,
            kind,
        };
        self.buffer.extend_from_slice(chunk.as_slice());
        self.pending.push(Completion { token, chunk_ref: chunk_ref.clone() });
        proof {
            let entry = LogEntry {
                token: token@,
                blob_id: before.next_id,
                chunk_ref: chunk_ref@,
                bytes: chunk@,
            };
            self.log@ = self.log@.push(entry);
            assert(self.buffer@ =~= before.buffer@ + chunk@);
            assert(self.pending() =~= before.pending().push((token@, chunk_ref@)));
            assert(self.buffer@.subrange(
                chunk_ref@.offset as int,
                chunk_ref@.offset + chunk_ref@.length,
            ) =~= chunk@);
            assert forall|r: ChunkRefView| #[trigger] before.chunk_at(r) is Some implies self.chunk_at(
                r,
            ) == before.chunk_at(r) by {
                if r.blob_name == blob_name(before.next_id) {
                    assert(self.buffer@.subrange(r.offset as int, r.offset + r.length)
                        =~= before.buffer@.subrange(r.offset as int, r.offset + r.length));
                }
            }
            let log = self.log();
            let old_log = before.log();
            assert forall|i: int| 0 <= i < log.len() implies {
                &&& (#[trigger] log[i]).chunk_ref.blob_name == blob_name(log[i].blob_id)
                &&& (self.backend().reliable() || i >= self.sealed_count() ==> self.chunk_at(
                    log[i].chunk_ref,
                ) == Some(log[i].bytes))
                &&& log[i].chunk_ref.length == log[i].bytes.len()
                &&& (i < self.sealed_count() ==> log[i].blob_id < self.open_id())
                &&& (i >= self.sealed_count() ==> log[i].blob_id == self.open_id())
            } by {
                if i < old_log.len() {
                    assert(log[i] == old_log[i]);
                    if self.backend().reliable() || i >= self.sealed_count() {
                        assert(before.chunk_at(old_log[i].chunk_ref) is Some);
                    }
                }
            }
            assert forall|i: int| 0 <= i < self.pending().len() implies #[trigger] self.pending()[i]
                == log[self.sealed_count() + i].completion() by {
                if i < before.pending().len() {
                    assert(self.pending()[i] == before.pending()[i]);
                    assert(log[self.sealed_count() + i] == old_log[before.sealed_count() + i]);
                }
            }
            assert forall|i: int, j: int| 0 <= i < j < log.len() implies (#[trigger] log[i]).blob_id
                <= (#[trigger] log[j]).blob_id by {
                if j < old_log.len() {
                    assert(log[i] == old_log[i] && log[j] == old_log[j]);
                } else {
                    assert(log[i] == old_log[i]);
                }
            }
        }
        chunk_ref
    }

    /// Takes a chunk: appends it to the open blob and hands back the
    /// reference under which it can be read from now on. When the open blob
    /// has thereby reached the target size, it is written at once, whole, and
    /// the completions of all its chunks are handed back too. When that write
    /// fails, `Storage` is reported; the chunk stays in the open blob, and its
    /// completion stays due. A full store takes nothing and says `Storage`.
    pub fn store(&mut self, chunk: Vec<u8>, kind: Kind, token: Vec<u8>) -> (stored: Result<
        Stored,
        HatError,
    >)
        requires
            old(self).wf(),
        ensures
            final(self).wf(),
            old(self).stored(chunk@, kind, token@, *final(self), stored is Ok),
            stored matches Ok(s) ==> {
                &&& s.chunk_ref@ == old(self).next_ref(chunk@, kind)
                &&& completions_view(s.completed@) == old(self).completed_by(chunk@, kind, token@)
            },
            stored matches Err(e) ==> e == HatError::Storage,
    {
        if self.next_id == u64::MAX {
            return Err(HatError::Storage);
        }
        let ghost before = *self;
        let chunk_ref = self.append(chunk, kind, token);
        let ghost middle = *self;
        if self.buffer.len() >= self.max_blob_size {
            match self.flush() {
                Ok(completed) => {
                    assert(middle.chunk_at(chunk_ref@) is Some);
                    Ok(Stored { chunk_ref, completed })
                },
                Err(_) => {
                    assert(middle.chunk_at(chunk_ref@) is Some);
                    Err(HatError::Storage)
                },
            }
        } else {
            let completed: Vec<Completion> = Vec::new();
            assert(completions_view(completed@) =~= Seq::empty());
            Ok(Stored { chunk_ref, completed })
        }
    }

    /// Whether `after` is what `flush` makes of this store, `ok` telling
    /// whether it succeeds. With a reliable backend it succeeds, the blob is
    /// in the backend afterwards, and every reference selects what it
    /// selected before.
    pub open spec fn flushed(&self, after: BlobStore<B>, ok: bool) -> bool {
        let name = blob_name(self.open_id());
        &&& after.max_blob_size() == self.max_blob_size()
        &&& after.backend().reliable() == self.backend().reliable()
        &&& after.log() == self.log()
        &&& self.backend().reliable() ==> ok && self.kept_by(&after)
        &&& if self.pending().len() == 0 {
            &&& ok
            &&& after.pending() == self.pending()
            &&& after.open_bytes() == self.open_bytes()
            &&& after.open_id() == self.open_id()
            &&& after.backend() == self.backend()
        } else if ok {
            &&& after.pending().len() == 0
            &&& after.open_bytes().len() == 0
            &&& after.open_id() == self.open_id() + 1
            &&& self.backend().reliable() ==> after.sealed() == self.sealed().insert(
                name,
                self.open_bytes(),
            )
        } else {
            &&& after.pending() == self.pending()
            &&& after.open_bytes() == self.open_bytes()
            &&& after.open_id() == self.open_id()
        }
    }

    /// A failed write of the open blob leaves the store well formed.
    proof fn lemma_put_failed(self, after: BlobStore<B>)
        requires
            self.wf(),
            !self.backend.reliable(),
            !after.backend.reliable(),
            after.next_id == self.next_id,
            after.buffer == self.buffer,
            after.pending == self.pending,
            after.log == self.log,
        ensures
            after.wf(),
    {
        let log = self.log();
        assert forall|i: int| 0 <= i < log.len() && i >= after.sealed_count() implies after.chunk_at(
            (#[trigger] log[i]).chunk_ref,
        ) == Some(log[i].bytes) by {
            assert(self.chunk_at(log[i].chunk_ref) == Some(log[i].bytes));
        }
    }

    /// A successful write of the open blob, followed by opening the next
    /// one, leaves the store well formed; and with a reliable backend every
    /// reference selects what it selected.
    proof fn lemma_sealed(self, after: BlobStore<B>)
        requires
            self.wf(),
            self.pending().len() > 0,
            after.next_id == self.next_id + 1,
            after.buffer@.len() == 0,
            after.pending().len() == 0,
            after.log == self.log,
            after.backend.reliable() == self.backend.reliable(),
            self.backend.reliable() ==> after.sealed() == self.sealed().insert(
                blob_name(self.next_id),
                self.buffer@,
            ),
        ensures
            after.wf(),
            self.backend.reliable() ==> self.kept_by(&after),
    {
        let name = blob_name(self.next_id);
        lemma_blob_names_differ(self.next_id, after.next_id);
        let log = self.log();
        if self.backend.reliable() {
            assert(!self.sealed().contains_key(blob_name(after.next_id)));
            assert forall|r: ChunkRefView| #[trigger] self.chunk_at(r) is Some implies after.chunk_at(
                r,
            ) == self.chunk_at(r) by {}
            assert forall|id: u64| id > after.open_id() implies !after.sealed().contains_key(
                #[trigger] blob_name(id),
            ) by {
                lemma_blob_names_differ(id, self.next_id);
            }
            assert forall|i: int| 0 <= i < log.len() implies after.chunk_at(
                (#[trigger] log[i]).chunk_ref,
            ) == Some(log[i].bytes) by {
                assert(self.chunk_at(log[i].chunk_ref) == Some(log[i].bytes));
            }
        }
        assert forall|i: int| 0 <= i < log.len() implies (#[trigger] log[i]).blob_id
            < after.open_id() by {}
    }
}

/// The bytes that `chunk_ref` selects in `blob`, if the blob is long enough.
pub fn cut(blob: &[u8], chunk_ref: &ChunkRef) -> (bytes: Option<Vec<u8>>)
    ensures
        match bytes {
            Some(b) => slice_of(blob@, chunk_ref@) == Some(b@),
            None => slice_of(blob@, chunk_ref@) is None,
        },
{
    let len = blob.len() as u64;
    if chunk_ref.offset <= len && chunk_ref.length <= len - chunk_ref.offset {
        let start = chunk_ref.offset as usize;
        let end = start + chunk_ref.length as usize;
        Some(copy_bytes(slice_subrange(blob, start, end)))
    } else {
        None
    }
}

} // verus!
