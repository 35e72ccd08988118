use std::sync::atomic::{AtomicBool, Ordering};
use std::sync::Arc;

use hat::backend::{MemoryBackend, StoreBackend};
use hat::blob::{BlobStore, ChunkRef, Kind};
use hat::errors::HatError;
use hat::hash::{Entry, HashIndex};
use hat::key::hash_store_backend::{check_digest, HashStoreBackend};

fn hash(text: &[u8]) -> hat::hash::Hash {
    hat::hash::Hash::new(text)
}

fn name(id: u64) -> Vec<u8> {
    id.to_le_bytes().to_vec()
}

fn service(max_blob_size: usize) -> HashStoreBackend<MemoryBackend> {
    let store = BlobStore::new(MemoryBackend::new(), max_blob_size).unwrap();
    HashStoreBackend::new(HashIndex::new(), store).unwrap()
}

/// A backend in memory whose writes fail while the switch is on.
struct SwitchedBackend {
    inner: MemoryBackend,
    failing: Arc<AtomicBool>,
}

impl StoreBackend for SwitchedBackend {
    fn put(&mut self, name: &[u8], data: &[u8]) -> Result<(), HatError> {
        if self.failing.load(Ordering::SeqCst) {
            Err(HatError::Message("no space left".to_string()))
        } else {
            self.inner.put(name, data)
        }
    }

    fn get(&self, name: &[u8]) -> Result<Option<Vec<u8>>, HatError> {
        if self.failing.load(Ordering::SeqCst) {
            Err(HatError::Message("unreadable".to_string()))
        } else {
            self.inner.get(name)
        }
    }

    fn list(&self) -> Result<Vec<Vec<u8>>, HatError> {
        self.inner.list()
    }
}

/// All bytes of all blobs of a backend.
fn stored_bytes(backend: &MemoryBackend) -> usize {
    let mut names = backend.list().unwrap();
    names.sort();
    names.dedup();
    names.iter().map(|n| backend.get(n).unwrap().unwrap().len()).sum()
}

#[test]
fn a_new_chunk_is_stored_and_can_be_fetched() {
    let mut service = service(100);
    let h = hash(b"hello");
    let r = service.insert_chunk(&h, 0, None, b"hello".to_vec()).unwrap();
    assert_eq!(r, ChunkRef { blob_name: name(0), offset: 0, length: 5, kind: Kind::TreeLeaf });
    // Under its reference the chunk can be read at once, from the open blob.
    assert_eq!(service.fetch_chunk(&h, Some(r.clone())), Ok(Some(b"hello".to_vec())));
    assert_eq!(service.fetch_chunk_from_persistent_ref(&r), Ok(Some(b"hello".to_vec())));
    // Once the blob is written, the index hands the reference out too.
    service.flush().unwrap();
    assert_eq!(service.fetch_chunk(&h, Some(r.clone())), Ok(Some(b"hello".to_vec())));
    assert_eq!(service.fetch_chunk(&h, None), Ok(Some(b"hello".to_vec())));
    assert_eq!(service.fetch_chunk_from_hash(&h), Ok(Some(b"hello".to_vec())));
}

#[test]
fn a_fetch_writes_nothing_and_reports_a_reserved_hash_as_a_stall() {
    let mut service = service(100);
    let h = hash(b"hello");
    service.insert_chunk(&h, 0, None, b"hello".to_vec()).unwrap();
    assert_eq!(service.fetch_chunk(&h, None), Err(HatError::Retry));
    assert_eq!(service.fetch_chunk_from_hash(&h), Err(HatError::Retry));
    assert_eq!(service.fetch_persistent_ref(&h), Err(HatError::Retry));
    // Nothing was written, nothing was committed, and asking again gives the same.
    assert_eq!(service.blob_store_ref().pending_count(), 1);
    assert_eq!(service.blob_store_ref().backend_ref().list(), Ok(vec![]));
    assert!(!service.hash_index_ref().is_settled());
    assert_eq!(service.fetch_chunk(&h, None), Err(HatError::Retry));
}

#[test]
fn the_level_decides_the_kind_of_the_chunk() {
    let mut service = service(100);
    let leaf = service.insert_chunk(&hash(b"leaf"), 0, None, b"leaf".to_vec()).unwrap();
    let branch = service.insert_chunk(&hash(b"branch"), 2, None, b"branch".to_vec()).unwrap();
    assert_eq!(leaf.kind, Kind::TreeLeaf);
    assert_eq!(branch.kind, Kind::TreeBranch);
    assert_eq!(branch.offset, 4);
}

#[test]
fn a_chunk_that_is_brought_twice_is_stored_once() {
    let mut service = service(100);
    let h = hash(b"hello");
    let first = service.insert_chunk(&h, 0, None, b"hello".to_vec()).unwrap();
    let second = service.insert_chunk(&h, 0, None, b"hello".to_vec()).unwrap();
    let third = service.insert_chunk(&h, 0, None, b"hello".to_vec()).unwrap();
    assert_eq!(second, first);
    assert_eq!(third, first);
    assert_eq!(service.hash_index_ref().len(), 1);
    // The second insertion made the reference known by flushing; nothing else was written.
    assert_eq!(service.blob_store_ref().pending_count(), 0);
    assert_eq!(stored_bytes(service.blob_store_ref().backend_ref()), 5);
}

#[test]
fn the_chunks_written_are_the_distinct_hashes_brought() {
    let mut service = service(1000);
    let texts: [&[u8]; 7] = [b"a", b"b", b"a", b"c", b"b", b"a", b"d"];
    for text in texts.iter() {
        service.insert_chunk(&hash(text), 0, None, text.to_vec()).unwrap();
    }
    service.flush().unwrap();
    assert_eq!(service.hash_index_ref().len(), 4);
    assert_eq!(stored_bytes(service.blob_store_ref().backend_ref()), 4);
    for text in texts.iter() {
        assert_eq!(service.fetch_chunk(&hash(text), None), Ok(Some(text.to_vec())));
    }
}

#[test]
fn the_reference_of_an_unknown_hash_is_none() {
    let mut service = service(100);
    assert_eq!(service.fetch_persistent_ref(&hash(b"unknown")), Ok(None));
    assert_eq!(service.fetch_chunk(&hash(b"unknown"), None), Ok(None));
    assert_eq!(service.fetch_payload(&hash(b"unknown")), None);
}

#[test]
fn the_reference_is_handed_out_after_the_flush() {
    let mut service = service(100);
    let h = hash(b"hello");
    let r = service.insert_chunk(&h, 0, None, b"hello".to_vec()).unwrap();
    assert_eq!(service.blob_store_ref().pending_count(), 1);
    assert_eq!(service.fetch_persistent_ref(&h), Err(HatError::Retry));
    assert_eq!(service.blob_store_ref().pending_count(), 1);
    service.flush().unwrap();
    assert_eq!(service.fetch_persistent_ref(&h), Ok(Some(r)));
    assert!(service.hash_index_ref().is_settled());
}

#[test]
fn the_payload_is_known_once_the_hash_is_committed() {
    let mut service = service(100);
    let h = hash(b"root");
    service.insert_chunk(&h, 1, Some(vec![1, 2, 3]), b"root".to_vec()).unwrap();
    assert_eq!(service.fetch_payload(&h), None);
    service.flush().unwrap();
    assert_eq!(service.fetch_payload(&h), Some(vec![1, 2, 3]));
}

#[test]
fn a_full_blob_commits_all_its_chunks_in_one_go() {
    let mut service = service(8);
    let a = service.insert_chunk(&hash(b"aaaa"), 0, None, b"aaaa".to_vec()).unwrap();
    assert!(!service.hash_index_ref().is_settled());
    let b = service.insert_chunk(&hash(b"bbbb"), 0, None, b"bbbb".to_vec()).unwrap();
    assert!(service.hash_index_ref().is_settled());
    assert_eq!(service.hash_index_ref().fetch_persistent_ref(&hash(b"aaaa")), Ok(Some(a)));
    assert_eq!(service.hash_index_ref().fetch_persistent_ref(&hash(b"bbbb")), Ok(Some(b)));
    assert_eq!(service.blob_store_ref().backend_ref().get(&name(0)), Ok(Some(b"aaaabbbb".to_vec())));
}

#[test]
fn a_chunk_is_handed_out_only_if_it_hashes_to_its_hash() {
    let mut service = service(100);
    // The chunk is brought under the hash of other bytes.
    let wrong = hash(b"something else");
    let r = service.insert_chunk(&wrong, 0, None, b"hello".to_vec()).unwrap();
    service.flush().unwrap();
    assert_eq!(service.fetch_chunk(&wrong, None), Ok(None));
    assert_eq!(service.fetch_chunk(&wrong, Some(r.clone())), Ok(None));
    // Under its own hash the same bytes are handed out.
    assert_eq!(service.fetch_chunk(&hash(b"hello"), Some(r)), Ok(Some(b"hello".to_vec())));
}

#[test]
fn check_digest_compares_the_hashes() {
    let data = b"hello".to_vec();
    assert_eq!(check_digest(&hash(b"hello"), &hash(b"hello"), data.clone()), Some(data.clone()));
    assert_eq!(check_digest(&hash(b"hello"), &hash(b"hellp"), data), None);
}

#[test]
fn an_empty_chunk_is_stored_and_read_like_any_other() {
    let mut service = service(100);
    let h = hash(b"");
    let r = service.insert_chunk(&h, 0, None, vec![]).unwrap();
    assert_eq!(r.length, 0);
    assert_eq!(service.fetch_chunk(&h, Some(r.clone())), Ok(Some(vec![])));
    let again = service.insert_chunk(&h, 0, None, vec![]).unwrap();
    assert_eq!(again, r);
    assert_eq!(service.fetch_chunk(&h, Some(r)), Ok(Some(vec![])));
    assert_eq!(service.fetch_chunk(&h, None), Ok(Some(vec![])));
}

#[test]
fn a_store_with_pending_chunks_cannot_be_bound() {
    let mut store = BlobStore::new(MemoryBackend::new(), 100).unwrap();
    store.store(vec![1], Kind::TreeLeaf, vec![1]).unwrap();
    assert_eq!(
        HashStoreBackend::new(HashIndex::new(), store).err(),
        Some(HatError::Corruption)
    );
}

#[test]
fn an_index_with_reserved_hashes_cannot_be_bound() {
    let store = BlobStore::new(MemoryBackend::new(), 100).unwrap();
    let mut index = HashIndex::new();
    index.reserve(&Entry { hash: hash(b"a"), level: 0, payload: None, persistent_ref: None });
    assert_eq!(HashStoreBackend::new(index, store).err(), Some(HatError::Corruption));
}

#[test]
fn a_failed_write_is_reported_and_made_up_for_later() {
    let failing = Arc::new(AtomicBool::new(true));
    let backend = SwitchedBackend { inner: MemoryBackend::new(), failing: failing.clone() };
    let store = BlobStore::new(backend, 4).unwrap();
    let mut service = HashStoreBackend::new(HashIndex::new(), store).unwrap();
    let h = hash(b"hello");
    // The chunk fills the blob, and the write fails.
    assert_eq!(service.insert_chunk(&h, 0, None, b"hello".to_vec()), Err(HatError::Storage));
    assert_eq!(service.flush(), Err(HatError::Storage));
    assert_eq!(service.fetch_persistent_ref(&h), Err(HatError::Retry));
    assert_eq!(service.hash_index_ref().len(), 1);
    assert_eq!(service.blob_store_ref().pending_count(), 1);

    failing.store(false, Ordering::SeqCst);
    // The chunk was taken the first time: it is known, and now it is written.
    let r = service.insert_chunk(&h, 0, None, b"hello".to_vec()).unwrap();
    assert_eq!(r, ChunkRef { blob_name: name(0), offset: 0, length: 5, kind: Kind::TreeLeaf });
    assert_eq!(service.fetch_chunk(&h, None), Ok(Some(b"hello".to_vec())));
    assert_eq!(service.blob_store_ref().pending_count(), 0);
}

#[test]
fn a_failed_read_is_reported() {
    let failing = Arc::new(AtomicBool::new(false));
    let backend = SwitchedBackend { inner: MemoryBackend::new(), failing: failing.clone() };
    let store = BlobStore::new(backend, 4).unwrap();
    let mut service = HashStoreBackend::new(HashIndex::new(), store).unwrap();
    let h = hash(b"hello");
    let r = service.insert_chunk(&h, 0, None, b"hello".to_vec()).unwrap();
    failing.store(true, Ordering::SeqCst);
    assert_eq!(service.fetch_chunk(&h, Some(r)), Err(HatError::Storage));
    assert_eq!(service.fetch_chunk(&h, None), Err(HatError::Storage));
}

#[test]
fn a_full_blob_store_takes_no_new_chunk() {
    let mut backend = MemoryBackend::new();
    backend.put(&name(u64::MAX - 1), b"last but one").unwrap();
    let store = BlobStore::new(backend, 4).unwrap();
    let mut service = HashStoreBackend::new(HashIndex::new(), store).unwrap();
    assert_eq!(
        service.insert_chunk(&hash(b"hello"), 0, None, b"hello".to_vec()),
        Err(HatError::Storage)
    );
    assert_eq!(service.hash_index_ref().len(), 0);
}

#[test]
fn reserved_entries_are_gone_after_a_restart_and_can_be_brought_again() {
    let chunk_len: usize = 100 * 1024;
    let chunks: Vec<Vec<u8>> = (0..100u32)
        .map(|i| {
            let mut chunk = vec![(i % 251) as u8; chunk_len];
            chunk[..4].copy_from_slice(&i.to_le_bytes());
            chunk
        })
        .collect();

    let mut service = service(hat::layout::MAX_BLOB_SIZE);
    for chunk in chunks.iter() {
        service.insert_chunk(&hash(chunk), 0, None, chunk.clone()).unwrap();
    }
    // 41 chunks fill a blob: two blobs are written, 18 chunks are pending.
    assert_eq!(service.blob_store_ref().pending_count(), 18);

    // The process stops here. What is left is the backend and the committed entries.
    let (index, store) = service.into_parts();
    let index = index.recovered();
    let backend = store.into_backend();
    assert_eq!(index.len(), 82);

    let store = BlobStore::new(backend, hat::layout::MAX_BLOB_SIZE).unwrap();
    let mut service = HashStoreBackend::new(index, store).unwrap();
    assert_eq!(service.fetch_persistent_ref(&hash(&chunks[0])).unwrap().unwrap().blob_name, name(0));
    assert_eq!(service.fetch_persistent_ref(&hash(&chunks[99])), Ok(None));
    assert_eq!(service.fetch_chunk(&hash(&chunks[99]), None), Ok(None));

    // The snapshot is repeated: what was lost is stored anew, the rest is known.
    for chunk in chunks.iter() {
        service.insert_chunk(&hash(chunk), 0, None, chunk.clone()).unwrap();
    }
    service.flush().unwrap();
    assert_eq!(service.hash_index_ref().len(), 100);
    for chunk in chunks.iter() {
        assert_eq!(service.fetch_chunk(&hash(chunk), None), Ok(Some(chunk.clone())));
    }
    assert_eq!(stored_bytes(service.blob_store_ref().backend_ref()), 100 * chunk_len);
}

/// A backend that hands out other bytes than were put.
struct LyingBackend {
    inner: MemoryBackend,
}

impl StoreBackend for LyingBackend {
    fn put(&mut self, name: &[u8], data: &[u8]) -> Result<(), HatError> {
        self.inner.put(name, data)
    }

    fn get(&self, name: &[u8]) -> Result<Option<Vec<u8>>, HatError> {
        Ok(self.inner.get(name)?.map(|data| data.iter().map(|b| b ^ 0xff).collect()))
    }

    fn list(&self) -> Result<Vec<Vec<u8>>, HatError> {
        self.inner.list()
    }
}

#[test]
fn bytes_that_a_backend_has_changed_are_not_handed_out() {
    let store = BlobStore::new(LyingBackend { inner: MemoryBackend::new() }, 100).unwrap();
    let mut service = HashStoreBackend::new(HashIndex::new(), store).unwrap();
    let h = hash(b"hello");
    let r = service.insert_chunk(&h, 0, None, b"hello".to_vec()).unwrap();
    // While the chunk is in the open blob it is read from memory.
    assert_eq!(service.fetch_chunk(&h, Some(r.clone())), Ok(Some(b"hello".to_vec())));
    service.flush().unwrap();
    // Now the backend is asked, and what it hands out does not hash to the hash.
    assert_eq!(service.fetch_chunk(&h, Some(r)), Ok(None));
    assert_eq!(service.fetch_chunk(&h, None), Ok(None));
}

#[test]
fn a_hash_that_the_index_knew_before_is_not_stored_again() {
    // The index comes with an entry for the hash, whose reference points at other bytes.
    let mut backend = MemoryBackend::new();
    backend.put(&name(0), b"HELLO").unwrap();
    let h = hash(b"hello");
    let old = ChunkRef { blob_name: name(0), offset: 0, length: 5, kind: Kind::TreeLeaf };
    let index = HashIndex::restore(vec![Entry {
        hash: h.clone(),
        level: 0,
        payload: None,
        persistent_ref: Some(old.clone()),
    }])
    .unwrap();
    let store = BlobStore::new(backend, 100).unwrap();
    let mut service = HashStoreBackend::new(index, store).unwrap();

    assert_eq!(service.insert_chunk(&h, 0, None, b"hello".to_vec()), Ok(old));
    assert_eq!(service.blob_store_ref().pending_count(), 0);
    // What lies under the old reference is not the chunk: nothing is handed out.
    assert_eq!(service.fetch_chunk(&h, None), Ok(None));
}

#[test]
fn binding_needs_a_hashing_library_that_is_ready() {
    let store = BlobStore::new(MemoryBackend::new(), 100).unwrap();
    assert_eq!(
        HashStoreBackend::bind(HashIndex::new(), store, false).err(),
        Some(HatError::Message("The hashing library is not ready".to_string()))
    );
    let store = BlobStore::new(MemoryBackend::new(), 100).unwrap();
    assert!(HashStoreBackend::bind(HashIndex::new(), store, true).is_ok());
    // Parts that are not at rest are refused first.
    let mut store = BlobStore::new(MemoryBackend::new(), 100).unwrap();
    store.store(vec![1], Kind::TreeLeaf, vec![1]).unwrap();
    assert_eq!(
        HashStoreBackend::bind(HashIndex::new(), store, false).err(),
        Some(HatError::Corruption)
    );
}

#[test]
fn the_open_blob_is_read_without_the_backend() {
    let failing = Arc::new(AtomicBool::new(false));
    let backend = SwitchedBackend { inner: MemoryBackend::new(), failing: failing.clone() };
    let store = BlobStore::new(backend, 100).unwrap();
    let mut service = HashStoreBackend::new(HashIndex::new(), store).unwrap();
    let h = hash(b"hello");
    let r = service.insert_chunk(&h, 0, None, b"hello".to_vec()).unwrap();
    let nothing = service.insert_chunk(&hash(b""), 0, None, vec![]).unwrap();
    failing.store(true, Ordering::SeqCst);
    // The backend fails, but the chunks are in the open blob.
    assert_eq!(service.fetch_chunk(&h, Some(r)), Ok(Some(b"hello".to_vec())));
    assert_eq!(service.fetch_chunk(&hash(b""), Some(nothing)), Ok(Some(vec![])));
    // And an unknown hash is unknown whatever the backend does.
    assert_eq!(service.fetch_chunk(&hash(b"unknown"), None), Ok(None));
}
