use hat::backend::{MemoryBackend, StoreBackend};
use hat::blob::BlobStore;
use hat::errors::HatError;

/// A backend that loses every blob and fails every write.
struct BrokenBackend;

impl StoreBackend for BrokenBackend {
    fn put(&mut self, _name: &[u8], _data: &[u8]) -> Result<(), HatError> {
        Err(HatError::Message("disk full".to_string()))
    }

    fn get(&self, _name: &[u8]) -> Result<Option<Vec<u8>>, HatError> {
        Err(HatError::Message("disk gone".to_string()))
    }

    fn list(&self) -> Result<Vec<Vec<u8>>, HatError> {
        Ok(vec![])
    }
}

#[test]
fn memory_backend_keeps_what_was_put() {
    let mut backend = MemoryBackend::new();
    assert_eq!(backend.get(b"a"), Ok(None));
    assert_eq!(backend.put(b"a", b"first"), Ok(()));
    assert_eq!(backend.put(b"b", b"second"), Ok(()));
    assert_eq!(backend.get(b"a"), Ok(Some(b"first".to_vec())));
    assert_eq!(backend.get(b"b"), Ok(Some(b"second".to_vec())));
    assert_eq!(backend.get(b"c"), Ok(None));
}

#[test]
fn memory_backend_overwrites_a_name() {
    let mut backend = MemoryBackend::new();
    backend.put(b"a", b"first").unwrap();
    backend.put(b"a", b"again").unwrap();
    assert_eq!(backend.get(b"a"), Ok(Some(b"again".to_vec())));
    let names = backend.list().unwrap();
    assert!(names.iter().all(|n| n == b"a"));
    assert!(!names.is_empty());
}

#[test]
fn broken_backend_makes_the_flush_fail() {
    let mut store = BlobStore::new(BrokenBackend, 4).unwrap();
    // Below the target size nothing is written yet.
    let first = store.store(vec![1, 2], hat::blob::Kind::TreeLeaf, vec![9]).unwrap();
    assert_eq!(first.chunk_ref.offset, 0);
    assert!(first.completed.is_empty());
    // The target size is reached: the write is due, and fails.
    assert_eq!(store.store(vec![3, 4], hat::blob::Kind::TreeLeaf, vec![8]), Err(HatError::Storage));
    // Both chunks are still there, to be written by a later flush.
    assert_eq!(store.pending_count(), 2);
    assert_eq!(store.open_len(), 4);
    assert_eq!(store.flush(), Err(HatError::Storage));
    assert_eq!(store.retrieve(&first.chunk_ref), Ok(Some(vec![1, 2])));
}
