use hat::backend::{MemoryBackend, StoreBackend};
use hat::blob::{BlobStore, ChunkRef, Completion, Kind};
use hat::errors::HatError;

fn name(id: u64) -> Vec<u8> {
    id.to_le_bytes().to_vec()
}

fn store_of(max: usize) -> BlobStore<MemoryBackend> {
    BlobStore::new(MemoryBackend::new(), max).unwrap()
}

#[test]
fn chunks_are_placed_one_after_the_other() {
    let mut store = store_of(100);
    let a = store.store(vec![1, 2, 3], Kind::TreeLeaf, vec![b'a']).unwrap();
    let b = store.store(vec![4, 5], Kind::TreeBranch, vec![b'b']).unwrap();
    assert_eq!(a.chunk_ref, ChunkRef { blob_name: name(0), offset: 0, length: 3, kind: Kind::TreeLeaf });
    assert_eq!(b.chunk_ref, ChunkRef { blob_name: name(0), offset: 3, length: 2, kind: Kind::TreeBranch });
    assert!(a.completed.is_empty());
    assert!(b.completed.is_empty());
    assert_eq!(store.pending_count(), 2);
    assert_eq!(store.open_len(), 5);
    assert!(!store.is_full());
}

#[test]
fn a_chunk_can_be_read_before_and_after_its_blob_is_written() {
    let mut store = store_of(100);
    let a = store.store(vec![1, 2, 3], Kind::TreeLeaf, vec![b'a']).unwrap();
    let b = store.store(vec![4, 5], Kind::TreeLeaf, vec![b'b']).unwrap();
    assert_eq!(store.retrieve(&a.chunk_ref), Ok(Some(vec![1, 2, 3])));
    assert_eq!(store.retrieve(&b.chunk_ref), Ok(Some(vec![4, 5])));
    store.flush().unwrap();
    assert_eq!(store.retrieve(&a.chunk_ref), Ok(Some(vec![1, 2, 3])));
    assert_eq!(store.retrieve(&b.chunk_ref), Ok(Some(vec![4, 5])));
    assert_eq!(store.backend_ref().get(&name(0)), Ok(Some(vec![1, 2, 3, 4, 5])));
}

#[test]
fn flush_hands_back_the_completions_in_the_order_of_storing() {
    let mut store = store_of(100);
    let a = store.store(vec![1], Kind::TreeLeaf, vec![b'a']).unwrap().chunk_ref;
    let b = store.store(vec![2], Kind::TreeLeaf, vec![b'b']).unwrap().chunk_ref;
    let c = store.store(vec![3], Kind::TreeBranch, vec![b'c']).unwrap().chunk_ref;
    let completed = store.flush().unwrap();
    assert_eq!(
        completed,
        vec![
            Completion { token: vec![b'a'], chunk_ref: a },
            Completion { token: vec![b'b'], chunk_ref: b },
            Completion { token: vec![b'c'], chunk_ref: c },
        ]
    );
    assert_eq!(store.pending_count(), 0);
    assert_eq!(store.open_len(), 0);
    // Nothing is completed twice.
    assert_eq!(store.flush(), Ok(vec![]));
}

#[test]
fn a_blob_of_exactly_the_target_size_is_written_at_once() {
    let mut store = store_of(4);
    let first = store.store(vec![1, 2], Kind::TreeLeaf, vec![b'a']).unwrap();
    assert!(first.completed.is_empty());
    let second = store.store(vec![3, 4], Kind::TreeLeaf, vec![b'b']).unwrap();
    assert_eq!(second.completed.len(), 2);
    assert_eq!(second.completed[0].token, vec![b'a']);
    assert_eq!(second.completed[1].token, vec![b'b']);
    assert_eq!(second.completed[1].chunk_ref, second.chunk_ref);
    // Nothing spills over into the next blob.
    assert_eq!(store.open_len(), 0);
    assert_eq!(store.pending_count(), 0);
    assert_eq!(store.backend_ref().get(&name(0)), Ok(Some(vec![1, 2, 3, 4])));
    assert_eq!(store.backend_ref().get(&name(1)), Ok(None));
}

#[test]
fn a_chunk_is_never_split_between_two_blobs() {
    let mut store = store_of(4);
    store.store(vec![1, 2, 3], Kind::TreeLeaf, vec![b'a']).unwrap();
    // The open blob has room for one more byte; the chunk has three.
    let big = store.store(vec![4, 5, 6], Kind::TreeLeaf, vec![b'b']).unwrap();
    assert_eq!(big.chunk_ref, ChunkRef { blob_name: name(0), offset: 3, length: 3, kind: Kind::TreeLeaf });
    assert_eq!(store.backend_ref().get(&name(0)), Ok(Some(vec![1, 2, 3, 4, 5, 6])));
    assert_eq!(store.retrieve(&big.chunk_ref), Ok(Some(vec![4, 5, 6])));
    let next = store.store(vec![7], Kind::TreeLeaf, vec![b'c']).unwrap();
    assert_eq!(next.chunk_ref, ChunkRef { blob_name: name(1), offset: 0, length: 1, kind: Kind::TreeLeaf });
}

#[test]
fn a_chunk_above_the_target_size_gets_a_blob_of_its_own() {
    let mut store = store_of(4);
    let big = store.store(vec![9; 10], Kind::TreeLeaf, vec![b'a']).unwrap();
    assert_eq!(big.completed.len(), 1);
    assert_eq!(store.backend_ref().get(&name(0)), Ok(Some(vec![9; 10])));
}

#[test]
fn blob_names_increase_from_blob_to_blob() {
    let mut store = store_of(2);
    let a = store.store(vec![1, 1], Kind::TreeLeaf, vec![1]).unwrap().chunk_ref;
    let b = store.store(vec![2, 2], Kind::TreeLeaf, vec![2]).unwrap().chunk_ref;
    let c = store.store(vec![3, 3], Kind::TreeLeaf, vec![3]).unwrap().chunk_ref;
    assert_eq!(a.blob_name, name(0));
    assert_eq!(b.blob_name, name(1));
    assert_eq!(c.blob_name, name(2));
    let mut names = store.backend_ref().list().unwrap();
    names.sort();
    assert_eq!(names, vec![name(0), name(1), name(2)]);
}

#[test]
fn an_empty_chunk_has_an_empty_reference() {
    let mut store = store_of(10);
    store.store(vec![1], Kind::TreeLeaf, vec![1]).unwrap();
    let empty = store.store(vec![], Kind::TreeLeaf, vec![2]).unwrap().chunk_ref;
    assert_eq!(empty.offset, 1);
    assert_eq!(empty.length, 0);
    assert_eq!(store.retrieve(&empty), Ok(Some(vec![])));
    store.flush().unwrap();
    assert_eq!(store.retrieve(&empty), Ok(Some(vec![])));
}

#[test]
fn a_reference_to_a_missing_blob_selects_nothing() {
    let store = store_of(10);
    let missing = ChunkRef { blob_name: name(7), offset: 0, length: 1, kind: Kind::TreeLeaf };
    assert_eq!(store.retrieve(&missing), Ok(None));
    let odd = ChunkRef { blob_name: b"no such blob".to_vec(), offset: 0, length: 0, kind: Kind::TreeLeaf };
    assert_eq!(store.retrieve(&odd), Ok(None));
}

#[test]
fn a_reference_beyond_the_end_of_its_blob_selects_nothing() {
    let mut store = store_of(10);
    let a = store.store(vec![1, 2, 3], Kind::TreeLeaf, vec![1]).unwrap().chunk_ref;
    let beyond = ChunkRef { length: 4, ..a.clone() };
    let far = ChunkRef { offset: u64::MAX, length: u64::MAX, ..a.clone() };
    assert_eq!(store.retrieve(&beyond), Ok(None));
    assert_eq!(store.retrieve(&far), Ok(None));
    store.flush().unwrap();
    assert_eq!(store.retrieve(&beyond), Ok(None));
    assert_eq!(store.retrieve(&far), Ok(None));
    assert_eq!(store.retrieve(&ChunkRef { offset: 1, length: 2, ..a }), Ok(Some(vec![2, 3])));
}

#[test]
fn flushing_an_empty_store_writes_no_blob() {
    let mut store = store_of(10);
    assert_eq!(store.flush(), Ok(vec![]));
    assert_eq!(store.backend_ref().list(), Ok(vec![]));
}

#[test]
fn a_new_store_goes_on_after_the_blobs_that_are_there() {
    let mut backend = MemoryBackend::new();
    backend.put(&name(5), b"five").unwrap();
    backend.put(&name(2), b"two").unwrap();
    backend.put(b"README", b"not a blob of the store").unwrap();
    let mut store = BlobStore::new(backend, 10).unwrap();
    let a = store.store(vec![1], Kind::TreeLeaf, vec![1]).unwrap().chunk_ref;
    assert_eq!(a.blob_name, name(6));
    // The old blobs can be read.
    let old = ChunkRef { blob_name: name(5), offset: 1, length: 3, kind: Kind::TreeLeaf };
    assert_eq!(store.retrieve(&old), Ok(Some(b"ive".to_vec())));
}

#[test]
fn a_store_without_blob_numbers_left_takes_nothing() {
    let mut backend = MemoryBackend::new();
    backend.put(&name(u64::MAX - 1), b"last but one").unwrap();
    let mut store = BlobStore::new(backend, 10).unwrap();
    assert!(store.is_full());
    assert_eq!(store.store(vec![1], Kind::TreeLeaf, vec![1]), Err(HatError::Storage));
    assert_eq!(store.pending_count(), 0);
    assert_eq!(store.flush(), Ok(vec![]));
}

#[test]
fn a_backend_that_holds_the_last_blob_cannot_be_used() {
    let mut backend = MemoryBackend::new();
    backend.put(&name(u64::MAX), b"last").unwrap();
    assert_eq!(BlobStore::new(backend, 10).err(), Some(HatError::Storage));
}

#[test]
fn the_backend_comes_back_with_the_blobs() {
    let mut store = store_of(2);
    store.store(vec![1, 2], Kind::TreeLeaf, vec![1]).unwrap();
    store.store(vec![3], Kind::TreeLeaf, vec![2]).unwrap();
    let backend = store.into_backend();
    assert_eq!(backend.get(&name(0)), Ok(Some(vec![1, 2])));
    // What was pending is lost.
    assert_eq!(backend.get(&name(1)), Ok(None));
}
