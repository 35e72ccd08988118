use hat::backend::{MemoryBackend, StoreBackend};
use hat::blob::{BlobStore, ChunkRef, Kind};
use hat::errors::HatError;
use hat::hash::tree::{
    chunk_end, decode_children, decode_payload, encode_children, encode_payload, read_node,
    read_tree, roll_byte, write_tree, HashRef, TreeRoot, TreeWriter, DEFAULT_FANOUT, MAX_CHUNK,
    MIN_CHUNK,
};
use hat::hash::HashIndex;
use hat::key::hash_store_backend::HashStoreBackend;

fn hash(text: &[u8]) -> hat::hash::Hash {
    hat::hash::Hash::new(text)
}

fn name(id: u64) -> Vec<u8> {
    id.to_le_bytes().to_vec()
}

fn service(max_blob_size: usize) -> HashStoreBackend<MemoryBackend> {
    let store = BlobStore::new(MemoryBackend::new(), max_blob_size).unwrap();
    HashStoreBackend::new(HashIndex::new(), store).unwrap()
}

fn pattern(len: usize) -> Vec<u8> {
    (0..len).map(|i| ((i * 7 + 3) % 251) as u8).collect()
}

/// Bytes without a period, from a small generator.
fn noise(len: usize, seed: u64) -> Vec<u8> {
    let mut state: u64 = seed | 1;
    (0..len)
        .map(|_| {
            state ^= state << 13;
            state ^= state >> 7;
            state ^= state << 17;
            (state >> 24) as u8
        })
        .collect()
}

fn stored_bytes(backend: &MemoryBackend) -> usize {
    let mut names = backend.list().unwrap();
    names.sort();
    names.dedup();
    names.iter().map(|n| backend.get(n).unwrap().unwrap().len()).sum()
}

fn child(text: &[u8], offset: u64) -> HashRef {
    HashRef {
        hash: hash(text),
        persistent_ref: ChunkRef { blob_name: name(3), offset, length: 11, kind: Kind::TreeLeaf },
    }
}

#[test]
fn the_fingerprint_rolls_byte_by_byte() {
    assert_eq!(roll_byte(0, 0), 1);
    assert_eq!(roll_byte(1, 1), 33);
    assert_eq!(roll_byte(33, 255), 1279);
    // It wraps at 32 bits.
    assert_eq!(roll_byte(0xffff_ffff, 0), (0xffff_ffffu64 * 31 + 1) % 0x1_0000_0000);
}

#[test]
fn a_short_stream_is_one_chunk() {
    let data = pattern(MIN_CHUNK - 1);
    assert_eq!(chunk_end(&data, 0), MIN_CHUNK - 1);
    assert_eq!(chunk_end(&data, 1000), MIN_CHUNK - 1);
    assert_eq!(chunk_end(&[5], 0), 1);
}

#[test]
fn chunks_are_cut_where_the_fingerprint_says() {
    let data = pattern(200000);
    assert_eq!(chunk_end(&data, 0), 2177);
    assert_eq!(chunk_end(&data, 2177), 67713);
    assert_eq!(chunk_end(&data, 67713), 133249);
    assert_eq!(chunk_end(&data, 133249), 135147);
    assert_eq!(chunk_end(&data, 135147), 136978);
}

#[test]
fn no_chunk_is_longer_than_the_largest_size() {
    let zeros = vec![0u8; 70000];
    assert_eq!(chunk_end(&zeros, 0), MAX_CHUNK);
    assert_eq!(chunk_end(&zeros, MAX_CHUNK), 70000);
}

#[test]
fn the_children_of_a_branch_round_trip_through_its_bytes() {
    let children = vec![child(b"a", 0), child(b"b", 11), child(b"c", 22)];
    let bytes = encode_children(&children);
    // Each child: 8 + 64 bytes of hash, 8 + 8 bytes of name, 17 bytes of numbers and kind.
    assert_eq!(bytes.len(), 3 * 105);
    assert_eq!(&bytes[..8], &[64, 0, 0, 0, 0, 0, 0, 0]);
    assert_eq!(&bytes[8..72], &hash(b"a").bytes[..]);
    assert_eq!(decode_children(&bytes), Ok(children));
    assert_eq!(encode_children(&vec![]), Vec::<u8>::new());
    assert_eq!(decode_children(&[]), Ok(vec![]));
}

#[test]
fn bytes_that_are_no_children_are_rejected() {
    let bytes = encode_children(&vec![child(b"a", 0)]);
    assert_eq!(decode_children(&bytes[..bytes.len() - 1]), Err(HatError::Serialization));
    assert_eq!(decode_children(&bytes[..10]), Err(HatError::Serialization));
    let mut longer = bytes.clone();
    longer.push(0);
    assert_eq!(decode_children(&longer), Err(HatError::Serialization));
    let mut no_hash = bytes.clone();
    no_hash[0] = 0;
    assert_eq!(decode_children(&no_hash), Err(HatError::Serialization));
    let mut bad_kind = bytes.clone();
    bad_kind[104] = 7;
    assert_eq!(decode_children(&bad_kind), Err(HatError::Serialization));
    assert_eq!(decode_children(b"hello, this is a leaf"), Err(HatError::Serialization));
}

#[test]
fn the_payload_tells_height_and_length() {
    let payload = encode_payload(2, 70000);
    assert_eq!(payload, vec![2, 0, 0, 0, 0, 0, 0, 0, 0x70, 0x11, 0x01, 0, 0, 0, 0, 0]);
    assert_eq!(decode_payload(&payload), Some((2, 70000)));
    assert_eq!(decode_payload(&payload[..15]), None);
    assert_eq!(decode_payload(&[]), None);
}

#[test]
fn what_is_written_is_read_back() {
    let lengths: [usize; 7] = [0, 1, 1023, 1024, 2177, 70000, 200000];
    for len in lengths.iter() {
        let data = noise(*len, 99);
        let mut service = service(64 * 1024);
        let root = write_tree(&mut service, &data).unwrap();
        assert_eq!(decode_payload(&root.payload), Some((1, *len as u64)));
        assert_eq!(read_tree(&mut service, &root), Ok(Some(data.clone())));
        // And after everything has been written to the backend.
        service.flush().unwrap();
        assert_eq!(read_tree(&mut service, &root), Ok(Some(data)));
    }
}

#[test]
fn the_empty_stream_is_a_root_without_leaves() {
    let mut service = service(100);
    let root = write_tree(&mut service, &[]).unwrap();
    assert_eq!(root.hash, hash(b""));
    assert_eq!(root.persistent_ref.length, 0);
    assert_eq!(root.persistent_ref.kind, Kind::TreeBranch);
    assert_eq!(decode_payload(&root.payload), Some((1, 0)));
    assert_eq!(service.hash_index_ref().len(), 1);
    assert_eq!(read_tree(&mut service, &root), Ok(Some(vec![])));
    // Writing it again gives the same root.
    assert_eq!(write_tree(&mut service, &[]), Ok(root));
}

#[test]
fn the_root_is_stored_with_its_payload() {
    let mut service = service(100);
    let root = write_tree(&mut service, b"some bytes").unwrap();
    service.flush().unwrap();
    assert_eq!(service.fetch_payload(&root.hash), Some(root.payload.clone()));
    assert_eq!(
        service.fetch_persistent_ref(&root.hash),
        Ok(Some(root.persistent_ref.clone()))
    );
}

#[test]
fn a_low_fanout_gives_a_high_tree() {
    let mut service = service(1000);
    let mut writer = TreeWriter::with_fanout(2);
    let mut all: Vec<u8> = vec![];
    for i in 0..9u8 {
        let chunk = vec![i; (i as usize) + 1];
        all.extend_from_slice(&chunk);
        writer.append(&mut service, chunk).unwrap();
    }
    let root = writer.finish(&mut service).unwrap();
    assert_eq!(decode_payload(&root.payload), Some((4, 45)));
    assert_eq!(read_tree(&mut service, &root), Ok(Some(all.clone())));
    // 9 leaves; 4 branches of level 1, 3 of level 2, 3 of level 3; and the root.
    assert_eq!(service.hash_index_ref().len(), 9 + 4 + 3 + 3 + 1);

    // The writer is ready for the next stream.
    writer.append(&mut service, vec![42]).unwrap();
    let next = writer.finish(&mut service).unwrap();
    assert_eq!(decode_payload(&next.payload), Some((1, 1)));
    assert_eq!(read_tree(&mut service, &next), Ok(Some(vec![42])));
    assert_eq!(read_tree(&mut service, &root), Ok(Some(all)));
}

#[test]
fn a_fanout_below_two_is_taken_as_two() {
    let mut service = service(1000);
    let mut low = TreeWriter::with_fanout(0);
    let mut two = TreeWriter::with_fanout(2);
    for i in 0..5u8 {
        low.append(&mut service, vec![i]).unwrap();
        two.append(&mut service, vec![i]).unwrap();
    }
    let a = low.finish(&mut service).unwrap();
    let b = two.finish(&mut service).unwrap();
    assert_eq!(a, b);
    assert_eq!(DEFAULT_FANOUT, 256);
}

#[test]
fn more_leaves_than_the_fanout_make_a_second_level() {
    let mut service = service(1 << 20);
    let mut writer = TreeWriter::new();
    let mut all: Vec<u8> = vec![];
    for i in 0..600u32 {
        let chunk = i.to_le_bytes().to_vec();
        all.extend_from_slice(&chunk);
        writer.append(&mut service, chunk).unwrap();
    }
    let root = writer.finish(&mut service).unwrap();
    assert_eq!(decode_payload(&root.payload), Some((2, 2400)));
    assert_eq!(read_tree(&mut service, &root), Ok(Some(all)));
    // 600 leaves, three branches of level 1, and the root.
    assert_eq!(service.hash_index_ref().len(), 600 + 3 + 1);
}

#[test]
fn equal_files_are_stored_once() {
    let file = noise(1024 * 1024, 2014);
    let mut service = service(hat::layout::MAX_BLOB_SIZE);
    let first = write_tree(&mut service, &file).unwrap();
    service.flush().unwrap();
    let entries = service.hash_index_ref().len();
    let bytes = stored_bytes(service.blob_store_ref().backend_ref());
    assert!(bytes >= file.len());

    // The same bytes under another path.
    let second = write_tree(&mut service, &file).unwrap();
    service.flush().unwrap();
    assert_eq!(second, first);
    assert_eq!(service.hash_index_ref().len(), entries);
    assert_eq!(stored_bytes(service.blob_store_ref().backend_ref()), bytes);
    assert!(service.hash_index_ref().is_settled());
    assert_eq!(read_tree(&mut service, &second), Ok(Some(file)));
}

#[test]
fn an_unchanged_file_causes_no_write_in_the_next_snapshot() {
    let file = pattern(300000);
    let mut service = service(64 * 1024);
    let first = write_tree(&mut service, &file).unwrap();
    service.flush().unwrap();
    let mut names = service.blob_store_ref().backend_ref().list().unwrap();
    names.sort();
    names.dedup();

    let second = write_tree(&mut service, &file).unwrap();
    assert_eq!(second, first);
    assert_eq!(service.blob_store_ref().pending_count(), 0);
    let mut after = service.blob_store_ref().backend_ref().list().unwrap();
    after.sort();
    after.dedup();
    assert_eq!(after, names);
}

#[test]
fn a_damaged_blob_is_noticed() {
    let file = noise(150000, 7);
    let mut service = service(32 * 1024);
    let root = write_tree(&mut service, &file).unwrap();
    service.flush().unwrap();
    assert_eq!(read_tree(&mut service, &root), Ok(Some(file.clone())));

    // One byte of one blob changes behind the back of the engine.
    let (index, store) = service.into_parts();
    let backend = store.into_backend();
    let mut damaged = MemoryBackend::new();
    let mut names = backend.list().unwrap();
    names.sort();
    names.dedup();
    for blob in names.iter() {
        let mut bytes = backend.get(blob).unwrap().unwrap();
        if *blob == name(1) {
            bytes[100] ^= 0x01;
        }
        damaged.put(blob, &bytes).unwrap();
    }
    let store = BlobStore::new(damaged, 32 * 1024).unwrap();
    let mut service = HashStoreBackend::new(index.recovered(), store).unwrap();
    // The file cannot be recovered, and no mangled bytes are handed out.
    assert_eq!(read_tree(&mut service, &root), Ok(None));
}

#[test]
fn a_missing_chunk_makes_the_tree_unreadable() {
    let mut service = service(1000);
    let root = write_tree(&mut service, b"some bytes").unwrap();
    let elsewhere = TreeRoot {
        hash: root.hash.clone(),
        persistent_ref: ChunkRef { blob_name: name(9), ..root.persistent_ref.clone() },
        payload: root.payload.clone(),
    };
    assert_eq!(read_tree(&mut service, &elsewhere), Ok(None));
    let too_high = TreeRoot {
        hash: root.hash.clone(),
        persistent_ref: root.persistent_ref.clone(),
        payload: encode_payload(2, 10),
    };
    assert_eq!(read_tree(&mut service, &too_high), Ok(None));
}

#[test]
fn a_root_with_a_malformed_payload_is_rejected() {
    let mut service = service(1000);
    let root = write_tree(&mut service, b"some bytes").unwrap();
    let bad = TreeRoot {
        hash: root.hash.clone(),
        persistent_ref: root.persistent_ref.clone(),
        payload: vec![1, 2, 3],
    };
    assert_eq!(read_tree(&mut service, &bad), Err(HatError::Serialization));
}

#[test]
fn a_leaf_is_read_as_its_chunk() {
    let mut service = service(1000);
    let h = hash(b"leaf bytes");
    let r = service.insert_chunk(&h, 0, None, b"leaf bytes".to_vec()).unwrap();
    let node = HashRef { hash: h, persistent_ref: r };
    assert_eq!(read_node(&mut service, &node, 0), Ok(Some(b"leaf bytes".to_vec())));
    // As a branch it is no list of children.
    assert_eq!(read_node(&mut service, &node, 1), Ok(None));
}
