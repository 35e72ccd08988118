use hat::blob::{ChunkRef, Kind};
use hat::errors::{HatError, RetryError};
use hat::hash::{Entry, HashIndex, ReserveResult};

fn hash(text: &[u8]) -> hat::hash::Hash {
    hat::hash::Hash::new(text)
}

fn entry(text: &[u8]) -> Entry {
    Entry { hash: hash(text), level: 0, payload: None, persistent_ref: None }
}

fn chunk_ref(offset: u64) -> ChunkRef {
    ChunkRef { blob_name: vec![0; 8], offset, length: 5, kind: Kind::TreeLeaf }
}

#[test]
fn an_unknown_hash_is_reserved_and_then_known() {
    let mut index = HashIndex::new();
    assert_eq!(index.len(), 0);
    assert_eq!(index.reserve(&entry(b"a")), ReserveResult::ReserveOk(0));
    assert_eq!(index.reserve(&entry(b"b")), ReserveResult::ReserveOk(1));
    assert_eq!(index.len(), 2);
    // Whoever comes second is told that the hash is known.
    assert_eq!(index.reserve(&entry(b"a")), ReserveResult::HashKnown(entry(b"a")));
    assert_eq!(index.len(), 2);
}

#[test]
fn a_known_hash_keeps_the_entry_of_the_first_reservation() {
    let mut index = HashIndex::new();
    let first = Entry { level: 3, payload: Some(vec![7]), ..entry(b"a") };
    index.reserve(&first);
    let second = Entry { level: 0, payload: None, ..entry(b"a") };
    assert_eq!(index.reserve(&second), ReserveResult::HashKnown(first));
}

#[test]
fn the_reference_is_handed_out_once_the_hash_is_committed() {
    let mut index = HashIndex::new();
    let h = hash(b"a");
    assert_eq!(index.fetch_persistent_ref(&h), Ok(None));
    index.reserve(&entry(b"a"));
    assert_eq!(index.fetch_persistent_ref(&h), Err(RetryError));
    index.commit(&h, chunk_ref(1));
    assert_eq!(index.fetch_persistent_ref(&h), Ok(Some(chunk_ref(1))));
}

#[test]
fn a_recorded_reference_does_not_commit_the_hash() {
    let mut index = HashIndex::new();
    let h = hash(b"a");
    index.reserve(&entry(b"a"));
    index.update_reserved(Entry { persistent_ref: Some(chunk_ref(1)), ..entry(b"a") });
    assert_eq!(index.fetch_persistent_ref(&h), Err(RetryError));
    assert_eq!(
        index.reserve(&entry(b"a")),
        ReserveResult::HashKnown(Entry { persistent_ref: Some(chunk_ref(1)), ..entry(b"a") })
    );
    assert!(!index.is_settled());
}

#[test]
fn update_reserved_leaves_unknown_and_committed_hashes_alone() {
    let mut index = HashIndex::new();
    index.update_reserved(Entry { persistent_ref: Some(chunk_ref(1)), ..entry(b"unknown") });
    assert_eq!(index.len(), 0);
    let h = hash(b"a");
    index.reserve(&entry(b"a"));
    index.commit(&h, chunk_ref(1));
    index.update_reserved(Entry { level: 9, persistent_ref: Some(chunk_ref(2)), ..entry(b"a") });
    assert_eq!(index.fetch_persistent_ref(&h), Ok(Some(chunk_ref(1))));
}

#[test]
fn a_second_commit_with_the_same_reference_changes_nothing() {
    let mut index = HashIndex::new();
    let h = hash(b"a");
    index.reserve(&entry(b"a"));
    index.commit(&h, chunk_ref(1));
    index.commit(&h, chunk_ref(1));
    assert_eq!(index.fetch_persistent_ref(&h), Ok(Some(chunk_ref(1))));
    assert_eq!(index.len(), 1);
    assert!(index.is_settled());
}

#[test]
fn the_payload_is_handed_out_once_the_hash_is_committed() {
    let mut index = HashIndex::new();
    let with = Entry { payload: Some(vec![1, 2]), ..entry(b"with") };
    index.reserve(&with);
    index.reserve(&entry(b"without"));
    assert_eq!(index.fetch_payload(&hash(b"with")), None);
    assert_eq!(index.fetch_payload(&hash(b"unknown")), None);
    index.commit(&hash(b"with"), chunk_ref(1));
    index.commit(&hash(b"without"), chunk_ref(2));
    assert_eq!(index.fetch_payload(&hash(b"with")), Some(Some(vec![1, 2])));
    assert_eq!(index.fetch_payload(&hash(b"without")), Some(None));
}

#[test]
fn a_restart_leaves_the_committed_entries_only() {
    let mut index = HashIndex::new();
    index.reserve(&entry(b"committed"));
    index.commit(&hash(b"committed"), chunk_ref(1));
    index.reserve(&entry(b"reserved"));
    index.update_reserved(Entry { persistent_ref: Some(chunk_ref(2)), ..entry(b"reserved") });

    let mut after = index.recovered();
    assert_eq!(after.len(), 1);
    assert!(after.is_settled());
    assert_eq!(after.fetch_persistent_ref(&hash(b"committed")), Ok(Some(chunk_ref(1))));
    assert_eq!(after.fetch_persistent_ref(&hash(b"reserved")), Ok(None));
    // The hash can be reserved anew.
    assert_eq!(after.reserve(&entry(b"reserved")), ReserveResult::ReserveOk(1));
}

#[test]
fn the_entries_come_in_the_order_of_reservation() {
    let mut index = HashIndex::new();
    index.reserve(&entry(b"a"));
    index.reserve(&Entry { level: 2, payload: Some(vec![5]), ..entry(b"b") });
    index.commit(&hash(b"b"), chunk_ref(9));
    let entries = index.entries();
    assert_eq!(
        entries,
        vec![
            (entry(b"a"), false),
            (
                Entry {
                    level: 2,
                    payload: Some(vec![5]),
                    persistent_ref: Some(chunk_ref(9)),
                    ..entry(b"b")
                },
                true
            ),
        ]
    );
}

#[test]
fn saved_entries_can_be_restored() {
    let saved = vec![
        Entry { persistent_ref: Some(chunk_ref(1)), ..entry(b"a") },
        Entry { level: 1, payload: Some(vec![3]), persistent_ref: Some(chunk_ref(2)), ..entry(b"b") },
    ];
    let index = HashIndex::restore(saved).unwrap();
    assert_eq!(index.len(), 2);
    assert!(index.is_settled());
    assert_eq!(index.fetch_persistent_ref(&hash(b"a")), Ok(Some(chunk_ref(1))));
    assert_eq!(index.fetch_persistent_ref(&hash(b"b")), Ok(Some(chunk_ref(2))));
    assert_eq!(index.fetch_payload(&hash(b"b")), Some(Some(vec![3])));
}

#[test]
fn restore_rejects_an_entry_without_reference() {
    let saved = vec![Entry { persistent_ref: Some(chunk_ref(1)), ..entry(b"a") }, entry(b"b")];
    assert_eq!(HashIndex::restore(saved).err(), Some(HatError::Serialization));
}

#[test]
fn restore_rejects_a_hash_that_occurs_twice() {
    let saved = vec![
        Entry { persistent_ref: Some(chunk_ref(1)), ..entry(b"a") },
        Entry { persistent_ref: Some(chunk_ref(2)), ..entry(b"a") },
    ];
    assert_eq!(HashIndex::restore(saved).err(), Some(HatError::Serialization));
}
