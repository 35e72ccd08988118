use hat::blob::{ChunkRef, Kind};
use hat::errors::HatError;
use hat::key::{Entry, KeyIndex, Row};

fn entry(parent: Option<u64>, name: &[u8]) -> Entry {
    Entry {
        id: None,
        parent_id: parent,
        name: name.to_vec(),
        created: Some(10),
        modified: Some(20),
        accessed: Some(30),
        permissions: Some(0o644),
        user_id: Some(1000),
        group_id: Some(100),
        data_hash: None,
        data_length: None,
    }
}

fn row(id: u64, parent: Option<u64>, name: &[u8]) -> Row {
    Row {
        id,
        parent,
        name: name.to_vec(),
        created: None,
        modified: None,
        accessed: None,
        permissions: None,
        user_id: None,
        group_id: None,
        hash: None,
        persistent_ref: None,
    }
}

fn chunk_ref(offset: u64) -> ChunkRef {
    ChunkRef { blob_name: vec![0; 8], offset, length: 5, kind: Kind::TreeBranch }
}

#[test]
fn a_new_index_is_empty() {
    let index = KeyIndex::new("keys.sqlite3").unwrap();
    assert_eq!(index.location(), "keys.sqlite3");
    assert!(index.saved_rows().is_empty());
    assert_eq!(index.list_dir(None), Ok(vec![]));
    assert_eq!(index.lookup(None, b"a".to_vec()), Ok(None));
}

#[test]
fn the_index_for_testing_is_kept_in_memory() {
    let index = KeyIndex::new_for_testing().unwrap();
    assert_eq!(index.location(), ":memory:");
}

#[test]
fn insert_gives_out_ids_from_one_upwards() {
    let mut index = KeyIndex::new_for_testing().unwrap();
    let a = index.insert(entry(None, b"a")).unwrap();
    let b = index.insert(entry(None, b"b")).unwrap();
    let c = index.insert(entry(a.id, b"c")).unwrap();
    assert_eq!(a.id, Some(1));
    assert_eq!(b.id, Some(2));
    assert_eq!(c.id, Some(3));
    assert_eq!(a, Entry { id: Some(1), ..entry(None, b"a") });
}

#[test]
fn lookup_finds_an_entry_by_parent_and_name() {
    let mut index = KeyIndex::new_for_testing().unwrap();
    let dir = index.insert(entry(None, b"dir")).unwrap();
    index.insert(entry(dir.id, b"file")).unwrap();
    index.insert(entry(None, b"file")).unwrap();

    let found = index.lookup(dir.id, b"file".to_vec()).unwrap().unwrap();
    assert_eq!(found, Entry { id: Some(2), ..entry(dir.id, b"file") });
    let top = index.lookup(None, b"file".to_vec()).unwrap().unwrap();
    assert_eq!(top.id, Some(3));
    assert_eq!(index.lookup(Some(3), b"file".to_vec()), Ok(None));
    assert_eq!(index.lookup(None, b"fil".to_vec()), Ok(None));
}

#[test]
fn lookup_takes_the_first_of_two_equal_keys() {
    let mut index = KeyIndex::new_for_testing().unwrap();
    index.insert(entry(None, b"twin")).unwrap();
    index.insert(Entry { created: Some(99), ..entry(None, b"twin") }).unwrap();
    let found = index.lookup(None, b"twin".to_vec()).unwrap().unwrap();
    assert_eq!(found.id, Some(1));
    assert_eq!(found.created, Some(10));
}

#[test]
fn insert_with_an_id_replaces_parent_name_and_times_only() {
    let mut index = KeyIndex::new_for_testing().unwrap();
    let first = index.insert(entry(None, b"old")).unwrap();
    let changed = Entry {
        id: first.id,
        parent_id: Some(7),
        name: b"new".to_vec(),
        created: Some(11),
        modified: Some(21),
        accessed: Some(31),
        permissions: Some(0o600),
        user_id: Some(1),
        group_id: Some(2),
        data_hash: None,
        data_length: None,
    };
    assert_eq!(index.insert(changed.clone()), Ok(changed));
    assert_eq!(index.lookup(None, b"old".to_vec()), Ok(None));
    let found = index.lookup(Some(7), b"new".to_vec()).unwrap().unwrap();
    assert_eq!(found.id, Some(1));
    assert_eq!(found.created, Some(11));
    assert_eq!(found.modified, Some(21));
    assert_eq!(found.accessed, Some(31));
    // Ownership and permissions stay as they were inserted.
    assert_eq!(found.permissions, Some(0o644));
    assert_eq!(found.user_id, Some(1000));
    assert_eq!(found.group_id, Some(100));
}

#[test]
fn insert_with_an_unknown_id_changes_nothing() {
    let mut index = KeyIndex::new_for_testing().unwrap();
    index.insert(entry(None, b"a")).unwrap();
    let ghost = Entry { id: Some(42), ..entry(None, b"ghost") };
    assert_eq!(index.insert(ghost.clone()), Ok(ghost));
    assert_eq!(index.lookup(None, b"ghost".to_vec()), Ok(None));
    assert_eq!(index.list_dir(None).unwrap().len(), 1);
    // The next new row still gets the next id.
    assert_eq!(index.insert(entry(None, b"b")).unwrap().id, Some(2));
}

#[test]
fn update_data_hash_without_a_time_always_applies() {
    let mut index = KeyIndex::new_for_testing().unwrap();
    let e = index.insert(entry(None, b"f")).unwrap();
    let hash = hat::hash::Hash::new(b"content");
    index.update_data_hash(1, None, Some(hash.clone()), Some(chunk_ref(3))).unwrap();
    let listing = index.list_dir(None).unwrap();
    assert_eq!(listing.len(), 1);
    assert_eq!(listing[0].0, Entry { data_hash: Some(hash.bytes.clone()), ..e });
    assert_eq!(listing[0].1, Some(chunk_ref(3)));
    // Without hash and reference the row is cleared again.
    index.update_data_hash(1, None, None, None).unwrap();
    let listing = index.list_dir(None).unwrap();
    assert_eq!(listing[0].0.data_hash, None);
    assert_eq!(listing[0].1, None);
}

#[test]
fn update_data_hash_applies_only_to_rows_not_modified_later() {
    let mut index = KeyIndex::new_for_testing().unwrap();
    index.insert(entry(None, b"f")).unwrap(); // modified at 20
    let hash = hat::hash::Hash::new(b"content");

    // The row was modified after 19: it stays as it is.
    index.update_data_hash(1, Some(19), Some(hash.clone()), Some(chunk_ref(1))).unwrap();
    let found = index.lookup(None, b"f".to_vec()).unwrap().unwrap();
    assert_eq!(found.data_hash, None);
    assert_eq!(index.list_dir(None).unwrap()[0].1, None);

    // Modified at 20, which is not later than 20: the row is updated.
    index.update_data_hash(1, Some(20), Some(hash.clone()), Some(chunk_ref(2))).unwrap();
    let found = index.lookup(None, b"f".to_vec()).unwrap().unwrap();
    assert_eq!(found.data_hash, Some(hash.bytes.clone()));
    assert_eq!(index.list_dir(None).unwrap()[0].1, Some(chunk_ref(2)));

    // Later times apply too.
    index.update_data_hash(1, Some(1000), Some(hash.clone()), Some(chunk_ref(3))).unwrap();
    assert_eq!(index.list_dir(None).unwrap()[0].1, Some(chunk_ref(3)));
}

#[test]
fn update_data_hash_applies_to_rows_without_modification_time() {
    let mut index = KeyIndex::new_for_testing().unwrap();
    index.insert(Entry { modified: None, ..entry(None, b"f") }).unwrap();
    let hash = hat::hash::Hash::new(b"content");
    index.update_data_hash(1, Some(i64::MIN), Some(hash.clone()), Some(chunk_ref(1))).unwrap();
    assert_eq!(index.list_dir(None).unwrap()[0].1, Some(chunk_ref(1)));
}

#[test]
fn update_data_hash_touches_no_other_row() {
    let mut index = KeyIndex::new_for_testing().unwrap();
    index.insert(entry(None, b"a")).unwrap();
    index.insert(entry(None, b"b")).unwrap();
    let hash = hat::hash::Hash::new(b"content");
    index.update_data_hash(2, None, Some(hash.clone()), Some(chunk_ref(1))).unwrap();
    index.update_data_hash(9, None, Some(hash.clone()), Some(chunk_ref(2))).unwrap();
    let listing = index.list_dir(None).unwrap();
    assert_eq!(listing[0].1, None);
    assert_eq!(listing[0].0.data_hash, None);
    assert_eq!(listing[1].1, Some(chunk_ref(1)));
}

#[test]
fn an_unchanged_file_keeps_its_row_in_the_next_snapshot() {
    // First snapshot: the file, modified at T1 = 20, gets its data hash.
    let mut index = KeyIndex::new_for_testing().unwrap();
    index.insert(entry(None, b"f")).unwrap();
    let hash = hat::hash::Hash::new(b"content");
    index.update_data_hash(1, Some(20), Some(hash.clone()), Some(chunk_ref(4))).unwrap();
    let before = index.list_dir(None).unwrap();
    // Second snapshot: same content, same time, hence the same hash and reference.
    index.update_data_hash(1, Some(20), Some(hash.clone()), Some(chunk_ref(4))).unwrap();
    assert_eq!(index.list_dir(None).unwrap(), before);
}

#[test]
fn list_dir_lists_the_children_of_a_parent_in_order() {
    let mut index = KeyIndex::new_for_testing().unwrap();
    let dir = index.insert(entry(None, b"dir")).unwrap();
    index.insert(entry(dir.id, b"one")).unwrap();
    index.insert(entry(None, b"other")).unwrap();
    index.insert(entry(dir.id, b"two")).unwrap();

    let inside = index.list_dir(dir.id).unwrap();
    assert_eq!(inside.len(), 2);
    assert_eq!(inside[0].0, Entry { id: Some(2), ..entry(dir.id, b"one") });
    assert_eq!(inside[1].0, Entry { id: Some(4), ..entry(dir.id, b"two") });
    let top = index.list_dir(None).unwrap();
    assert_eq!(top.len(), 2);
    assert_eq!(top[0].0.name, b"dir".to_vec());
    assert_eq!(top[1].0.name, b"other".to_vec());
    assert_eq!(index.list_dir(Some(99)), Ok(vec![]));
}

#[test]
fn list_dir_reports_a_reference_that_cannot_be_read() {
    let mut broken = row(2, Some(1), b"broken");
    broken.persistent_ref = Some(vec![1, 2, 3]);
    let rows = vec![row(1, None, b"dir"), broken];
    let index = KeyIndex::restore(":memory:", rows).unwrap();
    assert_eq!(index.list_dir(Some(1)), Err(HatError::Serialization));
    // Other directories are not affected.
    assert_eq!(index.list_dir(None).unwrap().len(), 1);
}

#[test]
fn flush_saves_the_working_table() {
    let mut index = KeyIndex::new_for_testing().unwrap();
    index.insert(entry(None, b"a")).unwrap();
    assert!(index.saved_rows().is_empty());
    assert_eq!(index.flush(), Ok(()));
    assert_eq!(index.saved_rows().len(), 1);
    assert_eq!(index.saved_rows()[0].id, 1);
    assert_eq!(index.saved_rows()[0].name, b"a".to_vec());
    index.insert(entry(None, b"b")).unwrap();
    assert_eq!(index.saved_rows().len(), 1);
}

#[test]
fn update_data_hash_flushes_when_the_timer_is_due() {
    let mut index = KeyIndex::new_for_testing().unwrap();
    index.insert(entry(None, b"a")).unwrap();
    // The clock has not moved on: nothing is saved.
    index.update_data_hash_at(1, None, None, None, 0).unwrap();
    assert!(index.saved_rows().is_empty());
    // Long after the interval has passed.
    index.update_data_hash_at(1, None, None, None, u64::MAX).unwrap();
    assert_eq!(index.saved_rows().len(), 1);
}

#[test]
fn a_saved_table_can_be_restored() {
    let mut index = KeyIndex::new_for_testing().unwrap();
    index.insert(entry(None, b"a")).unwrap();
    index.insert(entry(Some(1), b"b")).unwrap();
    index.flush().unwrap();
    let rows: Vec<Row> = index.saved_rows().clone();

    let mut again = KeyIndex::restore("again", rows).unwrap();
    assert_eq!(again.location(), "again");
    assert_eq!(again.lookup(Some(1), b"b".to_vec()).unwrap().unwrap().id, Some(2));
    assert_eq!(again.saved_rows().len(), 2);
    assert_eq!(again.insert(entry(None, b"c")).unwrap().id, Some(3));
}

#[test]
fn restore_rejects_a_table_with_disordered_ids() {
    assert_eq!(
        KeyIndex::restore(":memory:", vec![row(2, None, b"a"), row(1, None, b"b")]).err(),
        Some(HatError::Serialization)
    );
    assert_eq!(
        KeyIndex::restore(":memory:", vec![row(1, None, b"a"), row(1, None, b"b")]).err(),
        Some(HatError::Serialization)
    );
    assert_eq!(
        KeyIndex::restore(":memory:", vec![row(0, None, b"a")]).err(),
        Some(HatError::Serialization)
    );
    assert_eq!(
        KeyIndex::restore(":memory:", vec![row(u64::MAX, None, b"a")]).err(),
        Some(HatError::Serialization)
    );
}

#[test]
fn insert_fails_when_the_last_id_is_taken() {
    let last: u64 = hat::key::index::MAX_ROW_ID;
    let mut index = KeyIndex::restore(":memory:", vec![row(last, None, b"last")]).unwrap();
    assert_eq!(index.insert(entry(None, b"more")), Err(HatError::Storage));
    assert_eq!(index.list_dir(None).unwrap().len(), 1);
    // Replacing an existing row still works.
    let replaced = Entry { id: Some(last), ..entry(None, b"renamed") };
    assert_eq!(index.insert(replaced.clone()), Ok(replaced));
}

#[test]
fn an_empty_directory_has_no_children() {
    let mut index = KeyIndex::new_for_testing().unwrap();
    let empty = index.insert(entry(None, b"empty")).unwrap();
    assert_eq!(index.list_dir(empty.id), Ok(vec![]));
    // The directory itself is there, without data.
    let top = index.list_dir(None).unwrap();
    assert_eq!(top.len(), 1);
    assert_eq!(top[0].0.name, b"empty".to_vec());
    assert_eq!(top[0].0.data_hash, None);
    assert_eq!(top[0].1, None);
}

#[test]
fn maybe_flush_saves_or_leaves_the_saved_table() {
    let mut index = hat::key::InternalKeyIndex::new(":memory:");
    index.insert(entry(None, b"a")).unwrap();
    // Right after the index was made its timer is not due.
    assert_eq!(index.maybe_flush_at(0), Ok(()));
    assert!(index.saved_rows().is_empty());
    assert_eq!(index.maybe_flush(), Ok(()));
    assert!(index.saved_rows().is_empty());
    // Long after the interval has passed it is.
    assert_eq!(index.maybe_flush_at(u64::MAX), Ok(()));
    assert_eq!(index.saved_rows().len(), 1);
}

#[test]
fn the_index_tells_when_its_saved_table_is_due_to_be_written() {
    let mut index = KeyIndex::new_for_testing().unwrap();
    assert!(!index.needs_write());
    index.insert(entry(None, b"a")).unwrap();
    assert!(!index.needs_write());
    // An update while the timer is not due saves nothing.
    index.update_data_hash_at(1, None, None, None, 0).unwrap();
    assert!(!index.needs_write());
    // An update when the timer is due saves the table.
    index.update_data_hash_at(1, None, None, None, u64::MAX).unwrap();
    assert!(index.needs_write());
    assert_eq!(index.saved_rows().len(), 1);
    index.mark_written();
    assert!(!index.needs_write());
    assert_eq!(index.saved_rows().len(), 1);
    index.flush().unwrap();
    assert!(index.needs_write());
}

#[test]
fn ids_are_never_given_out_twice() {
    let mut index = KeyIndex::new_for_testing().unwrap();
    let mut ids: Vec<u64> = vec![];
    for name in [b"a", b"b", b"c", b"d"].iter() {
        ids.push(index.insert(entry(None, &name[..])).unwrap().id.unwrap());
    }
    assert_eq!(ids, vec![1, 2, 3, 4]);
    let listed: Vec<u64> = index.list_dir(None).unwrap().iter().map(|e| e.0.id.unwrap()).collect();
    assert_eq!(listed, vec![1, 2, 3, 4]);
}
