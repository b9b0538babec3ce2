use note_store::codec::decode_fields;
use note_store::codec::encode_fields;
use note_store::file_store::DirCreation;
use note_store::file_store::FileBasedNote;
use note_store::file_store::FileBasedNoteKey;
use note_store::file_store::FileStore;
use note_store::memory_store::MemoryBasedNote;
use note_store::memory_store::MemoryStore;
use note_store::server::ServerData;
use note_store::store::Note;
use note_store::store::StorageError;

fn empty_store() -> FileStore {
    FileStore::new("store", DirCreation::Created, Vec::new()).unwrap()
}

fn key_count(store: &FileStore, key: &FileBasedNoteKey) -> usize {
    store
        .list_keys()
        .iter()
        .filter(|k| k.as_text() == key.as_text())
        .count()
}

#[test]
fn round_trip_save_get() {
    let mut store = empty_store();
    let note = FileBasedNote::new("w1", "T", "B");
    let key = store.save(&note).unwrap();
    let fetched = store.get(&key).expect("saved note must be fetchable");
    assert_eq!(fetched.get_workspace(), "w1");
    assert_eq!(fetched.get_title(), "T");
    assert_eq!(fetched.get_body(), "B");
    assert_eq!(fetched.get_key().as_text(), key.as_text());
}

#[test]
fn saved_key_listed_exactly_once() {
    let mut store = empty_store();
    let note = FileBasedNote::new("w", "t", "b");
    let key = store.save(&note).unwrap();
    assert_eq!(key_count(&store, &key), 1);
    // overwriting does not duplicate the key
    store.save(&note).unwrap();
    assert_eq!(key_count(&store, &key), 1);
}

#[test]
fn delete_removes_key() {
    let mut store = empty_store();
    let note = FileBasedNote::new("w", "t", "b");
    let key = store.save(&note).unwrap();
    assert!(store.delete(&key).is_ok());
    assert!(store.get(&key).is_none());
    assert_eq!(key_count(&store, &key), 0);
}

#[test]
fn delete_missing_key_is_not_found() {
    let mut store = empty_store();
    let note = FileBasedNote::new("w", "t", "b");
    let key = store.save(&note).unwrap();
    store.delete(&key).unwrap();
    assert_eq!(store.delete(&key), Err(StorageError::NotFound));
}

#[test]
fn construction_over_existing_directory_keeps_entries() {
    // first run: a note is saved and its file written out
    let mut store = empty_store();
    let note = FileBasedNote::new("w1", "kept", "body");
    let key = store.save(&note).unwrap();
    let file_name = key.as_text().to_string();
    let contents = encode_fields(key.as_text(), "w1", "kept", "body");
    // second run over the same directory: creation reports AlreadyExists
    let store2 = FileStore::new(
        "store",
        DirCreation::AlreadyExists,
        vec![(file_name, contents)],
    )
    .unwrap();
    let fetched = store2.get(&key).expect("existing entry must survive reconstruction");
    assert_eq!(fetched.get_title(), "kept");
    assert_eq!(store2.list_keys().len(), 1);
}

#[test]
fn failed_directory_creation_is_construction_error() {
    let r = FileStore::new("store", DirCreation::Failed, Vec::new());
    assert_eq!(r.err(), Some(StorageError::Construction));
}

#[test]
fn corrupt_file_reads_as_absent() {
    let note = FileBasedNote::new("w", "t", "b");
    let key_text = note.get_key().as_text().to_string();
    let store = FileStore::new(
        "store",
        DirCreation::AlreadyExists,
        vec![(key_text, "this is not an encoded note".to_string())],
    )
    .unwrap();
    // the file name is a valid key, so it is listed ...
    let keys = store.list_keys();
    assert_eq!(keys.len(), 1);
    // ... but its contents do not parse, so the note reads as absent
    assert!(store.get(&keys[0]).is_none());
    // and enumeration of values skips it
    assert_eq!(store.list_values().len(), 0);
}

#[test]
fn non_key_file_names_are_skipped() {
    let store = FileStore::new(
        "store",
        DirCreation::AlreadyExists,
        vec![
            ("README".to_string(), "notes live here".to_string()),
            ("Not-A-Key-0000-0000-000000000000ABC".to_string(), "x".to_string()),
        ],
    )
    .unwrap();
    assert_eq!(store.list_keys().len(), 0);
}

#[test]
fn scenario_save_fetch_update_overwrite() {
    let mut store = empty_store();
    let note = FileBasedNote::new("w1", "T", "B");
    let key = store.save(&note).unwrap();
    assert_eq!(store.list_keys().len(), 1);
    let mut fetched = store.get(&key).unwrap();
    assert_eq!(fetched.get_title(), "T");
    assert_eq!(fetched.get_body(), "B");
    fetched.update_title("T2");
    let key2 = store.save(&fetched).unwrap();
    assert_eq!(key2.as_text(), key.as_text());
    let again = store.get(&key).unwrap();
    assert_eq!(again.get_title(), "T2");
    assert_eq!(store.list_keys().len(), 1);
}

#[test]
fn scenario_two_notes_delete_one() {
    let mut store = empty_store();
    let first = FileBasedNote::new("w", "first", "1");
    let second = FileBasedNote::new("w", "second", "2");
    let key1 = store.save(&first).unwrap();
    store.save(&second).unwrap();
    store.delete(&key1).unwrap();
    let values = store.list_values();
    assert_eq!(values.len(), 1);
    assert_eq!(values[0].get_title(), "second");
    assert_eq!(values[0].get_body(), "2");
}

#[test]
fn note_updates_touch_only_their_field() {
    let mut note = FileBasedNote::new("ws", "old title", "old body");
    let key_text = note.get_key().as_text().to_string();
    note.update_title("new title");
    assert_eq!(note.get_title(), "new title");
    assert_eq!(note.get_body(), "old body");
    note.update_body("new body");
    assert_eq!(note.get_body(), "new body");
    assert_eq!(note.get_title(), "new title");
    assert_eq!(note.get_workspace(), "ws");
    assert_eq!(note.get_key().as_text(), key_text);
}

#[test]
fn generated_keys_are_canonical_and_distinct() {
    let a = FileBasedNote::new("w", "t", "b");
    let b = FileBasedNote::new("w", "t", "b");
    let ta = a.get_key().as_text().to_string();
    let tb = b.get_key().as_text().to_string();
    assert!(FileBasedNoteKey::from_text(ta.clone()).is_some());
    assert!(FileBasedNoteKey::from_text(tb.clone()).is_some());
    assert_ne!(ta, tb);
}

#[test]
fn key_text_form_is_checked() {
    assert!(FileBasedNoteKey::from_text(
        "67e55044-10b1-426f-9247-bb680e5fe0c8".to_string()
    )
    .is_some());
    // wrong length
    assert!(FileBasedNoteKey::from_text("67e55044".to_string()).is_none());
    // uppercase digits are not the canonical form
    assert!(FileBasedNoteKey::from_text(
        "67E55044-10B1-426F-9247-BB680E5FE0C8".to_string()
    )
    .is_none());
    // hyphen out of place
    assert!(FileBasedNoteKey::from_text(
        "67e5504410-b1-426f-9247-bb680e5fe0c8".to_string()
    )
    .is_none());
}

#[test]
fn note_location_is_directory_slash_key() {
    let store = empty_store();
    let key = FileBasedNoteKey::from_text(
        "67e55044-10b1-426f-9247-bb680e5fe0c8".to_string(),
    )
    .unwrap();
    assert_eq!(
        store.get_note_location(&key),
        "store/67e55044-10b1-426f-9247-bb680e5fe0c8"
    );
}

#[test]
fn encoding_is_the_documented_object() {
    let encoded = encode_fields(
        "67e55044-10b1-426f-9247-bb680e5fe0c8",
        "w1",
        "T",
        "B",
    );
    assert_eq!(
        encoded,
        "{\"key\":\"67e55044-10b1-426f-9247-bb680e5fe0c8\",\"workspace\":\"w1\",\"title\":\"T\",\"body\":\"B\"}"
    );
}

#[test]
fn encoding_escapes_quotes_backslashes_and_controls() {
    let encoded = encode_fields(
        "67e55044-10b1-426f-9247-bb680e5fe0c8",
        "w",
        "a\"b\\c",
        "x\u{1}y\nz",
    );
    assert_eq!(
        encoded,
        "{\"key\":\"67e55044-10b1-426f-9247-bb680e5fe0c8\",\"workspace\":\"w\",\"title\":\"a\\\"b\\\\c\",\"body\":\"x\\u0001y\\u000az\"}"
    );
    let decoded = decode_fields(&encoded).unwrap();
    assert_eq!(decoded.2, "a\"b\\c");
    assert_eq!(decoded.3, "x\u{1}y\nz");
}

#[test]
fn decoding_accepts_exactly_the_canonical_form() {
    let good = "{\"key\":\"67e55044-10b1-426f-9247-bb680e5fe0c8\",\"workspace\":\"w\",\"title\":\"t\",\"body\":\"b\"}";
    let decoded = decode_fields(good).unwrap();
    assert_eq!(decoded.0, "67e55044-10b1-426f-9247-bb680e5fe0c8");
    assert_eq!(decoded.1, "w");
    assert_eq!(decoded.2, "t");
    assert_eq!(decoded.3, "b");
    // reordered fields are not the canonical form
    let reordered = "{\"workspace\":\"w\",\"key\":\"67e55044-10b1-426f-9247-bb680e5fe0c8\",\"title\":\"t\",\"body\":\"b\"}";
    assert!(decode_fields(reordered).is_none());
    // extra whitespace is not the canonical form
    let spaced = "{ \"key\": \"67e55044-10b1-426f-9247-bb680e5fe0c8\", \"workspace\": \"w\", \"title\": \"t\", \"body\": \"b\" }";
    assert!(decode_fields(spaced).is_none());
    // a key field that is not in canonical key form is rejected
    let bad_key = "{\"key\":\"zzz\",\"workspace\":\"w\",\"title\":\"t\",\"body\":\"b\"}";
    assert!(decode_fields(bad_key).is_none());
    // truncated payload (as a crash mid-write could leave behind)
    let truncated = &good[..good.len() - 4];
    assert!(decode_fields(truncated).is_none());
}

#[test]
fn memory_round_trip_and_minted_keys() {
    let mut store = MemoryStore::new().unwrap();
    let note = MemoryBasedNote::new("T".to_string(), "B".to_string());
    let key = store.save(&note).unwrap();
    let fetched = store.get(&key).expect("saved note must be fetchable");
    assert_eq!(fetched.get_title(), "T");
    assert_eq!(fetched.get_body(), "B");
    // the backend mints a fresh key per save
    let key2 = store.save(&note).unwrap();
    assert_ne!(key.as_text(), key2.as_text());
    assert_eq!(store.list_keys().len(), 2);
    assert_eq!(store.list_values().len(), 2);
}

#[test]
fn memory_delete_and_not_found() {
    let mut store = MemoryStore::new().unwrap();
    let note = MemoryBasedNote::new("t".to_string(), "b".to_string());
    let key = store.save(&note).unwrap();
    assert!(store.delete(&key).is_ok());
    assert!(store.get(&key).is_none());
    assert_eq!(store.list_keys().len(), 0);
    assert_eq!(store.delete(&key), Err(StorageError::NotFound));
}

#[test]
fn memory_note_updates() {
    let mut note = MemoryBasedNote::new("a".to_string(), "b".to_string());
    note.update_title("a2");
    note.update_body("b2");
    assert_eq!(note.get_title(), "a2");
    assert_eq!(note.get_body(), "b2");
    assert_eq!(note.get_workspace(), "");
}

#[test]
fn server_data_holds_the_store() {
    let mut store = empty_store();
    let note = FileBasedNote::new("w", "t", "b");
    let key = store.save(&note).unwrap();
    let data = ServerData::new(store);
    assert!(data.store().get(&key).is_some());
    let store = data.into_store();
    assert_eq!(store.list_keys().len(), 1);
}
