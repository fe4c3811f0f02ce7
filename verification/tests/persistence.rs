use diary::codec::StoreError;
use diary::entry::DiaryEntry;
use diary::state::DiaryState;

fn cv(s: &str) -> Vec<char> {
    s.chars().collect()
}

fn sv(v: &Vec<char>) -> String {
    v.iter().collect()
}

#[test]
fn save_then_load_reproduces_collection_and_counter() {
    let mut store = DiaryState::new();
    store.add_entry(DiaryEntry::new(0, cv("first entry\nsecond line"), vec![cv("work"), cv("")]));
    store.add_entry(DiaryEntry::new(0, cv("unicode: caf\u{e9} \u{1f600}"), vec![]));
    store.delete_entry(1);
    store.add_entry(DiaryEntry::new(0, cv("third"), vec![cv("t")]));
    let bytes = store.save();
    let reloaded = DiaryState::load(Some(&bytes)).expect("round trip must succeed");
    assert_eq!(reloaded.next_id(), store.next_id());
    let old_entries = store.get_entries();
    let new_entries = reloaded.get_entries();
    assert_eq!(new_entries.len(), old_entries.len());
    for (a, b) in old_entries.iter().zip(new_entries.iter()) {
        assert_eq!(a.id, b.id);
        assert_eq!(a.timestamp, b.timestamp);
        assert_eq!(a.content, b.content);
        assert_eq!(a.tags, b.tags);
    }
    assert_eq!(reloaded.save(), bytes);
}

#[test]
fn empty_store_round_trips() {
    let store = DiaryState::new();
    let bytes = store.save();
    let reloaded = DiaryState::load(Some(&bytes)).expect("empty store must round trip");
    assert_eq!(reloaded.next_id(), 1);
    assert!(reloaded.get_entries().is_empty());
}

#[test]
fn load_absent_blob_yields_fresh_empty_store() {
    let store = DiaryState::load(None).expect("absent blob is not an error");
    assert_eq!(store.next_id(), 1);
    assert!(store.get_entries().is_empty());
}

#[test]
fn load_truncated_bytes_is_corrupt() {
    let r = DiaryState::load(Some(&vec![1u8, 2, 3]));
    assert!(matches!(r, Err(StoreError::Corrupt)));
}

#[test]
fn load_zero_counter_is_corrupt() {
    // a store whose next id would be 0 can never have existed
    let r = DiaryState::load(Some(&vec![0u8; 16]));
    assert!(matches!(r, Err(StoreError::Corrupt)));
}

#[test]
fn load_trailing_bytes_is_corrupt() {
    let mut store = DiaryState::new();
    store.add_entry(DiaryEntry::new(0, cv("x"), vec![]));
    let mut bytes = store.save();
    bytes.push(0);
    assert!(matches!(DiaryState::load(Some(&bytes)), Err(StoreError::Corrupt)));
}

#[test]
fn load_tampered_count_is_corrupt() {
    let mut store = DiaryState::new();
    store.add_entry(DiaryEntry::new(0, cv("x"), vec![]));
    let mut bytes = store.save();
    // claim a second entry that is not there
    bytes[8] = 2;
    assert!(matches!(DiaryState::load(Some(&bytes)), Err(StoreError::Corrupt)));
}

fn put_u64(v: &mut Vec<u8>, x: u64) {
    v.extend_from_slice(&x.to_le_bytes());
}

fn put_str(v: &mut Vec<u8>, s: &str) {
    put_u64(v, s.chars().count() as u64);
    for c in s.chars() {
        v.extend_from_slice(&(c as u32).to_le_bytes());
    }
}

fn put_entry(v: &mut Vec<u8>, id: u64, ts: &str, content: &str, tags: &[&str]) {
    put_u64(v, id);
    put_str(v, ts);
    put_str(v, content);
    put_u64(v, tags.len() as u64);
    for t in tags {
        put_str(v, t);
    }
}

#[test]
fn load_accepts_an_externally_built_blob() {
    let mut bytes = Vec::new();
    put_u64(&mut bytes, 3);
    put_u64(&mut bytes, 2);
    put_entry(&mut bytes, 1, "2024-01-01T00:00:00+00:00", "first", &["a", "b"]);
    put_entry(&mut bytes, 2, "2024-01-02T00:00:00+00:00", "second", &[]);
    let store = DiaryState::load(Some(&bytes)).expect("well-formed blob must load");
    assert_eq!(store.next_id(), 3);
    let entries = store.get_entries();
    assert_eq!(entries.len(), 2);
    assert_eq!(entries[0].id, 1);
    assert_eq!(sv(&entries[0].content), "first");
    assert_eq!(sv(&entries[0].tags[1]), "b");
    assert_eq!(entries[1].id, 2);
}

#[test]
fn load_out_of_order_ids_is_corrupt() {
    let mut bytes = Vec::new();
    put_u64(&mut bytes, 5);
    put_u64(&mut bytes, 2);
    put_entry(&mut bytes, 2, "t", "x", &[]);
    put_entry(&mut bytes, 1, "t", "y", &[]);
    assert!(matches!(DiaryState::load(Some(&bytes)), Err(StoreError::Corrupt)));
}

#[test]
fn load_id_at_or_above_counter_is_corrupt() {
    let mut bytes = Vec::new();
    put_u64(&mut bytes, 2);
    put_u64(&mut bytes, 1);
    put_entry(&mut bytes, 2, "t", "x", &[]);
    assert!(matches!(DiaryState::load(Some(&bytes)), Err(StoreError::Corrupt)));
}

#[test]
fn load_invalid_scalar_value_is_corrupt() {
    let mut bytes = Vec::new();
    put_u64(&mut bytes, 2); // counter
    put_u64(&mut bytes, 1); // one entry
    put_u64(&mut bytes, 1); // its id
    put_u64(&mut bytes, 1); // a one-character timestamp ...
    bytes.extend_from_slice(&0xD800u32.to_le_bytes()); // ... holding a surrogate
    put_str(&mut bytes, "x");
    put_u64(&mut bytes, 0); // no tags
    assert!(matches!(DiaryState::load(Some(&bytes)), Err(StoreError::Corrupt)));
}

#[test]
fn saved_content_survives_byte_for_byte() {
    let mut store = DiaryState::new();
    store.add_entry(DiaryEntry::new(0, cv("remember me"), vec![cv("memo")]));
    let bytes = store.save();
    let reloaded = DiaryState::load(Some(&bytes)).unwrap();
    assert_eq!(sv(&reloaded.get_entries()[0].content), "remember me");
    assert_eq!(sv(&reloaded.get_entries()[0].tags[0]), "memo");
    assert_eq!(reloaded.get_entries()[0].id, 1);
}
