use kvs::codec::{encode_transaction, Transaction};
use kvs::store::{Append, Error, KvStore, Segment};

/// Mirror one append to the in-memory stand-in for the directory, the way
/// the front end mirrors it to a file: create the segment file if it is
/// new, else write at the given offset and cut the file there first.
fn mirror(files: &mut Vec<(u64, Vec<u8>)>, ap: &Append) {
    if ap.new_segment {
        assert_eq!(ap.offset, 0);
        files.push((ap.seg_id, ap.bytes.clone()));
    } else {
        let f = files
            .iter_mut()
            .find(|f| f.0 == ap.seg_id)
            .expect("append targets a known segment");
        assert!(ap.offset <= f.1.len());
        f.1.truncate(ap.offset);
        f.1.extend_from_slice(&ap.bytes);
    }
}

fn to_segments(files: &[(u64, Vec<u8>)]) -> Vec<Segment> {
    files.iter().map(|(id, d)| Segment { id: *id, data: d.clone() }).collect()
}

fn get(store: &KvStore, key: &str) -> Option<String> {
    store.get(key.to_string()).expect("get never fails on a sound store")
}

#[test]
fn fresh_store_get_absent() {
    let store = KvStore::new();
    assert_eq!(get(&store, "missing"), None);
}

#[test]
fn set_then_get() {
    let mut store = KvStore::new();
    store.set("key".to_string(), "value".to_string());
    assert_eq!(get(&store, "key"), Some("value".to_string()));
}

#[test]
fn empty_key_and_value() {
    let mut store = KvStore::new();
    store.set(String::new(), String::new());
    assert_eq!(get(&store, ""), Some(String::new()));
}

#[test]
fn overwrite_updates_value_and_stale_count() {
    let mut store = KvStore::new();
    let a1 = store.set("k".to_string(), "v1".to_string());
    assert_eq!(store.stale_count(a1.seg_id), Some(0));
    let a2 = store.set("k".to_string(), "v2".to_string());
    assert_eq!(a2.seg_id, a1.seg_id);
    assert_eq!(get(&store, "k"), Some("v2".to_string()));
    assert_eq!(store.stale_count(a1.seg_id), Some(1));
}

#[test]
fn remove_absent_fails_key_not_found() {
    let mut store = KvStore::new();
    match store.remove("nope".to_string()) {
        Err(e) => assert_eq!(e, Error::KeyNotFound),
        Ok(_) => panic!("removing an absent key must fail"),
    }
}

#[test]
fn remove_present_then_absent() {
    let mut store = KvStore::new();
    let a1 = store.set("k".to_string(), "v".to_string());
    store.remove("k".to_string()).expect("key is present");
    assert_eq!(get(&store, "k"), None);
    assert_eq!(store.stale_count(a1.seg_id), Some(1));
    match store.remove("k".to_string()) {
        Err(e) => assert_eq!(e, Error::KeyNotFound),
        Ok(_) => panic!("a second remove must fail"),
    }
}

#[test]
fn scenario_open_set_remove_reopen() {
    let mut files: Vec<(u64, Vec<u8>)> = Vec::new();
    let mut store = KvStore::open(Vec::new(), 1000).expect("an empty directory opens");
    let ap = store.set("a".to_string(), "1".to_string());
    mirror(&mut files, &ap);
    let ap = store.set("b".to_string(), "2".to_string());
    mirror(&mut files, &ap);
    assert_eq!(get(&store, "a"), Some("1".to_string()));
    let ap = store.remove("a".to_string()).expect("a is present");
    mirror(&mut files, &ap);
    assert_eq!(get(&store, "a"), None);
    match store.remove("a".to_string()) {
        Err(e) => assert_eq!(e, Error::KeyNotFound),
        Ok(_) => panic!("a was already removed"),
    }
    let reopened = KvStore::open(to_segments(&files), 1000).expect("replay succeeds");
    assert_eq!(get(&reopened, "b"), Some("2".to_string()));
    assert_eq!(get(&reopened, "a"), None);
}

#[test]
fn rollover_creates_next_segment() {
    let mut store = KvStore::open(Vec::new(), 20).expect("an empty directory opens");
    let a1 = store.set("first".to_string(), "value".to_string());
    assert_eq!(a1.seg_id, 0);
    assert!(a1.new_segment);
    // the first record is well past the 20-byte threshold, so the next
    // write must open segment 1
    assert_eq!(store.get_next_file_index(), 1);
    let a2 = store.set("second".to_string(), "value".to_string());
    assert_eq!(a2.seg_id, 1);
    assert!(a2.new_segment);
    assert_eq!(get(&store, "second"), Some("value".to_string()));
    assert_eq!(store.stale_count(1), Some(0));
}

#[test]
fn rollover_then_overwrite_counts_old_segment() {
    let mut store = KvStore::open(Vec::new(), 20).expect("an empty directory opens");
    let a1 = store.set("k".to_string(), "old-value".to_string());
    let a2 = store.set("k".to_string(), "new-value".to_string());
    assert_eq!(a1.seg_id, 0);
    assert_eq!(a2.seg_id, 1);
    assert_eq!(get(&store, "k"), Some("new-value".to_string()));
    assert_eq!(store.stale_count(0), Some(1));
    assert_eq!(store.stale_count(1), Some(0));
}

#[test]
fn remove_uses_same_rollover_as_set() {
    let mut store = KvStore::open(Vec::new(), 20).expect("an empty directory opens");
    let a1 = store.set("k".to_string(), "some-value".to_string());
    assert_eq!(a1.seg_id, 0);
    // the active segment is past the threshold, so the tombstone opens
    // segment 1, just as a set would
    let ap = store.remove("k".to_string()).expect("k is present");
    assert_eq!(ap.seg_id, 1);
    assert!(ap.new_segment);
    assert_eq!(ap.offset, 0);
    assert_eq!(store.stale_count(0), Some(1));
    assert_eq!(store.stale_count(1), Some(0));
}

#[test]
fn truncation_tolerance() {
    let mut files: Vec<(u64, Vec<u8>)> = Vec::new();
    let mut store = KvStore::open(Vec::new(), 1000).expect("an empty directory opens");
    let ap = store.set("a".to_string(), "1".to_string());
    mirror(&mut files, &ap);
    let ap = store.set("b".to_string(), "2".to_string());
    mirror(&mut files, &ap);
    // a crash mid-write leaves a partial record at the tail of the last file
    let whole = encode_transaction(&Transaction::Put("c".to_string(), "3".to_string()));
    let last = files.last_mut().unwrap();
    last.1.extend_from_slice(&whole[..whole.len() - 4]);
    let reopened = KvStore::open(to_segments(&files), 1000).expect("a partial tail is not corruption");
    assert_eq!(get(&reopened, "a"), Some("1".to_string()));
    assert_eq!(get(&reopened, "b"), Some("2".to_string()));
    assert_eq!(get(&reopened, "c"), None);
}

#[test]
fn corrupt_log_detected() {
    let files = vec![(0u64, vec![9u8, 0, 0, 0, 0, 0, 0, 0, 0, 0])];
    match KvStore::open(to_segments(&files), 1000) {
        Err(e) => assert_eq!(e, Error::CorruptLog),
        Ok(_) => panic!("a bad record tag must abort open"),
    }
}

#[test]
fn replay_matches_incremental_state() {
    let mut files: Vec<(u64, Vec<u8>)> = Vec::new();
    let mut store = KvStore::open(Vec::new(), 40).expect("an empty directory opens");
    let keys = ["one", "two", "three", "one", "four", "two"];
    let vals = ["1", "2", "3", "1b", "4", "2b"];
    for (k, v) in keys.iter().zip(vals.iter()) {
        let ap = store.set(k.to_string(), v.to_string());
        mirror(&mut files, &ap);
    }
    let ap = store.remove("three".to_string()).expect("three is present");
    mirror(&mut files, &ap);
    let reopened = KvStore::open(to_segments(&files), 40).expect("replay succeeds");
    for k in ["one", "two", "three", "four", "missing"] {
        assert_eq!(get(&reopened, k), get(&store, k), "key {:?} must agree", k);
    }
    assert_eq!(reopened.get_next_file_index(), store.get_next_file_index());
    for seg in 0..store.get_next_file_index() + 1 {
        assert_eq!(reopened.stale_count(seg), store.stale_count(seg), "segment {}", seg);
    }
}

#[test]
fn open_ignores_directory_order() {
    // segment 0 sets the key, segment 1 overwrites it: the newer value must
    // win even when the directory lists the segments newest first
    let seg0 = encode_transaction(&Transaction::Put("k".to_string(), "old".to_string()));
    let seg1 = encode_transaction(&Transaction::Put("k".to_string(), "new".to_string()));
    let segments = vec![
        Segment { id: 1, data: seg1 },
        Segment { id: 0, data: seg0 },
    ];
    let store = KvStore::open(segments, 1000).expect("replay succeeds");
    assert_eq!(get(&store, "k"), Some("new".to_string()));
    assert_eq!(store.stale_count(0), Some(1));
    assert_eq!(store.stale_count(1), Some(0));
}

#[test]
fn default_threshold_is_one_thousand_bytes() {
    let mut store = KvStore::new();
    assert_eq!(store.get_next_file_index(), 0);
    let big_value = "x".repeat(1000);
    let ap = store.set("big".to_string(), big_value);
    assert_eq!(ap.seg_id, 0);
    // the single record pushed segment 0 past 1000 bytes
    assert_eq!(store.get_next_file_index(), 1);
    let ap = store.set("next".to_string(), "v".to_string());
    assert_eq!(ap.seg_id, 1);
}

#[test]
fn error_messages() {
    assert_eq!(Error::KeyNotFound.message(), "Key not found");
    assert_eq!(Error::CorruptLog.message(), "corrupt log");
    assert_eq!(Error::IoFailure.message(), "file operation failed");
    assert_eq!(Error::InternalInconsistency.message(), "index and log have diverged");
}

#[test]
fn unicode_keys_survive_reopen() {
    let mut files: Vec<(u64, Vec<u8>)> = Vec::new();
    let mut store = KvStore::open(Vec::new(), 1000).expect("an empty directory opens");
    let ap = store.set("schlüssel".to_string(), "wert ✓".to_string());
    mirror(&mut files, &ap);
    let reopened = KvStore::open(to_segments(&files), 1000).expect("replay succeeds");
    assert_eq!(get(&reopened, "schlüssel"), Some("wert ✓".to_string()));
}
