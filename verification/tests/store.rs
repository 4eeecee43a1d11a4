use xlkv::kv::entry::State;
use xlkv::kv::errors::XKVError;
use xlkv::kv::kv_store::KVStore;
use xlkv::kv::storage::{
    data_file_name, BitcaskStorage, Storage, COMPACTION_THRESHOLD, STORAGE_FILE_PREFIX,
};

fn s(text: &str) -> String {
    text.to_string()
}

/// The bytes of one record, laid out by hand.
fn record(tag: u8, key: &[u8], value: &[u8]) -> Vec<u8> {
    let mut bytes = Vec::new();
    bytes.extend_from_slice(&(key.len() as u64).to_be_bytes());
    bytes.extend_from_slice(&(value.len() as u64).to_be_bytes());
    bytes.push(tag);
    bytes.extend_from_slice(key);
    bytes.extend_from_slice(value);
    bytes
}

fn ten_keys() -> KVStore {
    let mut store = KVStore::open(Vec::new()).unwrap();
    for i in 0..10 {
        store.set(format!("key-{}", i), format!("value-{}", i)).unwrap();
    }
    store
}

#[test]
fn test_set() -> Result<(), XKVError> {
    let mut store = KVStore::open(Vec::new()).unwrap();
    for i in 0..10 {
        let key = format!("key-{}", i);
        let val = format!("value-{}", i);
        store.set(key.to_owned(), val.to_owned())?;
    }

    Ok(())
}

#[test]
fn data_file_has_the_fixed_name() {
    assert_eq!(STORAGE_FILE_PREFIX, "xdb");
    assert_eq!(data_file_name(), "xdb.data");
}

#[test]
fn default_threshold() {
    assert_eq!(COMPACTION_THRESHOLD, 65536);
    let engine = BitcaskStorage::open(Vec::new()).unwrap();
    assert_eq!(engine.threshold(), 65536);
    assert_eq!(engine.pending_compact(), 0);
    assert_eq!(engine.len(), 0);
    assert!(engine.data().is_empty());
    let engine = BitcaskStorage::with_threshold(Vec::new(), 7).unwrap();
    assert_eq!(engine.threshold(), 7);
}

#[test]
fn get_on_an_empty_store_is_absence() {
    let mut store = KVStore::open(Vec::new()).unwrap();
    assert_eq!(store.get(s("key")).unwrap(), None);
    assert_eq!(store.get(s("")).unwrap(), None);
    assert!(store.storage().data().is_empty());
}

#[test]
fn set_ten_keys_then_get() {
    let mut store = ten_keys();
    assert_eq!(store.get(s("key-5")).unwrap(), Some(s("value-5")));
    for i in 0..10 {
        assert_eq!(store.get(format!("key-{}", i)).unwrap(), Some(format!("value-{}", i)));
    }
    assert_eq!(store.get(s("key-10")).unwrap(), None);
    assert_eq!(store.storage().len(), 10);
    // ten records of 17 + 5 + 7 bytes
    assert_eq!(store.storage().data().len(), 10 * 29);
    assert_eq!(store.storage().pending_compact(), 0);
}

#[test]
fn remove_hides_one_key_only() {
    let mut store = ten_keys();
    store.remove(s("key-5")).unwrap();
    assert_eq!(store.get(s("key-5")).unwrap(), None);
    assert_eq!(store.get(s("key-3")).unwrap(), Some(s("value-3")));
    for i in 0..10 {
        if i != 5 {
            assert_eq!(store.get(format!("key-{}", i)).unwrap(), Some(format!("value-{}", i)));
        }
    }
    assert_eq!(store.storage().len(), 9);
    // the tombstone is a record of 17 + 5 bytes, and the record that it
    // hides is stale
    assert_eq!(store.storage().data().len(), 10 * 29 + 22);
    assert_eq!(store.storage().pending_compact(), 29);
}

#[test]
fn remove_of_a_missing_key() {
    let mut store = KVStore::open(Vec::new()).unwrap();
    let r = store.remove(s("missing-key"));
    assert!(matches!(r, Err(XKVError::KeyNotFound)));
    // no record was written
    assert!(store.storage().data().is_empty());
    assert_eq!(store.storage().pending_compact(), 0);

    let mut store = ten_keys();
    let before = store.storage().data().clone();
    let r = store.remove(s("missing-key"));
    assert!(matches!(r, Err(XKVError::KeyNotFound)));
    assert_eq!(store.storage().data(), &before);
    assert_eq!(store.storage().len(), 10);
    assert_eq!(store.get(s("key-5")).unwrap(), Some(s("value-5")));
}

#[test]
fn remove_twice_fails_the_second_time() {
    let mut store = ten_keys();
    store.remove(s("key-1")).unwrap();
    let len = store.storage().data().len();
    assert!(matches!(store.remove(s("key-1")), Err(XKVError::KeyNotFound)));
    assert_eq!(store.storage().data().len(), len);
}

#[test]
fn last_write_wins() {
    let mut store = KVStore::open(Vec::new()).unwrap();
    store.set(s("key"), s("v1")).unwrap();
    assert_eq!(store.get(s("key")).unwrap(), Some(s("v1")));
    store.set(s("key"), s("v2")).unwrap();
    assert_eq!(store.get(s("key")).unwrap(), Some(s("v2")));
    store.set(s("other"), s("x")).unwrap();
    store.set(s("key"), s("")).unwrap();
    assert_eq!(store.get(s("key")).unwrap(), Some(s("")));
    store.set(s("key"), s("v4")).unwrap();
    assert_eq!(store.get(s("key")).unwrap(), Some(s("v4")));
    assert_eq!(store.get(s("other")).unwrap(), Some(s("x")));
    assert_eq!(store.storage().len(), 2);
}

#[test]
fn tombstone_then_set_brings_the_key_back() {
    let mut store = KVStore::open(Vec::new()).unwrap();
    store.set(s("key"), s("old")).unwrap();
    store.remove(s("key")).unwrap();
    assert_eq!(store.get(s("key")).unwrap(), None);
    store.set(s("key"), s("new")).unwrap();
    assert_eq!(store.get(s("key")).unwrap(), Some(s("new")));
}

#[test]
fn empty_key_and_empty_value_are_legal() {
    let mut store = KVStore::open(Vec::new()).unwrap();
    store.set(s(""), s("")).unwrap();
    assert_eq!(store.get(s("")).unwrap(), Some(s("")));
    assert_eq!(store.storage().data(), &record(1, b"", b""));
    store.set(s(""), s("v")).unwrap();
    assert_eq!(store.get(s("")).unwrap(), Some(s("v")));
    store.remove(s("")).unwrap();
    assert_eq!(store.get(s("")).unwrap(), None);
}

#[test]
fn set_appends_one_put_record() {
    let mut engine = BitcaskStorage::open(Vec::new()).unwrap();
    engine.set(s("key"), s("value")).unwrap();
    assert_eq!(engine.data(), &record(1, b"key", b"value"));
    engine.set(s("k2"), s("v2")).unwrap();
    let mut expected = record(1, b"key", b"value");
    expected.extend(record(1, b"k2", b"v2"));
    assert_eq!(engine.data(), &expected);
}

#[test]
fn remove_appends_one_tombstone() {
    let mut engine = BitcaskStorage::open(Vec::new()).unwrap();
    engine.set(s("key"), s("value")).unwrap();
    engine.remove(s("key")).unwrap();
    let mut expected = record(1, b"key", b"value");
    expected.extend(record(2, b"key", b""));
    assert_eq!(engine.data(), &expected);
    assert_eq!(engine.len(), 0);
    assert_eq!(engine.pending_compact(), 25);
}

#[test]
fn get_leaves_the_store_as_it_was() {
    let mut engine = BitcaskStorage::open(Vec::new()).unwrap();
    engine.set(s("a"), s("1")).unwrap();
    engine.set(s("a"), s("2")).unwrap();
    let data = engine.data().clone();
    let stale = engine.pending_compact();
    assert_eq!(engine.get(s("a")).unwrap(), Some(s("2")));
    assert_eq!(engine.get(s("b")).unwrap(), None);
    assert_eq!(engine.data(), &data);
    assert_eq!(engine.pending_compact(), stale);
    assert_eq!(engine.len(), 1);
}

#[test]
fn reopening_recovers_every_key() {
    let mut store = ten_keys();
    store.remove(s("key-5")).unwrap();
    store.set(s("key-3"), s("changed")).unwrap();
    store.remove(s("key-7")).unwrap();
    store.set(s("key-7"), s("back")).unwrap();
    let data = store.storage().data().clone();

    let mut again = KVStore::open(data.clone()).unwrap();
    for i in 0..10 {
        let key = format!("key-{}", i);
        assert_eq!(again.get(key.clone()).unwrap(), store.get(key).unwrap());
    }
    assert_eq!(again.get(s("key-5")).unwrap(), None);
    assert_eq!(again.get(s("key-3")).unwrap(), Some(s("changed")));
    assert_eq!(again.get(s("key-7")).unwrap(), Some(s("back")));
    assert_eq!(again.get(s("key-0")).unwrap(), Some(s("value-0")));
    assert_eq!(again.storage().len(), 9);
    assert_eq!(again.storage().data(), &data);
    // the stale bytes of an earlier session are not counted again
    assert_eq!(again.storage().pending_compact(), 0);
    assert!(store.storage().pending_compact() > 0);
}

#[test]
fn reopened_store_appends_at_the_end() {
    let mut store = KVStore::open(Vec::new()).unwrap();
    store.set(s("a"), s("1")).unwrap();
    let mut again = KVStore::open(store.storage().data().clone()).unwrap();
    again.set(s("b"), s("2")).unwrap();
    let mut expected = record(1, b"a", b"1");
    expected.extend(record(1, b"b", b"2"));
    assert_eq!(again.storage().data(), &expected);
    assert_eq!(again.get(s("a")).unwrap(), Some(s("1")));
    assert_eq!(again.get(s("b")).unwrap(), Some(s("2")));
}

#[test]
fn replay_lets_the_last_record_decide() {
    let mut data = record(1, b"k", b"first");
    data.extend(record(1, b"gone", b"x"));
    data.extend(record(1, b"k", b"second"));
    data.extend(record(2, b"gone", b""));
    data.extend(record(2, b"never", b""));
    data.extend(record(1, b"back", b"1"));
    data.extend(record(2, b"back", b""));
    data.extend(record(1, b"back", b"2"));
    let mut store = KVStore::open(data).unwrap();
    assert_eq!(store.get(s("k")).unwrap(), Some(s("second")));
    assert_eq!(store.get(s("gone")).unwrap(), None);
    assert_eq!(store.get(s("never")).unwrap(), None);
    assert_eq!(store.get(s("back")).unwrap(), Some(s("2")));
    assert_eq!(store.storage().len(), 2);
}

#[test]
fn replay_reads_a_tombstone_with_a_value_as_a_tombstone() {
    let mut data = record(1, b"k", b"v");
    data.extend(record(2, b"k", b"ignored"));
    data.extend(record(1, b"after", b"1"));
    let mut store = KVStore::open(data).unwrap();
    assert_eq!(store.get(s("k")).unwrap(), None);
    assert_eq!(store.get(s("after")).unwrap(), Some(s("1")));
}

#[test]
fn open_fails_on_a_partial_header() {
    for len in 1..17 {
        let data = vec![0u8; len];
        assert!(matches!(KVStore::open(data), Err(XKVError::SliceDecode(_))));
    }
    // a good record does not save what follows it
    let mut data = record(1, b"k", b"v");
    data.extend_from_slice(&[0, 0, 0]);
    assert!(matches!(BitcaskStorage::open(data), Err(XKVError::SliceDecode(_))));
}

#[test]
fn open_fails_on_an_unknown_state_tag() {
    for tag in [0u8, 3, 0xff] {
        assert!(matches!(KVStore::open(record(tag, b"k", b"v")), Err(XKVError::ReprDecode(_))));
    }
    let mut data = record(1, b"k", b"v");
    data.extend(record(0, b"", b""));
    assert!(matches!(BitcaskStorage::open(data), Err(XKVError::ReprDecode(_))));
}

#[test]
fn open_fails_on_a_truncated_record() {
    let whole = record(1, b"key", b"value");
    for len in 17..whole.len() {
        let data = whole[..len].to_vec();
        match KVStore::open(data) {
            Err(XKVError::IO(e)) => assert_eq!(e.kind(), std::io::ErrorKind::UnexpectedEof),
            _ => panic!("a record cut at {} must not open", len),
        }
    }
    assert!(KVStore::open(whole).is_ok());
}

#[test]
fn open_fails_on_lengths_that_no_file_has() {
    let mut data = Vec::new();
    data.extend_from_slice(&u64::MAX.to_be_bytes());
    data.extend_from_slice(&u64::MAX.to_be_bytes());
    data.push(1);
    data.extend_from_slice(b"some bytes");
    assert!(matches!(KVStore::open(data), Err(XKVError::IO(_))));
    let mut data = Vec::new();
    data.extend_from_slice(&1u64.to_be_bytes());
    data.extend_from_slice(&u64::MAX.to_be_bytes());
    data.push(2);
    data.extend_from_slice(b"k");
    assert!(matches!(KVStore::open(data), Err(XKVError::IO(_))));
}

#[test]
fn open_fails_on_text_that_is_not_utf8() {
    assert!(matches!(KVStore::open(record(1, &[0xff], b"v")), Err(XKVError::StringDecode(_))));
    assert!(matches!(
        KVStore::open(record(1, b"k", &[0xe2, 0x82])),
        Err(XKVError::StringDecode(_))
    ));
    // surrogates and overlong forms are no text either
    assert!(matches!(
        KVStore::open(record(1, &[0xed, 0xa0, 0x80], b"")),
        Err(XKVError::StringDecode(_))
    ));
    assert!(matches!(KVStore::open(record(1, &[0xc0, 0x80], b"")), Err(XKVError::StringDecode(_))));
}

#[test]
fn a_bad_tag_is_found_before_a_short_body() {
    // tag 9, and lengths that the log does not have
    let mut data = Vec::new();
    data.extend_from_slice(&100u64.to_be_bytes());
    data.extend_from_slice(&100u64.to_be_bytes());
    data.push(9);
    assert!(matches!(KVStore::open(data), Err(XKVError::ReprDecode(_))));
}

#[test]
fn a_short_body_is_found_before_bad_text() {
    let mut data = Vec::new();
    data.extend_from_slice(&2u64.to_be_bytes());
    data.extend_from_slice(&2u64.to_be_bytes());
    data.push(1);
    data.extend_from_slice(&[0xff, 0xff, 0xff]);
    assert!(matches!(KVStore::open(data), Err(XKVError::IO(_))));
}

#[test]
fn read_at_finds_the_record_at_an_offset() {
    let mut data = record(1, b"a", b"1");
    let second = data.len() as u64;
    data.extend(record(2, b"bb", b""));
    let end = data.len() as u64;
    let mut engine = BitcaskStorage::open(data).unwrap();
    let entry = engine.read_at(0).unwrap();
    assert_eq!(entry.key, "a");
    assert_eq!(entry.value, "1");
    assert_eq!(entry.state, State::PUT);
    assert_eq!(entry.key_len, 1);
    assert_eq!(entry.value_len, 1);
    assert_eq!(entry.size(), 19);
    let entry = engine.read_at(second).unwrap();
    assert_eq!(entry.key, "bb");
    assert_eq!(entry.value, "");
    assert_eq!(entry.state, State::DEL);
    // the read cursor may jump back
    assert_eq!(engine.read_at(0).unwrap().key, "a");
    assert!(matches!(engine.read_at(end), Err(XKVError::EOF)));
    assert!(matches!(engine.read_at(end + 1), Err(XKVError::EOF)));
    assert!(matches!(engine.read_at(u64::MAX), Err(XKVError::EOF)));
    // an offset inside a record is no record
    assert!(matches!(engine.read_at(end - 3), Err(XKVError::SliceDecode(_))));
    // reads do not move the append cursor
    engine.set(s("c"), s("3")).unwrap();
    assert_eq!(engine.read_at(end).unwrap().key, "c");
}

#[test]
fn read_at_on_an_empty_log_is_the_end() {
    let mut engine = BitcaskStorage::open(Vec::new()).unwrap();
    assert!(matches!(engine.read_at(0), Err(XKVError::EOF)));
}

#[test]
fn overwrites_count_stale_bytes() {
    let mut engine = BitcaskStorage::open(Vec::new()).unwrap();
    engine.set(s("key"), s("v1")).unwrap();
    assert_eq!(engine.pending_compact(), 0);
    engine.set(s("key"), s("value-2")).unwrap();
    // the first record: 17 + 3 + 2
    assert_eq!(engine.pending_compact(), 22);
    engine.set(s("key"), s("")).unwrap();
    // the second record: 17 + 3 + 7
    assert_eq!(engine.pending_compact(), 22 + 27);
    engine.set(s("other"), s("x")).unwrap();
    assert_eq!(engine.pending_compact(), 22 + 27);
    engine.remove(s("key")).unwrap();
    // the third record: 17 + 3 + 0; the tombstone itself is not counted
    assert_eq!(engine.pending_compact(), 22 + 27 + 20);
    assert_eq!(engine.data().len(), 22 + 27 + 20 + 23 + 20);
}

#[test]
fn compaction_runs_when_the_count_reaches_the_threshold() {
    let mut engine = BitcaskStorage::with_threshold(Vec::new(), 50).unwrap();
    engine.set(s("x"), s("kept")).unwrap();
    engine.set(s("k"), s("aaaaaaaaaa")).unwrap();
    engine.set(s("k"), s("b")).unwrap();
    assert_eq!(engine.pending_compact(), 28);
    engine.set(s("k"), s("c")).unwrap();
    assert_eq!(engine.pending_compact(), 47);
    assert_eq!(engine.data().len(), 22 + 28 + 19 + 19);
    // 47 + 19 reaches 50
    engine.set(s("k"), s("d")).unwrap();
    assert_eq!(engine.pending_compact(), 0);
    let mut expected = record(1, b"x", b"kept");
    expected.extend(record(1, b"k", b"d"));
    assert_eq!(engine.data(), &expected);
    assert_eq!(engine.get(s("k")).unwrap(), Some(s("d")));
    assert_eq!(engine.get(s("x")).unwrap(), Some(s("kept")));
    assert_eq!(engine.len(), 2);
    assert_eq!(engine.threshold(), 50);
    // and the engine goes on on the new file
    engine.set(s("y"), s("1")).unwrap();
    expected.extend(record(1, b"y", b"1"));
    assert_eq!(engine.data(), &expected);
    assert_eq!(engine.pending_compact(), 0);
    let mut again = BitcaskStorage::open(expected).unwrap();
    assert_eq!(again.get(s("k")).unwrap(), Some(s("d")));
    assert_eq!(again.get(s("x")).unwrap(), Some(s("kept")));
    assert_eq!(again.get(s("y")).unwrap(), Some(s("1")));
}

#[test]
fn compaction_runs_exactly_at_the_threshold() {
    // one overwrite of ("k", "v") makes 19 bytes stale
    let mut engine = BitcaskStorage::with_threshold(Vec::new(), 20).unwrap();
    engine.set(s("k"), s("v")).unwrap();
    engine.set(s("k"), s("w")).unwrap();
    assert_eq!(engine.pending_compact(), 19);
    assert_eq!(engine.data().len(), 38);

    let mut engine = BitcaskStorage::with_threshold(Vec::new(), 19).unwrap();
    engine.set(s("k"), s("v")).unwrap();
    engine.set(s("k"), s("w")).unwrap();
    assert_eq!(engine.pending_compact(), 0);
    assert_eq!(engine.data(), &record(1, b"k", b"w"));
}

#[test]
fn compaction_drops_tombstones_and_keeps_index_order() {
    let mut engine = BitcaskStorage::with_threshold(Vec::new(), 40).unwrap();
    engine.set(s("a"), s("1")).unwrap();
    engine.set(s("b"), s("2")).unwrap();
    engine.set(s("c"), s("3")).unwrap();
    engine.remove(s("a")).unwrap();
    assert_eq!(engine.pending_compact(), 19);
    engine.set(s("a"), s("4")).unwrap();
    assert_eq!(engine.pending_compact(), 19);
    // a removal counts, and may pass the threshold, but does not compact
    engine.remove(s("b")).unwrap();
    engine.remove(s("c")).unwrap();
    assert_eq!(engine.pending_compact(), 57);
    assert_eq!(engine.data().len(), 4 * 19 + 3 * 18);
    // the next set does
    engine.set(s("d"), s("5")).unwrap();
    assert_eq!(engine.pending_compact(), 0);
    let mut expected = record(1, b"a", b"4");
    expected.extend(record(1, b"d", b"5"));
    assert_eq!(engine.data(), &expected);
    assert_eq!(engine.get(s("a")).unwrap(), Some(s("4")));
    assert_eq!(engine.get(s("b")).unwrap(), None);
    assert_eq!(engine.get(s("c")).unwrap(), None);
    assert_eq!(engine.get(s("d")).unwrap(), Some(s("5")));
}

#[test]
fn threshold_zero_compacts_on_every_set() {
    let mut engine = BitcaskStorage::with_threshold(Vec::new(), 0).unwrap();
    engine.set(s("a"), s("1")).unwrap();
    engine.set(s("a"), s("2")).unwrap();
    engine.set(s("b"), s("3")).unwrap();
    engine.set(s("a"), s("4")).unwrap();
    let mut expected = record(1, b"a", b"4");
    expected.extend(record(1, b"b", b"3"));
    assert_eq!(engine.data(), &expected);
    assert_eq!(engine.pending_compact(), 0);
}

#[test]
fn default_threshold_compacts_after_enough_overwrites() {
    let mut store = KVStore::open(Vec::new()).unwrap();
    let value = "v".repeat(1000);
    store.set(s("fixed"), s("stays")).unwrap();
    // each overwrite makes 17 + 3 + 1000 bytes stale
    store.set(s("key"), value.clone()).unwrap();
    let mut stale = 0u64;
    let mut compacted = 0;
    for _ in 0..200 {
        store.set(s("key"), value.clone()).unwrap();
        stale += 1020;
        if stale >= 65536 {
            stale = 0;
            compacted += 1;
            assert_eq!(store.storage().data().len(), 27 + 1020);
        }
        assert_eq!(store.storage().pending_compact(), stale);
    }
    assert_eq!(compacted, 3);
    assert_eq!(store.get(s("key")).unwrap(), Some(value));
    assert_eq!(store.get(s("fixed")).unwrap(), Some(s("stays")));
}

#[test]
fn facade_takes_any_backend() {
    let engine = BitcaskStorage::with_threshold(record(1, b"k", b"v"), 1).unwrap();
    let mut store = KVStore::new(engine);
    assert_eq!(store.get(s("k")).unwrap(), Some(s("v")));
    store.set(s("k"), s("w")).unwrap();
    assert_eq!(store.storage().data(), &record(1, b"k", b"w"));
}

#[test]
fn text_beyond_ascii() {
    let mut store = KVStore::open(Vec::new()).unwrap();
    store.set(s("ключ"), s("значение 🦀")).unwrap();
    assert_eq!(store.get(s("ключ")).unwrap(), Some(s("значение 🦀")));
    let expected = record(1, "ключ".as_bytes(), "значение 🦀".as_bytes());
    assert_eq!(store.storage().data(), &expected);
    let mut again = KVStore::open(store.storage().data().clone()).unwrap();
    assert_eq!(again.get(s("ключ")).unwrap(), Some(s("значение 🦀")));
}

#[test]
fn merge_keeps_the_live_records_only() {
    let mut engine = BitcaskStorage::open(Vec::new()).unwrap();
    engine.set(s("a"), s("1")).unwrap();
    engine.set(s("b"), s("2")).unwrap();
    engine.set(s("a"), s("3")).unwrap();
    engine.set(s("c"), s("4")).unwrap();
    engine.remove(s("b")).unwrap();
    assert_eq!(engine.pending_compact(), 38);
    assert_eq!(engine.data().len(), 4 * 19 + 18);
    engine.merge().unwrap();
    assert_eq!(engine.pending_compact(), 0);
    assert_eq!(engine.threshold(), 65536);
    let mut expected = record(1, b"a", b"3");
    expected.extend(record(1, b"c", b"4"));
    assert_eq!(engine.data(), &expected);
    assert_eq!(engine.len(), 2);
    assert_eq!(engine.get(s("a")).unwrap(), Some(s("3")));
    assert_eq!(engine.get(s("b")).unwrap(), None);
    assert_eq!(engine.get(s("c")).unwrap(), Some(s("4")));
    // the index points into the new file, and appends land at its end
    assert_eq!(engine.read_at(0).unwrap().key, "a");
    assert_eq!(engine.read_at(19).unwrap().key, "c");
    engine.set(s("d"), s("5")).unwrap();
    expected.extend(record(1, b"d", b"5"));
    assert_eq!(engine.data(), &expected);
    // a second compaction finds nothing to reclaim
    engine.merge().unwrap();
    assert_eq!(engine.data(), &expected);
}

#[test]
fn merge_of_an_empty_store_is_an_empty_file() {
    let mut engine = BitcaskStorage::open(Vec::new()).unwrap();
    engine.merge().unwrap();
    assert!(engine.data().is_empty());
    engine.set(s("a"), s("1")).unwrap();
    engine.remove(s("a")).unwrap();
    engine.merge().unwrap();
    assert!(engine.data().is_empty());
    assert_eq!(engine.pending_compact(), 0);
    assert_eq!(engine.get(s("a")).unwrap(), None);
}
