use kv_db::error::KvError;
use kv_db::index::Entry;
use kv_db::record::{decode_header, encode, Record, RecordType};
use kv_db::store::{
    check_dir, Config, KvStore, DEFAULT_MAX_RECLAIMABLE_BYTES, DEFAULT_MAX_SEGMENT_BYTES,
};
use kv_db::wal::Directory;

fn small() -> Config {
    Config { max_segment_bytes: 1024, max_reclaimable_bytes: 2048, fsync_on_write: true }
}

fn fresh(config: Config) -> KvStore {
    KvStore::open_with(Directory::new(), config).unwrap()
}

fn rec(record_type: RecordType, timestamp: i64, key: &[u8], value: &[u8]) -> Vec<u8> {
    encode(&Record { record_type, timestamp, key, value })
}

#[test]
fn default_settings() {
    let config = Config::default();
    assert_eq!(config.max_segment_bytes, 64 * 1024 * 1024);
    assert_eq!(config.max_reclaimable_bytes, 128 * 1024 * 1024);
    assert!(config.fsync_on_write);
    assert_eq!(DEFAULT_MAX_SEGMENT_BYTES, 67_108_864);
    assert_eq!(DEFAULT_MAX_RECLAIMABLE_BYTES, 134_217_728);
    let store = KvStore::open(Directory::new()).unwrap();
    assert_eq!(store.config(), config);
}

#[test]
fn check_dir_creates_a_missing_path() {
    assert!(matches!(check_dir(false, false), Ok(true)));
    assert!(matches!(check_dir(false, true), Ok(true)));
}

#[test]
fn check_dir_accepts_a_directory() {
    assert!(matches!(check_dir(true, true), Ok(false)));
}

#[test]
fn check_dir_refuses_a_file() {
    assert!(matches!(check_dir(true, false), Err(KvError::InvalidDir)));
}

#[test]
fn open_of_an_empty_directory_is_an_empty_store() {
    let store = fresh(small());
    assert_eq!(store.current_id(), 0);
    assert_eq!(store.reclaimable_bytes(), 0);
    assert_eq!(store.directory().len(), 0);
    assert_eq!(store.get(b"anything").unwrap(), None);
    assert_eq!(store.locate(b"anything"), None);
    assert!(!store.check_compaction());
}

#[test]
fn put_returns_the_place_of_the_record() {
    let mut store = fresh(small());
    let first = store.put(b"a", b"1", 10).unwrap();
    assert_eq!(first, Entry { segment_id: 0, offset: 0, record_len: 19 });
    let second = store.put(b"bb", b"22", 11).unwrap();
    assert_eq!(second, Entry { segment_id: 0, offset: 19, record_len: 21 });
    assert_eq!(store.locate(b"a"), Some(first));
    assert_eq!(store.locate(b"bb"), Some(second));
    let data = store.directory().data(0).unwrap();
    assert_eq!(&data[0..19], &rec(RecordType::Put, 10, b"a", b"1")[..]);
    assert_eq!(&data[19..40], &rec(RecordType::Put, 11, b"bb", b"22")[..]);
    assert_eq!(data.len(), 40);
}

#[test]
fn empty_value_is_not_absent() {
    let mut store = fresh(small());
    store.put(b"k", b"", 1).unwrap();
    assert_eq!(store.get(b"k").unwrap(), Some(Vec::new()));
}

#[test]
fn empty_key_is_a_key() {
    let mut store = fresh(small());
    assert_eq!(store.get(b"").unwrap(), None);
    store.put(b"", b"v", 1).unwrap();
    assert_eq!(store.get(b"").unwrap(), Some(b"v".to_vec()));
    store.delete(b"", 2).unwrap();
    assert_eq!(store.get(b"").unwrap(), None);
}

#[test]
fn put_delete_get_is_absent() {
    let mut store = fresh(small());
    store.put(b"k", b"v", 1).unwrap();
    store.delete(b"k", 2).unwrap();
    assert_eq!(store.get(b"k").unwrap(), None);
}

#[test]
fn second_put_wins_among_unrelated_writes() {
    let mut store = fresh(small());
    store.put(b"x", b"0", 1).unwrap();
    store.put(b"k", b"v1", 2).unwrap();
    store.put(b"y", b"1", 3).unwrap();
    store.delete(b"x", 4).unwrap();
    store.put(b"k", b"v2", 5).unwrap();
    store.put(b"z", b"2", 6).unwrap();
    store.delete(b"y", 7).unwrap();
    assert_eq!(store.get(b"k").unwrap(), Some(b"v2".to_vec()));
}

#[test]
fn overwrite_counts_the_old_record_as_reclaimable() {
    let mut store = fresh(small());
    store.put(b"a", b"1", 1).unwrap();
    assert_eq!(store.reclaimable_bytes(), 0);
    store.put(b"a", b"22", 2).unwrap();
    assert_eq!(store.reclaimable_bytes(), 19);
    store.put(b"a", b"333", 3).unwrap();
    assert_eq!(store.reclaimable_bytes(), 19 + 20);
    store.put(b"b", b"1", 4).unwrap();
    assert_eq!(store.reclaimable_bytes(), 19 + 20);
}

#[test]
fn delete_counts_both_records_as_reclaimable() {
    let mut store = fresh(small());
    store.put(b"a", b"1", 1).unwrap();
    let receipt = store.delete(b"a", 2).unwrap();
    assert_eq!(receipt, Some(Entry { segment_id: 0, offset: 19, record_len: 18 }));
    assert_eq!(store.reclaimable_bytes(), 19 + 18);
    let data = store.directory().data(0).unwrap();
    assert_eq!(&data[19..], &rec(RecordType::Delete, 2, b"a", b"")[..]);
}

#[test]
fn delete_of_an_unknown_key_writes_nothing() {
    let mut store = fresh(small());
    assert_eq!(store.delete(b"ghost", 1).unwrap(), None);
    assert_eq!(store.directory().len(), 0);
    store.put(b"a", b"1", 2).unwrap();
    store.delete(b"a", 3).unwrap();
    let size = store.directory().size_of(0);
    assert_eq!(store.delete(b"a", 4).unwrap(), None);
    assert_eq!(store.directory().size_of(0), size);
    assert_eq!(store.reclaimable_bytes(), 19 + 18);
}

#[test]
fn segment_exactly_at_max_takes_one_more_record() {
    let config = Config { max_segment_bytes: 38, max_reclaimable_bytes: 2048, fsync_on_write: true };
    let mut store = fresh(config);
    store.put(b"a", b"1", 1).unwrap();
    store.put(b"b", b"2", 2).unwrap();
    assert_eq!(store.directory().size_of(0), 38);
    let third = store.put(b"c", b"3", 3).unwrap();
    assert_eq!(third.segment_id, 0);
    assert_eq!(store.directory().size_of(0), 57);
    let fourth = store.put(b"d", b"4", 4).unwrap();
    assert_eq!(fourth, Entry { segment_id: 1, offset: 0, record_len: 19 });
    assert_eq!(store.current_id(), 1);
    assert_eq!(store.directory().list_segments(), vec![0, 1]);
}

#[test]
fn delete_rotates_like_put() {
    let config = Config { max_segment_bytes: 18, max_reclaimable_bytes: 2048, fsync_on_write: true };
    let mut store = fresh(config);
    store.put(b"a", b"1", 1).unwrap();
    let receipt = store.delete(b"a", 2).unwrap();
    assert_eq!(receipt, Some(Entry { segment_id: 1, offset: 0, record_len: 18 }));
    assert_eq!(store.directory().list_segments(), vec![0, 1]);
}

#[test]
fn a_record_larger_than_a_segment_is_written_whole() {
    let config = Config { max_segment_bytes: 8, max_reclaimable_bytes: 2048, fsync_on_write: true };
    let mut store = fresh(config);
    let value = vec![5u8; 100];
    let first = store.put(b"a", &value, 1).unwrap();
    assert_eq!(first, Entry { segment_id: 0, offset: 0, record_len: 118 });
    let second = store.put(b"b", &value, 2).unwrap();
    assert_eq!(second, Entry { segment_id: 1, offset: 0, record_len: 118 });
    assert_eq!(store.get(b"a").unwrap(), Some(value.clone()));
    assert_eq!(store.get(b"b").unwrap(), Some(value));
}

#[test]
fn put_fails_when_the_segment_ids_are_used_up() {
    let mut dir = Directory::new();
    dir.put_segment(u64::MAX, rec(RecordType::Put, 1, b"a", &[0u8; 64]));
    let config = Config { max_segment_bytes: 16, max_reclaimable_bytes: 2048, fsync_on_write: true };
    let mut store = KvStore::open_with(dir, config).unwrap();
    assert_eq!(store.current_id(), u64::MAX);
    assert!(matches!(store.put(b"b", b"1", 2), Err(KvError::Internal)));
    assert!(matches!(store.delete(b"a", 3), Err(KvError::Internal)));
    assert_eq!(store.delete(b"unknown", 3).unwrap(), None);
    assert_eq!(store.get(b"a").unwrap(), Some(vec![0u8; 64]));
    assert_eq!(store.get(b"b").unwrap(), None);
    assert_eq!(store.directory().size_of(u64::MAX), 17 + 1 + 64);
    assert_eq!(store.directory().len(), 1);
}

#[test]
fn open_takes_the_greatest_id_as_active() {
    let mut dir = Directory::new();
    dir.add_file(b"7.log", rec(RecordType::Put, 1, b"a", b"7"));
    dir.add_file(b"3.log", rec(RecordType::Put, 2, b"a", b"3"));
    dir.add_file(b"compacted.log", vec![9, 9, 9]);
    let mut store = KvStore::open_with(dir, small()).unwrap();
    assert_eq!(store.current_id(), 7);
    assert_eq!(store.get(b"a").unwrap(), Some(b"7".to_vec()));
    assert_eq!(store.reclaimable_bytes(), 19);
    let receipt = store.put(b"b", b"1", 3).unwrap();
    assert_eq!(receipt, Entry { segment_id: 7, offset: 19, record_len: 19 });
}

#[test]
fn open_fails_on_an_unknown_record_type() {
    let mut bytes = rec(RecordType::Put, 1, b"a", b"1");
    let mut bad = rec(RecordType::Put, 2, b"b", b"2");
    bad[0] = 9;
    bytes.extend_from_slice(&bad);
    bytes.extend_from_slice(&rec(RecordType::Put, 3, b"c", b"3"));
    let mut dir = Directory::new();
    dir.put_segment(0, bytes);
    assert!(matches!(KvStore::open_with(dir, small()), Err(KvError::Corrupt)));
}

#[test]
fn open_passes_over_a_truncated_tail_with_an_unknown_type() {
    let mut bytes = rec(RecordType::Put, 1, b"a", b"1");
    let mut bad = rec(RecordType::Put, 2, b"b", b"2");
    bad[0] = 9;
    bad.pop();
    bytes.extend_from_slice(&bad);
    let mut dir = Directory::new();
    dir.put_segment(0, bytes);
    let store = KvStore::open_with(dir, small()).unwrap();
    assert_eq!(store.get(b"a").unwrap(), Some(b"1".to_vec()));
    assert_eq!(store.get(b"b").unwrap(), None);
}

#[test]
fn open_replays_later_segments_over_earlier_ones() {
    let mut dir = Directory::new();
    let mut first = rec(RecordType::Put, 1, b"a", b"old");
    first.extend_from_slice(&rec(RecordType::Put, 2, b"b", b"kept"));
    first.extend_from_slice(&rec(RecordType::Put, 3, b"c", b"gone"));
    let mut second = rec(RecordType::Put, 4, b"a", b"new");
    second.extend_from_slice(&rec(RecordType::Delete, 5, b"c", b""));
    dir.put_segment(1, second);
    dir.put_segment(0, first);
    let store = KvStore::open_with(dir, small()).unwrap();
    assert_eq!(store.get(b"a").unwrap(), Some(b"new".to_vec()));
    assert_eq!(store.get(b"b").unwrap(), Some(b"kept".to_vec()));
    assert_eq!(store.get(b"c").unwrap(), None);
    assert_eq!(store.locate(b"a"), Some(Entry { segment_id: 1, offset: 0, record_len: 21 }));
    assert_eq!(store.locate(b"b"), Some(Entry { segment_id: 0, offset: 21, record_len: 22 }));
    assert_eq!(store.reclaimable_bytes(), 21 + (22 + 18));
}

#[test]
fn a_delete_of_a_key_that_is_not_live_reclaims_nothing_on_replay() {
    let mut dir = Directory::new();
    dir.put_segment(0, rec(RecordType::Delete, 1, b"a", b""));
    let store = KvStore::open_with(dir, small()).unwrap();
    assert_eq!(store.reclaimable_bytes(), 0);
    assert_eq!(store.get(b"a").unwrap(), None);
}

#[test]
fn compaction_is_not_due_without_a_sealed_segment() {
    let config = Config { max_segment_bytes: 1 << 20, max_reclaimable_bytes: 10, fsync_on_write: true };
    let mut store = fresh(config);
    store.put(b"a", b"1", 1).unwrap();
    store.put(b"a", b"2", 2).unwrap();
    assert_eq!(store.reclaimable_bytes(), 19);
    assert!(!store.check_compaction());
    assert_eq!(store.compact(), Vec::<u64>::new());
    assert_eq!(store.reclaimable_bytes(), 19);
    assert_eq!(store.directory().list_segments(), vec![0]);
    assert_eq!(store.get(b"a").unwrap(), Some(b"2".to_vec()));
}

#[test]
fn compaction_is_due_only_beyond_the_threshold() {
    let config = Config { max_segment_bytes: 18, max_reclaimable_bytes: 38, fsync_on_write: true };
    let mut store = fresh(config);
    store.put(b"a", b"1", 1).unwrap();
    store.put(b"a", b"2", 2).unwrap();
    store.put(b"a", b"3", 3).unwrap();
    assert_eq!(store.reclaimable_bytes(), 38);
    assert!(!store.check_compaction());
    store.put(b"a", b"4", 4).unwrap();
    assert_eq!(store.reclaimable_bytes(), 57);
    assert!(store.check_compaction());
}

#[test]
fn compaction_moves_live_records_into_segment_zero() {
    let config = Config { max_segment_bytes: 18, max_reclaimable_bytes: 0, fsync_on_write: true };
    let mut store = fresh(config);
    store.put(b"a", b"1", 100).unwrap();
    store.put(b"b", b"2", 200).unwrap();
    store.put(b"a", b"3", 300).unwrap();
    store.put(b"c", b"4", 400).unwrap();
    store.delete(b"c", 500).unwrap();
    store.put(b"d", b"5", 600).unwrap();
    assert_eq!(store.directory().list_segments(), vec![0, 1, 2, 3, 4]);
    let removed = store.compact();
    assert_eq!(removed, vec![0, 1, 2, 3]);
    assert_eq!(store.directory().list_segments(), vec![0, 4]);
    assert_eq!(store.current_id(), 4);
    assert_eq!(store.reclaimable_bytes(), 0);
    assert_eq!(store.get(b"a").unwrap(), Some(b"3".to_vec()));
    assert_eq!(store.get(b"b").unwrap(), Some(b"2".to_vec()));
    assert_eq!(store.get(b"c").unwrap(), None);
    assert_eq!(store.get(b"d").unwrap(), Some(b"5".to_vec()));
    assert_eq!(store.locate(b"d"), Some(Entry { segment_id: 4, offset: 18, record_len: 19 }));
    let a = store.locate(b"a").unwrap();
    let b = store.locate(b"b").unwrap();
    assert_eq!((a.segment_id, a.record_len), (0, 19));
    assert_eq!((b.segment_id, b.record_len), (0, 19));
    let compacted = store.directory().data(0).unwrap();
    assert_eq!(compacted.len(), 38);
    let at_a = a.offset as usize;
    let at_b = b.offset as usize;
    assert_eq!(&compacted[at_a..at_a + 19], &rec(RecordType::Put, 300, b"a", b"3")[..]);
    assert_eq!(&compacted[at_b..at_b + 19], &rec(RecordType::Put, 200, b"b", b"2")[..]);
    assert_eq!(decode_header(&compacted[at_a..]).unwrap().timestamp, 300);
    assert_eq!(decode_header(&compacted[at_b..]).unwrap().timestamp, 200);
}

#[test]
fn compaction_leaves_the_active_segment_alone() {
    let config = Config { max_segment_bytes: 18, max_reclaimable_bytes: 0, fsync_on_write: true };
    let mut store = fresh(config);
    store.put(b"a", b"1", 1).unwrap();
    store.put(b"a", b"2", 2).unwrap();
    let active = store.directory().data(1).unwrap().clone();
    store.compact();
    assert_eq!(store.directory().data(1).unwrap(), &active);
    assert_eq!(store.directory().data(0).unwrap().len(), 0);
    assert_eq!(store.get(b"a").unwrap(), Some(b"2".to_vec()));
}

#[test]
fn compaction_twice_keeps_the_contents() {
    let config = Config { max_segment_bytes: 18, max_reclaimable_bytes: 0, fsync_on_write: true };
    let mut store = fresh(config);
    store.put(b"a", b"1", 1).unwrap();
    store.put(b"b", b"2", 2).unwrap();
    store.put(b"c", b"3", 3).unwrap();
    store.compact();
    assert_eq!(store.compact(), vec![0]);
    assert_eq!(store.directory().list_segments(), vec![0, 2]);
    store.put(b"d", b"4", 4).unwrap();
    store.put(b"a", b"5", 5).unwrap();
    assert_eq!(store.compact(), vec![0, 2, 3]);
    assert_eq!(store.directory().list_segments(), vec![0, 4]);
    assert_eq!(store.get(b"a").unwrap(), Some(b"5".to_vec()));
    assert_eq!(store.get(b"b").unwrap(), Some(b"2".to_vec()));
    assert_eq!(store.get(b"c").unwrap(), Some(b"3".to_vec()));
    assert_eq!(store.get(b"d").unwrap(), Some(b"4".to_vec()));
}

#[test]
fn error_messages() {
    assert_eq!(KvError::InvalidDir.message(), "path is not a directory");
    assert_eq!(KvError::Corrupt.message(), "corrupt record");
    assert_eq!(KvError::Internal.message(), "internal inconsistency");
    let io = KvError::from(std::io::Error::new(std::io::ErrorKind::NotFound, "gone"));
    assert_eq!(io.message(), "i/o error");
}

#[test]
fn a_cycle_that_has_begun_changes_nothing_yet() {
    let config = Config { max_segment_bytes: 18, max_reclaimable_bytes: 0, fsync_on_write: true };
    let mut store = fresh(config);
    store.put(b"a", b"1", 1).unwrap();
    store.put(b"b", b"2", 2).unwrap();
    store.put(b"a", b"3", 3).unwrap();
    let before = store.directory().clone();
    let counter = store.reclaimable_bytes();
    assert!(store.compacted_bytes().is_none());
    assert!(store.begin_compaction());
    assert_eq!(store.directory().list_segments(), before.list_segments());
    assert_eq!(store.reclaimable_bytes(), counter);
    assert_eq!(store.locate(b"b"), Some(Entry { segment_id: 1, offset: 0, record_len: 19 }));
    assert_eq!(store.get(b"a").unwrap(), Some(b"3".to_vec()));
    assert_eq!(store.get(b"b").unwrap(), Some(b"2".to_vec()));
    assert_eq!(store.compacted_bytes().unwrap(), &rec(RecordType::Put, 2, b"b", b"2"));
}

#[test]
fn begin_needs_a_sealed_segment() {
    let mut store = fresh(small());
    assert!(!store.begin_compaction());
    store.put(b"a", b"1", 1).unwrap();
    assert!(!store.begin_compaction());
    assert!(store.compacted_bytes().is_none());
    assert_eq!(store.commit_compaction(), Vec::<u64>::new());
    assert_eq!(store.directory().list_segments(), vec![0]);
}

#[test]
fn commit_without_a_cycle_does_nothing() {
    let config = Config { max_segment_bytes: 18, max_reclaimable_bytes: 0, fsync_on_write: true };
    let mut store = fresh(config);
    store.put(b"a", b"1", 1).unwrap();
    store.put(b"a", b"2", 2).unwrap();
    assert_eq!(store.commit_compaction(), Vec::<u64>::new());
    assert_eq!(store.directory().list_segments(), vec![0, 1]);
    assert_eq!(store.reclaimable_bytes(), 19);
}

#[test]
fn an_aborted_cycle_leaves_the_store_as_it_was() {
    let config = Config { max_segment_bytes: 18, max_reclaimable_bytes: 0, fsync_on_write: true };
    let mut store = fresh(config);
    store.put(b"a", b"1", 1).unwrap();
    store.put(b"b", b"2", 2).unwrap();
    assert!(store.begin_compaction());
    store.abort_compaction();
    assert!(store.compacted_bytes().is_none());
    assert_eq!(store.commit_compaction(), Vec::<u64>::new());
    assert_eq!(store.directory().list_segments(), vec![0, 1]);
    assert_eq!(store.get(b"a").unwrap(), Some(b"1".to_vec()));
    assert_eq!(store.get(b"b").unwrap(), Some(b"2".to_vec()));
}

#[test]
fn writes_between_begin_and_commit_win() {
    let config = Config { max_segment_bytes: 18, max_reclaimable_bytes: 0, fsync_on_write: true };
    let mut store = fresh(config);
    store.put(b"a", b"1", 1).unwrap();
    store.put(b"b", b"2", 2).unwrap();
    store.put(b"c", b"3", 3).unwrap();
    store.put(b"d", b"4", 4).unwrap();
    assert_eq!(store.directory().list_segments(), vec![0, 1, 2, 3]);
    assert!(store.begin_compaction());
    assert_eq!(store.compacted_bytes().unwrap().len(), 3 * 19);

    store.put(b"a", b"5", 5).unwrap();
    store.delete(b"b", 6).unwrap();
    store.put(b"e", b"7", 7).unwrap();
    assert_eq!(store.directory().list_segments(), vec![0, 1, 2, 3, 4, 5]);
    assert_eq!(store.get(b"a").unwrap(), Some(b"5".to_vec()));
    assert_eq!(store.get(b"b").unwrap(), None);

    let removed = store.commit_compaction();
    assert_eq!(removed, vec![0, 1, 2]);
    assert_eq!(store.directory().list_segments(), vec![0, 3, 4, 5]);
    assert_eq!(store.current_id(), 5);
    assert_eq!(store.reclaimable_bytes(), 0);
    assert!(store.compacted_bytes().is_none());
    assert_eq!(store.get(b"a").unwrap(), Some(b"5".to_vec()));
    assert_eq!(store.get(b"b").unwrap(), None);
    assert_eq!(store.get(b"c").unwrap(), Some(b"3".to_vec()));
    assert_eq!(store.get(b"d").unwrap(), Some(b"4".to_vec()));
    assert_eq!(store.get(b"e").unwrap(), Some(b"7".to_vec()));
    assert_eq!(store.locate(b"a"), Some(Entry { segment_id: 4, offset: 0, record_len: 19 }));
    assert_eq!(store.locate(b"c").unwrap().segment_id, 0);
    assert_eq!(store.locate(b"d"), Some(Entry { segment_id: 3, offset: 0, record_len: 19 }));
    assert_eq!(store.locate(b"e"), Some(Entry { segment_id: 5, offset: 18, record_len: 19 }));

    let again = KvStore::open_with(store.directory().clone(), config).unwrap();
    for key in [&b"a"[..], b"b", b"c", b"d", b"e"] {
        assert_eq!(again.get(key).unwrap(), store.get(key).unwrap());
        assert_eq!(again.locate(key), store.locate(key));
    }
}

#[test]
fn a_key_put_back_during_a_cycle_keeps_its_new_record() {
    let config = Config { max_segment_bytes: 18, max_reclaimable_bytes: 0, fsync_on_write: true };
    let mut store = fresh(config);
    store.put(b"a", b"1", 1).unwrap();
    store.put(b"b", b"2", 2).unwrap();
    assert!(store.begin_compaction());
    store.delete(b"a", 3).unwrap();
    store.put(b"a", b"1", 4).unwrap();
    let removed = store.commit_compaction();
    assert_eq!(removed, vec![0]);
    assert_eq!(store.directory().list_segments(), vec![0, 1, 2]);
    assert_eq!(store.get(b"a").unwrap(), Some(b"1".to_vec()));
    assert_eq!(store.locate(b"a"), Some(Entry { segment_id: 2, offset: 18, record_len: 19 }));
    let again = KvStore::open_with(store.directory().clone(), config).unwrap();
    assert_eq!(again.get(b"a").unwrap(), Some(b"1".to_vec()));
    assert_eq!(again.locate(b"a"), store.locate(b"a"));
    assert_eq!(again.get(b"b").unwrap(), Some(b"2".to_vec()));
}

#[test]
fn a_new_cycle_takes_the_place_of_one_that_had_begun() {
    let config = Config { max_segment_bytes: 18, max_reclaimable_bytes: 0, fsync_on_write: true };
    let mut store = fresh(config);
    store.put(b"a", b"1", 1).unwrap();
    store.put(b"b", b"2", 2).unwrap();
    assert!(store.begin_compaction());
    assert_eq!(store.compacted_bytes().unwrap().len(), 19);
    store.put(b"c", b"3", 3).unwrap();
    assert!(store.begin_compaction());
    assert_eq!(store.compacted_bytes().unwrap().len(), 38);
    assert_eq!(store.commit_compaction(), vec![0, 1]);
    assert_eq!(store.directory().list_segments(), vec![0, 2]);
    assert_eq!(store.get(b"a").unwrap(), Some(b"1".to_vec()));
    assert_eq!(store.get(b"b").unwrap(), Some(b"2".to_vec()));
    assert_eq!(store.get(b"c").unwrap(), Some(b"3".to_vec()));
}
