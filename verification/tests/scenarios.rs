use kv_db::record::{encode, Record, RecordType};
use kv_db::recovery::{trim_torn_tail, whole_records_len};
use kv_db::store::{Config, KvStore};
use kv_db::wal::Directory;
use std::collections::HashMap;

fn test_config() -> Config {
    Config { max_segment_bytes: 1024, max_reclaimable_bytes: 2048, fsync_on_write: true }
}

fn reopen(store: &KvStore) -> KvStore {
    KvStore::open_with(store.directory().clone(), store.config()).unwrap()
}

fn log_of(records: &[(RecordType, i64, &[u8], &[u8])]) -> Vec<u8> {
    let mut bytes = Vec::new();
    for (record_type, timestamp, key, value) in records {
        bytes.extend_from_slice(&encode(&Record {
            record_type: *record_type,
            timestamp: *timestamp,
            key,
            value,
        }));
    }
    bytes
}

#[test]
fn demo_session() {
    let mut db = KvStore::open(Directory::new()).unwrap();
    db.put(b"name", b"Arnold", 1).unwrap();
    db.put(b"name", b"Emmanuel", 2).unwrap();
    db.put(b"age", b"21", 3).unwrap();
    assert_eq!(db.get(b"age").unwrap(), Some(b"21".to_vec()));
    assert_eq!(db.get(b"name").unwrap(), Some(b"Emmanuel".to_vec()));
    db.delete(b"name", 4).unwrap();
    assert_eq!(db.get(b"name").unwrap(), None);
}

#[test]
fn replay_of_put_put_delete() {
    let bytes = log_of(&[
        (RecordType::Put, 1, b"a", b"1"),
        (RecordType::Put, 2, b"a", b"2"),
        (RecordType::Delete, 3, b"a", b""),
    ]);
    assert_eq!(bytes.len(), 19 + 19 + 18);
    let mut dir = Directory::new();
    assert!(dir.add_file(b"0.log", bytes));
    let store = KvStore::open_with(dir, test_config()).unwrap();
    assert_eq!(store.get(b"a").unwrap(), None);
    assert!(store.reclaimable_bytes() >= 19 + 19 + 18);
    assert_eq!(store.reclaimable_bytes(), 56);
}

#[test]
fn five_large_puts_make_five_segments() {
    let mut store = KvStore::open_with(Directory::new(), test_config()).unwrap();
    let keys: [&[u8]; 5] = [b"k0", b"k1", b"k2", b"k3", b"k4"];
    for (i, key) in keys.iter().enumerate() {
        store.put(key, &vec![i as u8; 1024], i as i64).unwrap();
    }
    let ids = store.directory().list_segments();
    assert_eq!(ids, vec![0, 1, 2, 3, 4]);
    assert!(*ids.last().unwrap() >= 4);
    for (i, key) in keys.iter().enumerate() {
        assert_eq!(store.get(key).unwrap(), Some(vec![i as u8; 1024]));
    }
}

#[test]
fn overwrites_trigger_compaction() {
    let mut store = KvStore::open_with(Directory::new(), test_config()).unwrap();
    let mut compactions = 0;
    let mut last = Vec::new();
    for round in 0..100u32 {
        last = vec![(round % 251) as u8; 100];
        store.put(b"k", &last, round as i64).unwrap();
        if store.check_compaction() {
            assert!(store.reclaimable_bytes() > 2048);
            let before = store.directory().len();
            let removed = store.compact();
            let after = store.directory().len();
            assert!(before > 2);
            assert!(after < before);
            assert_eq!(after, 2);
            assert_eq!(removed.len(), before - 1);
            assert_eq!(store.reclaimable_bytes(), 0);
            assert_eq!(store.get(b"k").unwrap(), Some(last.clone()));
            compactions += 1;
        }
    }
    assert!(compactions >= 1);
    assert_eq!(store.get(b"k").unwrap(), Some(last));
}

#[test]
fn crash_after_put_keeps_the_put() {
    let mut store = KvStore::open_with(Directory::new(), test_config()).unwrap();
    store.put(b"k", b"v", 1).unwrap();
    let disk = store.directory().clone();
    drop(store);
    let again = KvStore::open_with(disk, test_config()).unwrap();
    assert_eq!(again.get(b"k").unwrap(), Some(b"v".to_vec()));
}

#[test]
fn every_acknowledged_prefix_survives_a_crash() {
    let mut store = KvStore::open_with(Directory::new(), test_config()).unwrap();
    let mut model: HashMap<Vec<u8>, Vec<u8>> = HashMap::new();
    for step in 0..60u32 {
        let key = vec![b'k', (step % 7) as u8];
        if step % 5 == 4 {
            store.delete(&key, step as i64).unwrap();
            model.remove(&key);
        } else {
            let value = vec![step as u8; (step as usize * 13) % 200];
            store.put(&key, &value, step as i64).unwrap();
            model.insert(key, value);
        }
        let again = reopen(&store);
        for k in 0..7u8 {
            let key = vec![b'k', k];
            assert_eq!(again.get(&key).unwrap(), model.get(&key).cloned());
        }
    }
}

#[test]
fn truncated_last_byte_loses_only_the_last_record() {
    let mut bytes = log_of(&[
        (RecordType::Put, 1, b"a", b"1"),
        (RecordType::Put, 2, b"b", b"2"),
        (RecordType::Put, 3, b"c", b"3"),
    ]);
    bytes.pop();
    let mut dir = Directory::new();
    dir.add_file(b"0.log", bytes);
    let store = KvStore::open_with(dir, test_config()).unwrap();
    assert_eq!(store.get(b"a").unwrap(), Some(b"1".to_vec()));
    assert_eq!(store.get(b"b").unwrap(), Some(b"2".to_vec()));
    assert_eq!(store.get(b"c").unwrap(), None);
}

#[test]
fn truncation_inside_a_header_is_passed_over() {
    let mut bytes = log_of(&[(RecordType::Put, 1, b"a", b"1"), (RecordType::Put, 2, b"b", b"2")]);
    bytes.truncate(19 + 5);
    let mut dir = Directory::new();
    dir.add_file(b"0.log", bytes);
    let store = KvStore::open_with(dir, test_config()).unwrap();
    assert_eq!(store.get(b"a").unwrap(), Some(b"1".to_vec()));
    assert_eq!(store.get(b"b").unwrap(), None);
}

#[test]
fn truncated_sealed_segment_does_not_hide_later_segments() {
    let mut first = log_of(&[(RecordType::Put, 1, b"a", b"1"), (RecordType::Put, 2, b"b", b"2")]);
    first.pop();
    let second = log_of(&[(RecordType::Put, 3, b"c", b"3")]);
    let mut dir = Directory::new();
    dir.add_file(b"0.log", first);
    dir.add_file(b"1.log", second);
    let store = KvStore::open_with(dir, test_config()).unwrap();
    assert_eq!(store.get(b"a").unwrap(), Some(b"1".to_vec()));
    assert_eq!(store.get(b"b").unwrap(), None);
    assert_eq!(store.get(b"c").unwrap(), Some(b"3".to_vec()));
}

#[test]
fn reopen_of_an_empty_store_is_empty() {
    let store = KvStore::open_with(Directory::new(), test_config()).unwrap();
    let again = reopen(&store);
    assert_eq!(again.directory().len(), 0);
    assert_eq!(again.current_id(), 0);
    assert_eq!(again.get(b"k").unwrap(), None);
}

#[test]
fn get_follows_the_last_write_of_each_key() {
    let mut store = KvStore::open_with(Directory::new(), test_config()).unwrap();
    let mut model: HashMap<Vec<u8>, Vec<u8>> = HashMap::new();
    let mut seed: u32 = 12345;
    for step in 0..400u32 {
        seed = seed.wrapping_mul(1_103_515_245).wrapping_add(12345);
        let key = vec![b'k', ((seed >> 16) % 11) as u8];
        if (seed >> 8) % 4 == 0 {
            store.delete(&key, step as i64).unwrap();
            model.remove(&key);
        } else {
            let value = vec![(seed >> 24) as u8; ((seed >> 4) % 150) as usize];
            store.put(&key, &value, step as i64).unwrap();
            model.insert(key, value);
        }
        if store.check_compaction() {
            let before = store.directory().len();
            store.compact();
            assert!(store.directory().len() <= before);
        }
        for k in 0..11u8 {
            let key = vec![b'k', k];
            assert_eq!(store.get(&key).unwrap(), model.get(&key).cloned());
        }
    }
    let again = reopen(&store);
    for k in 0..11u8 {
        let key = vec![b'k', k];
        assert_eq!(again.get(&key).unwrap(), model.get(&key).cloned());
    }
}

#[test]
fn reopen_after_compaction_keeps_the_contents() {
    let config = Config { max_segment_bytes: 40, max_reclaimable_bytes: 0, fsync_on_write: true };
    let mut store = KvStore::open_with(Directory::new(), config).unwrap();
    store.put(b"a", b"1", 1).unwrap();
    store.put(b"b", b"2", 2).unwrap();
    store.put(b"c", b"3", 3).unwrap();
    store.put(b"a", b"4", 4).unwrap();
    store.delete(b"b", 5).unwrap();
    store.put(b"d", b"6", 6).unwrap();
    store.put(b"e", b"7", 7).unwrap();
    store.compact();
    let again = reopen(&store);
    assert_eq!(again.get(b"a").unwrap(), Some(b"4".to_vec()));
    assert_eq!(again.get(b"b").unwrap(), None);
    assert_eq!(again.get(b"c").unwrap(), Some(b"3".to_vec()));
    assert_eq!(again.get(b"d").unwrap(), Some(b"6".to_vec()));
    assert_eq!(again.get(b"e").unwrap(), Some(b"7".to_vec()));
    for key in [&b"a"[..], b"c", b"d", b"e"] {
        assert_eq!(again.locate(key), store.locate(key));
    }
}

#[test]
fn a_write_behind_a_truncated_tail_is_not_found_again() {
    let mut bytes = log_of(&[(RecordType::Put, 1, b"a", b"1"), (RecordType::Put, 2, b"b", b"2")]);
    bytes.pop();
    let mut dir = Directory::new();
    dir.add_file(b"0.log", bytes);
    let mut store = KvStore::open_with(dir, test_config()).unwrap();
    store.put(b"c", b"3", 3).unwrap();
    assert_eq!(store.get(b"c").unwrap(), Some(b"3".to_vec()));
    let again = reopen(&store);
    assert_eq!(again.get(b"a").unwrap(), Some(b"1".to_vec()));
    assert_ne!(again.get(b"c").unwrap(), Some(b"3".to_vec()));
}

#[test]
fn whole_records_end_before_the_truncated_tail() {
    let bytes = log_of(&[
        (RecordType::Put, 1, b"a", b"1"),
        (RecordType::Put, 2, b"bb", b"22"),
        (RecordType::Delete, 3, b"a", b""),
    ]);
    assert_eq!(whole_records_len(&bytes), 19 + 21 + 18);
    assert_eq!(whole_records_len(&bytes[..57]), 40);
    assert_eq!(whole_records_len(&bytes[..41]), 40);
    assert_eq!(whole_records_len(&bytes[..40]), 40);
    assert_eq!(whole_records_len(&bytes[..39]), 19);
    assert_eq!(whole_records_len(&bytes[..16]), 0);
    assert_eq!(whole_records_len(&[]), 0);
}

#[test]
fn trim_cuts_only_a_truncated_tail() {
    let mut empty = Directory::new();
    assert_eq!(trim_torn_tail(&mut empty), None);

    let whole = log_of(&[(RecordType::Put, 1, b"a", b"1"), (RecordType::Put, 2, b"b", b"2")]);
    let mut torn = whole.clone();
    torn.extend_from_slice(&[0, 9, 9]);

    let mut dir = Directory::new();
    dir.put_segment(0, torn.clone());
    dir.put_segment(1, whole.clone());
    assert_eq!(trim_torn_tail(&mut dir), None);
    assert_eq!(dir.data(0), Some(&torn));
    assert_eq!(dir.data(1), Some(&whole));

    let mut dir = Directory::new();
    dir.put_segment(0, whole.clone());
    dir.put_segment(1, torn.clone());
    assert_eq!(trim_torn_tail(&mut dir), Some((1, 38)));
    assert_eq!(dir.data(0), Some(&whole));
    assert_eq!(dir.data(1), Some(&whole));
    assert_eq!(trim_torn_tail(&mut dir), None);
}

#[test]
fn a_write_after_trimming_is_found_again() {
    let mut bytes = log_of(&[(RecordType::Put, 1, b"a", b"1"), (RecordType::Put, 2, b"b", b"2")]);
    bytes.pop();
    let mut dir = Directory::new();
    dir.add_file(b"0.log", bytes);
    assert_eq!(trim_torn_tail(&mut dir), Some((0, 19)));
    let mut store = KvStore::open_with(dir, test_config()).unwrap();
    assert_eq!(store.get(b"a").unwrap(), Some(b"1".to_vec()));
    assert_eq!(store.get(b"b").unwrap(), None);
    store.put(b"c", b"3", 3).unwrap();
    let again = reopen(&store);
    assert_eq!(again.get(b"a").unwrap(), Some(b"1".to_vec()));
    assert_eq!(again.get(b"b").unwrap(), None);
    assert_eq!(again.get(b"c").unwrap(), Some(b"3".to_vec()));
}

#[test]
fn truncate_segment_shortens_one_segment() {
    let mut dir = Directory::new();
    dir.put_segment(3, vec![1, 2, 3, 4]);
    dir.put_segment(5, vec![5, 6]);
    dir.truncate_segment(3, 2);
    assert_eq!(dir.data(3), Some(&vec![1u8, 2]));
    assert_eq!(dir.data(5), Some(&vec![5u8, 6]));
    dir.truncate_segment(5, 9);
    assert_eq!(dir.data(5), Some(&vec![5u8, 6]));
    dir.truncate_segment(4, 0);
    assert_eq!(dir.list_segments(), vec![3, 5]);
}

#[test]
fn cycles_interleaved_with_writes_keep_every_answer() {
    let config = Config { max_segment_bytes: 200, max_reclaimable_bytes: 300, fsync_on_write: true };
    let mut store = KvStore::open_with(Directory::new(), config).unwrap();
    let mut model: HashMap<Vec<u8>, Vec<u8>> = HashMap::new();
    let mut seed: u32 = 99;
    let mut committed = 0;
    for step in 0..600u32 {
        seed = seed.wrapping_mul(1_103_515_245).wrapping_add(12345);
        let key = vec![b'k', ((seed >> 16) % 13) as u8];
        if (seed >> 8) % 5 == 0 {
            store.delete(&key, step as i64).unwrap();
            model.remove(&key);
        } else {
            let value = vec![(seed >> 24) as u8; ((seed >> 4) % 60) as usize];
            store.put(&key, &value, step as i64).unwrap();
            model.insert(key, value);
        }
        if step % 7 == 3 && store.compacted_bytes().is_none() && store.check_compaction() {
            assert!(store.begin_compaction());
        }
        if step % 7 == 6 && store.compacted_bytes().is_some() {
            let before = store.directory().len();
            let removed = store.commit_compaction();
            assert!(!removed.is_empty());
            assert_eq!(store.directory().len(), before - removed.len() + 1);
            assert_eq!(store.directory().list_segments()[0], 0);
            committed += 1;
        }
        for k in 0..13u8 {
            let key = vec![b'k', k];
            assert_eq!(store.get(&key).unwrap(), model.get(&key).cloned());
        }
        if step % 11 == 0 {
            let again = reopen(&store);
            for k in 0..13u8 {
                let key = vec![b'k', k];
                assert_eq!(again.get(&key).unwrap(), model.get(&key).cloned());
            }
        }
    }
    assert!(committed >= 3);
}
