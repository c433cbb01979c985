use kv_db::index::{Entry, Index};

fn at(segment_id: u64, offset: u64, record_len: u64) -> Entry {
    Entry { segment_id, offset, record_len }
}

#[test]
fn empty_index_holds_nothing() {
    let index = Index::new();
    assert_eq!(index.len(), 0);
    assert_eq!(index.get(b"a"), None);
    assert_eq!(index.get(b""), None);
}

#[test]
fn insert_then_get() {
    let mut index = Index::new();
    assert_eq!(index.insert(b"a", at(0, 0, 19)), None);
    assert_eq!(index.insert(b"b", at(0, 19, 20)), None);
    assert_eq!(index.get(b"a"), Some(at(0, 0, 19)));
    assert_eq!(index.get(b"b"), Some(at(0, 19, 20)));
    assert_eq!(index.get(b"c"), None);
    assert_eq!(index.len(), 2);
}

#[test]
fn insert_replaces_and_returns_the_old_entry() {
    let mut index = Index::new();
    index.insert(b"a", at(0, 0, 19));
    assert_eq!(index.insert(b"a", at(1, 5, 30)), Some(at(0, 0, 19)));
    assert_eq!(index.get(b"a"), Some(at(1, 5, 30)));
    assert_eq!(index.len(), 1);
}

#[test]
fn remove_returns_the_entry_and_leaves_the_others() {
    let mut index = Index::new();
    index.insert(b"a", at(0, 0, 19));
    index.insert(b"b", at(0, 19, 20));
    index.insert(b"c", at(0, 39, 21));
    assert_eq!(index.remove(b"a"), Some(at(0, 0, 19)));
    assert_eq!(index.get(b"a"), None);
    assert_eq!(index.get(b"b"), Some(at(0, 19, 20)));
    assert_eq!(index.get(b"c"), Some(at(0, 39, 21)));
    assert_eq!(index.len(), 2);
    assert_eq!(index.remove(b"a"), None);
    assert_eq!(index.len(), 2);
}

#[test]
fn keys_are_compared_bytewise() {
    let mut index = Index::new();
    index.insert(b"", at(0, 0, 17));
    index.insert(b"a", at(0, 17, 18));
    index.insert(b"a\0", at(0, 35, 19));
    index.insert(b"A", at(0, 54, 18));
    assert_eq!(index.get(b""), Some(at(0, 0, 17)));
    assert_eq!(index.get(b"a"), Some(at(0, 17, 18)));
    assert_eq!(index.get(b"a\0"), Some(at(0, 35, 19)));
    assert_eq!(index.get(b"A"), Some(at(0, 54, 18)));
    assert_eq!(index.len(), 4);
}

#[test]
fn the_index_owns_its_keys() {
    let mut index = Index::new();
    let mut key = b"key".to_vec();
    index.insert(&key, at(0, 0, 20));
    key[0] = b'x';
    assert_eq!(index.get(b"key"), Some(at(0, 0, 20)));
    assert_eq!(index.get(&key), None);
}

#[test]
fn slots_can_be_walked_and_moved() {
    let mut index = Index::new();
    index.insert(b"a", at(3, 0, 19));
    index.insert(b"b", at(4, 19, 20));
    let mut seen: Vec<(Vec<u8>, Entry)> = Vec::new();
    for i in 0..index.len() {
        seen.push((index.key_at(i).clone(), index.entry_at(i)));
    }
    seen.sort_by(|x, y| x.0.cmp(&y.0));
    assert_eq!(seen, vec![(b"a".to_vec(), at(3, 0, 19)), (b"b".to_vec(), at(4, 19, 20))]);
    for i in 0..index.len() {
        let e = index.entry_at(i);
        index.set_entry_at(i, at(0, e.offset, e.record_len));
    }
    assert_eq!(index.get(b"a"), Some(at(0, 0, 19)));
    assert_eq!(index.get(b"b"), Some(at(0, 19, 20)));
}

#[test]
fn many_keys_are_all_found() {
    let mut index = Index::new();
    for n in 0..2000u32 {
        let key = n.to_le_bytes();
        assert_eq!(index.insert(&key, at(0, n as u64 * 21, 21)), None);
    }
    assert_eq!(index.len(), 2000);
    for n in 0..2000u32 {
        assert_eq!(index.get(&n.to_le_bytes()), Some(at(0, n as u64 * 21, 21)));
    }
    assert_eq!(index.get(&2000u32.to_le_bytes()), None);
    for n in (0..2000u32).filter(|n| n % 3 == 0) {
        assert_eq!(index.remove(&n.to_le_bytes()), Some(at(0, n as u64 * 21, 21)));
    }
    for n in 0..2000u32 {
        let expected = if n % 3 == 0 { None } else { Some(at(0, n as u64 * 21, 21)) };
        assert_eq!(index.get(&n.to_le_bytes()), expected);
    }
    assert_eq!(index.len(), 2000 - 667);
    for n in (0..2000u32).filter(|n| n % 3 == 0) {
        assert_eq!(index.insert(&n.to_le_bytes(), at(1, n as u64, 17)), None);
    }
    for n in 0..2000u32 {
        let expected = if n % 3 == 0 { at(1, n as u64, 17) } else { at(0, n as u64 * 21, 21) };
        assert_eq!(index.get(&n.to_le_bytes()), Some(expected));
    }
}

#[test]
fn remove_down_to_nothing() {
    let mut index = Index::new();
    for n in 0..100u8 {
        index.insert(&[n], at(0, n as u64, 18));
    }
    for n in 0..100u8 {
        assert_eq!(index.remove(&[n]), Some(at(0, n as u64, 18)));
        assert_eq!(index.get(&[n]), None);
    }
    assert_eq!(index.len(), 0);
    assert_eq!(index.insert(b"again", at(2, 0, 22)), None);
    assert_eq!(index.get(b"again"), Some(at(2, 0, 22)));
}

#[test]
fn hash_is_fnv_1a() {
    assert_eq!(kv_db::index::hash_key(b""), 0xcbf2_9ce4_8422_2325);
    assert_eq!(kv_db::index::hash_key(b"a"), 0xaf63_dc4c_8601_ec8c);
    assert_eq!(kv_db::index::hash_key(b"foobar"), 0x8594_4171_f739_67e8);
}
