use pressurize::bytes::ByteOrder;
use pressurize::key::Key;
use pressurize::record::{encode_key, encode_u64};
use pressurize::snapshot::{to_map, DecodeError, RawRecord, Snapshot};

fn record(cpu: i32, pid: i32, name: &str, value: u64, order: ByteOrder) -> RawRecord {
    RawRecord {
        key: encode_key(&Key::new(cpu, pid, name), order).unwrap(),
        value: encode_u64(value, order),
    }
}

const NAME: &str = "sixteen-byte-cmd";

#[test]
fn empty_snapshot() {
    let snapshot = Snapshot::new();
    assert_eq!(snapshot.len(), 0);
    assert_eq!(snapshot.entry(0), None);
    assert_eq!(snapshot.get(&Key::new(0, 0, "a")), None);
}

#[test]
fn insert_binds_and_get_finds() {
    let mut snapshot = Snapshot::new();
    snapshot.insert(Key::new(0, 100, "a"), 1000);
    snapshot.insert(Key::new(1, 100, "a"), 7);
    assert_eq!(snapshot.len(), 2);
    assert_eq!(snapshot.get(&Key::new(0, 100, "a")), Some(1000));
    assert_eq!(snapshot.get(&Key::new(1, 100, "a")), Some(7));
    assert_eq!(snapshot.get(&Key::new(2, 100, "a")), None);
}

#[test]
fn insert_of_a_held_key_replaces_the_value_in_place() {
    let mut snapshot = Snapshot::new();
    snapshot.insert(Key::new(0, 1, "a"), 10);
    snapshot.insert(Key::new(0, 2, "b"), 20);
    snapshot.insert(Key::new(0, 1, "a"), 30);
    assert_eq!(snapshot.len(), 2);
    assert_eq!(snapshot.entry(0), Some((&Key::new(0, 1, "a"), 30)));
    assert_eq!(snapshot.entry(1), Some((&Key::new(0, 2, "b"), 20)));
    assert_eq!(snapshot.entry(2), None);
}

#[test]
fn keys_differ_by_any_one_field() {
    let mut snapshot = Snapshot::new();
    snapshot.insert(Key::new(0, 1, "a"), 1);
    snapshot.insert(Key::new(1, 1, "a"), 2);
    snapshot.insert(Key::new(0, 2, "a"), 3);
    snapshot.insert(Key::new(0, 1, "b"), 4);
    assert_eq!(snapshot.len(), 4);
    assert_eq!(snapshot.get(&Key::new(0, 1, "b")), Some(4));
}

#[test]
fn table_of_no_records_gives_the_empty_snapshot() {
    let snapshot = to_map(&Vec::new(), ByteOrder::Little).unwrap();
    assert_eq!(snapshot.len(), 0);
}

#[test]
fn table_is_decoded_record_by_record() {
    for order in [ByteOrder::Little, ByteOrder::Big] {
        let records = vec![
            record(0, 100, NAME, 1000, order),
            record(1, 100, NAME, 5, order),
            record(-1, -1, NAME, u64::MAX, order),
        ];
        let snapshot = to_map(&records, order).unwrap();
        assert_eq!(snapshot.len(), 3);
        assert_eq!(snapshot.get(&Key::new(0, 100, NAME)), Some(1000));
        assert_eq!(snapshot.get(&Key::new(1, 100, NAME)), Some(5));
        assert_eq!(snapshot.get(&Key::new(-1, -1, NAME)), Some(u64::MAX));
        assert_eq!(snapshot.entry(0), Some((&Key::new(0, 100, NAME), 1000)));
        assert_eq!(snapshot.entry(2), Some((&Key::new(-1, -1, NAME), u64::MAX)));
    }
}

#[test]
fn table_in_native_order() {
    let order = ByteOrder::native();
    let mut key = Vec::new();
    key.extend_from_slice(&3i32.to_ne_bytes());
    key.extend_from_slice(&4242i32.to_ne_bytes());
    key.extend_from_slice(NAME.as_bytes());
    let records = vec![RawRecord { key, value: 123456789u64.to_ne_bytes().to_vec() }];
    let snapshot = to_map(&records, order).unwrap();
    assert_eq!(snapshot.get(&Key::new(3, 4242, NAME)), Some(123456789));
}

#[test]
fn duplicate_key_last_write_wins() {
    let order = ByteOrder::Little;
    let records = vec![
        record(0, 100, NAME, 1, order),
        record(0, 200, NAME, 2, order),
        record(0, 100, NAME, 3, order),
    ];
    let snapshot = to_map(&records, order).unwrap();
    assert_eq!(snapshot.len(), 2);
    assert_eq!(snapshot.get(&Key::new(0, 100, NAME)), Some(3));
    assert_eq!(snapshot.get(&Key::new(0, 200, NAME)), Some(2));
    assert_eq!(snapshot.entry(0), Some((&Key::new(0, 100, NAME), 3)));
    assert_eq!(snapshot.entry(1), Some((&Key::new(0, 200, NAME), 2)));
}

#[test]
fn short_and_long_values_are_accepted() {
    let order = ByteOrder::Little;
    let key = encode_key(&Key::new(0, 1, NAME), order).unwrap();
    let short = to_map(&vec![RawRecord { key: key.clone(), value: vec![0xe8, 0x03] }], order).unwrap();
    assert_eq!(short.get(&Key::new(0, 1, NAME)), Some(1000));
    let long = vec![RawRecord { key: key.clone(), value: vec![1, 0, 0, 0, 0, 0, 0, 0, 0xff, 0xff] }];
    assert_eq!(to_map(&long, order).unwrap().get(&Key::new(0, 1, NAME)), Some(1));
    let empty = vec![RawRecord { key, value: vec![] }];
    assert_eq!(to_map(&empty, order).unwrap().get(&Key::new(0, 1, NAME)), Some(0));
}

#[test]
fn malformed_name_does_not_fail_the_table() {
    let order = ByteOrder::Little;
    let mut key = encode_key(&Key::new(5, 6, NAME), order).unwrap();
    key[8] = 0xff;
    let records = vec![RawRecord { key, value: encode_u64(9, order) }, record(0, 1, NAME, 2, order)];
    let snapshot = to_map(&records, order).unwrap();
    assert_eq!(snapshot.len(), 2);
    assert_eq!(snapshot.get(&Key::new(5, 6, "")), Some(9));
}

#[test]
fn key_of_wrong_size_fails_the_table_and_is_named() {
    let order = ByteOrder::Little;
    let mut bad = record(0, 2, NAME, 2, order);
    bad.key.pop();
    let records = vec![record(0, 1, NAME, 1, order), bad, record(0, 3, NAME, 3, order)];
    match to_map(&records, order) {
        Err(e) => assert_eq!(e, DecodeError::KeySize { index: 1, len: 23 }),
        Ok(_) => panic!("a key of 23 bytes was accepted"),
    }
}

#[test]
fn first_key_of_wrong_size_is_the_one_named() {
    let order = ByteOrder::Big;
    let records = vec![
        RawRecord { key: vec![0; 25], value: vec![] },
        RawRecord { key: vec![], value: vec![] },
    ];
    match to_map(&records, order) {
        Err(e) => assert_eq!(e, DecodeError::KeySize { index: 0, len: 25 }),
        Ok(_) => panic!("a key of 25 bytes was accepted"),
    }
}

#[test]
fn keys_with_the_same_hash_are_kept_apart() {
    let first = Key::new(0, -1795162547, NAME);
    let second = Key::new(-1761607681, 0, NAME);
    assert_eq!(first.hash_code(), second.hash_code());
    let mut snapshot = Snapshot::new();
    snapshot.insert(first.clone(), 1);
    snapshot.insert(second.clone(), 2);
    snapshot.insert(Key::new(9, 9, NAME), 3);
    snapshot.insert(first.clone(), 4);
    assert_eq!(snapshot.len(), 3);
    assert_eq!(snapshot.get(&first), Some(4));
    assert_eq!(snapshot.get(&second), Some(2));
    assert_eq!(snapshot.entry(0), Some((&first, 4)));
    assert_eq!(snapshot.entry(1), Some((&second, 2)));
}

#[test]
fn large_table_keeps_every_key() {
    let order = ByteOrder::Little;
    let mut records = Vec::new();
    for i in 0..3000i32 {
        records.push(record(i % 64, i, NAME, i as u64 * 7, order));
    }
    for i in 0..3000i32 {
        if i % 3 == 0 {
            records.push(record(i % 64, i, NAME, 1, order));
        }
    }
    let snapshot = to_map(&records, order).unwrap();
    assert_eq!(snapshot.len(), 3000);
    for i in 0..3000i32 {
        let expected = if i % 3 == 0 { 1 } else { i as u64 * 7 };
        assert_eq!(snapshot.get(&Key::new(i % 64, i, NAME)), Some(expected));
        assert_eq!(snapshot.entry(i as usize), Some((&Key::new(i % 64, i, NAME), expected)));
    }
    assert_eq!(snapshot.get(&Key::new(0, 3000, NAME)), None);
}

#[test]
fn short_names_are_decoded_without_padding() {
    let order = ByteOrder::Big;
    let records = vec![record(0, 100, "a", 1000, order), record(3, 7, "bash", 5, order)];
    let snapshot = to_map(&records, order).unwrap();
    assert_eq!(snapshot.get(&Key::new(0, 100, "a")), Some(1000));
    assert_eq!(snapshot.get(&Key::new(3, 7, "bash")), Some(5));
    assert_eq!(snapshot.entry(0).unwrap().0.as_tags()[1], "name:a");
}
