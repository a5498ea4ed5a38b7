use light_store::codec::encode_key;
use light_store::codec::encode_unit_key;
use light_store::table::{key_value, single, KeyValueDb, SingleDb};

#[test]
fn key_encoding_is_shortest_cbor() {
    assert_eq!(encode_key(0).unwrap(), vec![0x00]);
    assert_eq!(encode_key(23).unwrap(), vec![0x17]);
    assert_eq!(encode_key(24).unwrap(), vec![0x18, 0x18]);
    assert_eq!(encode_key(255).unwrap(), vec![0x18, 0xff]);
    assert_eq!(encode_key(256).unwrap(), vec![0x19, 0x01, 0x00]);
    assert_eq!(encode_key(900).unwrap(), vec![0x19, 0x03, 0x84]);
    assert_eq!(encode_key(65536).unwrap(), vec![0x1a, 0x00, 0x01, 0x00, 0x00]);
    assert_eq!(
        encode_key(589473798493).unwrap(),
        vec![0x1b, 0x00, 0x00, 0x00, 0x89, 0x3f, 0x60, 0x59, 0x5d]
    );
    assert_eq!(
        encode_key(u64::MAX).unwrap(),
        vec![0x1b, 0xff, 0xff, 0xff, 0xff, 0xff, 0xff, 0xff, 0xff]
    );
}

#[test]
fn unit_key_is_null() {
    assert_eq!(encode_unit_key().unwrap(), vec![0xf6]);
}

#[test]
fn key_value_round_trip() {
    let mut kv: KeyValueDb<u64> = key_value("light_store/verified");
    assert_eq!(kv.prefix(), "light_store/verified");
    kv.insert(1, 1).unwrap();
    kv.insert(589473798493, 589473798493).unwrap();
    kv.insert(12342425, 12342425).unwrap();
    kv.insert(4, 4).unwrap();
    assert_eq!(kv.get(12342425).unwrap(), Some(&12342425));
    assert_eq!(kv.get(5).unwrap(), None);
    assert!(kv.contains_key(4).unwrap());
    assert!(!kv.contains_key(3).unwrap());
    let mut values: Vec<u64> = kv.iter().into_iter().copied().collect();
    values.sort();
    assert_eq!(values, vec![1, 4, 12342425, 589473798493]);
    kv.remove(4).unwrap();
    kv.remove(4).unwrap();
    assert!(!kv.contains_key(4).unwrap());
    assert_eq!(kv.iter().len(), 3);
}

#[test]
fn key_value_insert_overwrites() {
    let mut kv: KeyValueDb<u64> = KeyValueDb::new("t");
    kv.insert(300, 1).unwrap();
    kv.insert(300, 2).unwrap();
    assert_eq!(kv.get(300).unwrap(), Some(&2));
    assert_eq!(kv.iter(), vec![&2]);
}

#[test]
fn single_cell_get_set() {
    let mut cell: SingleDb<u64> = single("light_store/state");
    assert_eq!(cell.get().unwrap(), None);
    cell.set(9).unwrap();
    assert_eq!(cell.get().unwrap(), Some(&9));
    cell.set(11).unwrap();
    assert_eq!(cell.get().unwrap(), Some(&11));
    let other: SingleDb<u64> = SingleDb::new("light_store/other");
    assert_eq!(other.get().unwrap(), None);
}

#[test]
fn iter_follows_key_byte_order() {
    let mut kv: KeyValueDb<u64> = key_value("light_store/verified");
    kv.insert(1, 1).unwrap();
    kv.insert(589473798493, 589473798493).unwrap();
    kv.insert(12342425, 12342425).unwrap();
    kv.insert(4, 4).unwrap();
    let values: Vec<u64> = kv.iter().into_iter().copied().collect();
    assert_eq!(values, vec![1, 4, 12342425, 589473798493]);
    assert_eq!(values.last(), Some(&589473798493));
}
