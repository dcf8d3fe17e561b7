use miniredis::rdb::{empty_rdb, full_resync_rdb, rdb_encode, rdb_frame};
use miniredis::store::{Entry, Store};

#[test]
fn snapshot_round_trip_plain_and_expiring() {
    let mut store = Store::new();
    store.set_kv_value(b"alpha".to_vec(), Entry::new(b"one".to_vec(), None, 0));
    store.set_kv_value(b"beta".to_vec(), Entry::new(b"two".to_vec(), Some(5000), 1000));
    let bytes = rdb_encode(&store).expect("small entries must encode");

    let mut back = Store::new();
    back.import(&bytes);
    let a = back.get_kv_value(&b"alpha".to_vec(), 0).unwrap();
    assert_eq!(a.value, b"one".to_vec());
    assert_eq!(a.expiry_at, None);
    let b = back.get_kv_value(&b"beta".to_vec(), 0).unwrap();
    assert_eq!(b.value, b"two".to_vec());
    assert_eq!(b.expiry_at, Some(6000));
    assert_eq!(back.len(), 2);
}

#[test]
fn expired_snapshot_entry_reads_absent() {
    let mut store = Store::new();
    store.set_kv_value(b"k".to_vec(), Entry::new(b"v".to_vec(), Some(100), 0));
    let bytes = rdb_encode(&store).unwrap();
    let mut back = Store::new();
    back.import(&bytes);
    assert!(back.get_kv_value(&b"k".to_vec(), 50).is_some());
    assert!(back.get_kv_value(&b"k".to_vec(), 500).is_none());
}

#[test]
fn empty_snapshot_layout() {
    let payload = empty_rdb();
    // magic + version, selector, resize hint, terminator, checksum bytes
    assert_eq!(payload.len(), 23);
    assert_eq!(&payload[0..9], b"REDIS0011");
    assert_eq!(payload[9], 0xFE);
    assert_eq!(payload[10], 0x00);
    assert_eq!(payload[11], 0xFB);
    assert_eq!(payload[14], 0xFF);
}

#[test]
fn full_resync_frame_has_no_trailing_crlf() {
    let framed = full_resync_rdb();
    let payload = empty_rdb();
    let mut expect = format!("${}\r\n", payload.len()).into_bytes();
    expect.extend_from_slice(&payload);
    assert_eq!(framed, expect);
}

#[test]
fn frame_wraps_any_payload() {
    let framed = rdb_frame(&b"abc".to_vec());
    assert_eq!(framed, b"$3\r\nabc".to_vec());
}

#[test]
fn import_ignores_garbage() {
    let mut store = Store::new();
    store.set_kv_value(b"kept".to_vec(), Entry::new(b"v".to_vec(), None, 0));
    store.import(&b"not a snapshot at all".to_vec());
    assert_eq!(store.len(), 1);
    assert!(store.get_kv_value(&b"kept".to_vec(), 0).is_some());
}

#[test]
fn import_accepts_second_expiry_form() {
    // header, selector, resize hint, one entry with a 0xFD seconds expiry
    let mut data: Vec<u8> = Vec::new();
    data.extend_from_slice(b"REDIS0011");
    data.extend_from_slice(&[0xFE, 0x00, 0xFB, 1, 0]);
    data.push(0xFD);
    data.extend_from_slice(&7u32.to_le_bytes());
    data.push(0x00);
    data.push(1);
    data.push(b'k');
    data.push(1);
    data.push(b'v');
    data.push(0xFF);
    data.extend_from_slice(&[0; 8]);
    let mut store = Store::new();
    store.import(&data);
    let e = store.get_kv_value(&b"k".to_vec(), 0).unwrap();
    assert_eq!(e.expiry_at, Some(7000));
}

#[test]
fn oversized_value_cannot_encode() {
    let mut store = Store::new();
    store.set_kv_value(b"big".to_vec(), Entry::new(vec![7u8; 300], None, 0));
    assert!(rdb_encode(&store).is_none());
}

#[test]
fn too_many_entries_cannot_encode() {
    let mut store = Store::new();
    for i in 0..300u32 {
        let key = format!("key-{i}").into_bytes();
        store.set_kv_value(key, Entry::new(b"v".to_vec(), None, 0));
    }
    assert!(rdb_encode(&store).is_none());
}

#[test]
fn snapshot_at_the_count_cap_encodes() {
    let mut store = Store::new();
    for i in 0..255u32 {
        let key = format!("k{i}").into_bytes();
        store.set_kv_value(key, Entry::new(b"v".to_vec(), None, 0));
    }
    let bytes = rdb_encode(&store).expect("255 short entries fit the one-byte form");
    let mut back = Store::new();
    back.import(&bytes);
    assert_eq!(back.len(), 255);
    assert!(back.get_kv_value(&b"k254".to_vec(), 0).is_some());
}
