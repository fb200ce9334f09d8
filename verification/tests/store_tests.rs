//! The content-addressed object store, end to end through the real
//! sha2 and zstd crates.

use janus::object::{encode_record, parse_record, ObjectKind, StoreError};
use janus::store::{cat_file, decode_object, shard_dir, shard_file, ObjectStore};

#[test]
fn put_then_get_returns_payload() {
    let mut store = ObjectStore::new();
    let payload = b"hello".to_vec();
    let hash = store.put(ObjectKind::Blob, &payload).unwrap();
    assert_eq!(hash.len(), 64);
    let rec = store.get(&hash).unwrap();
    assert_eq!(rec.kind, ObjectKind::Blob);
    assert_eq!(rec.size, 5);
    assert_eq!(rec.payload, payload);
}

#[test]
fn put_twice_same_hash_no_second_object() {
    let mut store = ObjectStore::new();
    let payload = b"duplicate content".to_vec();
    let h1 = store.put(ObjectKind::Blob, &payload).unwrap();
    assert_eq!(store.object_count(), 1);
    let h2 = store.put(ObjectKind::Blob, &payload).unwrap();
    assert_eq!(h1, h2);
    assert_eq!(store.object_count(), 1);
}

#[test]
fn get_unknown_hash_is_not_found() {
    let store = ObjectStore::new();
    let hash = vec![b'0'; 64];
    match store.get(&hash) {
        Err(StoreError::NotFound) => {},
        other => panic!("expected NotFound, got {:?}", other.map(|r| r.size)),
    }
}

#[test]
fn decode_garbage_is_corrupt() {
    let garbage = b"certainly not a zstd frame".to_vec();
    match decode_object(&garbage) {
        Err(StoreError::CorruptObject) => {},
        _ => panic!("expected CorruptObject"),
    }
    match cat_file(&garbage) {
        Err(StoreError::CorruptObject) => {},
        _ => panic!("expected CorruptObject"),
    }
}

#[test]
fn record_encoding_round_trip() {
    let payload = b"abc\0with a zero byte".to_vec();
    let enc = encode_record(ObjectKind::Tree, &payload);
    let rec = parse_record(&enc).unwrap();
    assert_eq!(rec.kind, ObjectKind::Tree);
    assert_eq!(rec.size, payload.len());
    assert_eq!(rec.payload, payload);
}

#[test]
fn record_header_shape() {
    let payload = b"hi".to_vec();
    let enc = encode_record(ObjectKind::Blob, &payload);
    assert_eq!(enc, b"blob 2\0hi".to_vec());
}

#[test]
fn malformed_records_are_rejected() {
    assert!(parse_record(&b"no separator".to_vec()).is_none());
    assert!(parse_record(&b"junk 2\0hi".to_vec()).is_none());
    assert!(parse_record(&b"blob 3\0hi".to_vec()).is_none());
    assert!(parse_record(&b"blob x\0hi".to_vec()).is_none());
}

#[test]
fn stored_objects_are_zstd_frames() {
    let mut store = ObjectStore::new();
    let payload = b"compressed on the way in".to_vec();
    store.put(ObjectKind::Blob, &payload).unwrap();
    let objects = store.objects();
    assert_eq!(objects.len(), 1);
    // a zstd frame starts with the magic number 0xFD2FB528, little-endian
    assert_eq!(&objects[0].data[0..4], &[0x28, 0xB5, 0x2F, 0xFD]);
    assert_ne!(objects[0].data, encode_record(ObjectKind::Blob, &payload));
}

#[test]
fn sharding_splits_after_two_characters() {
    let mut store = ObjectStore::new();
    let payload = b"sharded".to_vec();
    let hash = store.put(ObjectKind::Blob, &payload).unwrap();
    let dir = shard_dir(&hash);
    let file = shard_file(&hash);
    assert_eq!(dir.len(), 2);
    assert_eq!(file.len(), 62);
    assert_eq!([dir.clone(), file.clone()].concat(), hash);
}
