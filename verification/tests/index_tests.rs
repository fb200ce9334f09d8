//! The staging index: ordering, idempotence, persistence, and the
//! round trip through the object store.

use janus::index::{parse_index_entries, Index, IndexEntry, StageOutcome, UnstageOutcome};
use janus::object::ObjectKind;
use janus::store::ObjectStore;

const HELLO_HASH: &str = "2cf24dba5fb0a30e26e83b2ac5b9e29e1b161e5c1fa7425e73043362938b9824";

#[test]
fn round_trip_notes_txt() {
    let mut index = Index::new();
    let mut store = ObjectStore::new();
    let path = b"notes.txt".to_vec();
    let content = b"hello".to_vec();
    let outcome = index.add(&path, &content, &mut store).unwrap();
    assert_eq!(outcome, StageOutcome::Added);

    let listed = index.list();
    assert_eq!(listed.len(), 1);
    assert_eq!(listed[0].path, path);
    assert_eq!(listed[0].hash, HELLO_HASH.as_bytes().to_vec());

    let rec = store.get(&listed[0].hash).unwrap();
    assert_eq!(rec.kind, ObjectKind::Blob);
    assert_eq!(rec.payload, content);
}

#[test]
fn staging_unseen_path_is_idempotent() {
    let mut index = Index::new();
    let mut store = ObjectStore::new();
    let path = b"src/main.rs".to_vec();
    let content = b"fn main() {}".to_vec();

    assert_eq!(index.add(&path, &content, &mut store).unwrap(), StageOutcome::Added);
    let once: Vec<Vec<u8>> = index.status();
    assert_eq!(once, vec![path.clone()]);

    assert_eq!(index.add(&path, &content, &mut store).unwrap(), StageOutcome::AlreadyStaged);
    assert_eq!(index.status(), once);
    assert_eq!(store.object_count(), 1);
}

#[test]
fn list_is_always_sorted() {
    let mut index = Index::new();
    let mut store = ObjectStore::new();
    let paths: [&[u8]; 5] = [b"zebra.txt", b"alpha.txt", b"m/n.txt", b"m.txt", b"beta.txt"];
    for p in paths {
        index.add(&p.to_vec(), &b"x".to_vec(), &mut store).unwrap();
    }
    index.remove(&b"m.txt".to_vec());
    index.add(&b"aa.txt".to_vec(), &b"y".to_vec(), &mut store).unwrap();

    let listed = index.status();
    for w in listed.windows(2) {
        assert!(w[0] < w[1], "status not strictly ascending");
    }
    assert_eq!(
        listed,
        vec![
            b"aa.txt".to_vec(),
            b"alpha.txt".to_vec(),
            b"beta.txt".to_vec(),
            b"m/n.txt".to_vec(),
            b"zebra.txt".to_vec(),
        ]
    );
}

#[test]
fn unstage_reports_and_removes() {
    let mut index = Index::new();
    let mut store = ObjectStore::new();
    let path = b"gone.txt".to_vec();
    index.add(&path, &b"data".to_vec(), &mut store).unwrap();
    assert_eq!(index.remove(&path), UnstageOutcome::Removed);
    assert_eq!(index.entry_count(), 0);
    assert_eq!(index.remove(&path), UnstageOutcome::NotStaged);
    // objects are retained even when unreferenced
    assert_eq!(store.object_count(), 1);
}

#[test]
fn persistence_round_trip() {
    let mut index = Index::new();
    let mut store = ObjectStore::new();
    index.add(&b"b.txt".to_vec(), &b"two".to_vec(), &mut store).unwrap();
    index.add(&b"a.txt".to_vec(), &b"one".to_vec(), &mut store).unwrap();

    let text = index.write_index_entries();
    let reread = parse_index_entries(&text).unwrap();
    assert_eq!(reread.entry_count(), 2);
    assert_eq!(reread.status(), index.status());
    assert_eq!(reread.write_index_entries(), text);
}

#[test]
fn persistence_format_is_hash_space_path() {
    let mut index = Index::new();
    let mut store = ObjectStore::new();
    index.add(&b"notes.txt".to_vec(), &b"hello".to_vec(), &mut store).unwrap();
    let text = index.write_index_entries();
    let expected = format!("{} notes.txt\n", HELLO_HASH);
    assert_eq!(text, expected.into_bytes());
}

#[test]
fn malformed_index_text_is_rejected() {
    // no final newline
    let mut good = format!("{} a.txt\n", HELLO_HASH).into_bytes();
    good.extend_from_slice(format!("{} b.txt", HELLO_HASH).as_bytes());
    assert!(parse_index_entries(&good).is_none());
    // short hash
    assert!(parse_index_entries(&b"abc a.txt\n".to_vec()).is_none());
    // unsorted entries
    let unsorted = format!("{h} b.txt\n{h} a.txt\n", h = HELLO_HASH).into_bytes();
    assert!(parse_index_entries(&unsorted).is_none());
    // duplicate path is not strictly ascending
    let dup = format!("{h} a.txt\n{h} a.txt\n", h = HELLO_HASH).into_bytes();
    assert!(parse_index_entries(&dup).is_none());
}

#[test]
fn empty_index_text_parses_empty() {
    let parsed = parse_index_entries(&Vec::new()).unwrap();
    assert_eq!(parsed.entry_count(), 0);
}

#[test]
fn add_index_entry_places_sorted() {
    let mut index = Index::new();
    let hash = HELLO_HASH.as_bytes().to_vec();
    index.add_index_entry(IndexEntry { hash: hash.clone(), path: b"m.txt".to_vec() });
    index.add_index_entry(IndexEntry { hash: hash.clone(), path: b"a.txt".to_vec() });
    index.add_index_entry(IndexEntry { hash: hash.clone(), path: b"z.txt".to_vec() });
    // same path again keeps the first entry
    index.add_index_entry(IndexEntry { hash: hash.clone(), path: b"a.txt".to_vec() });
    assert_eq!(
        index.status(),
        vec![b"a.txt".to_vec(), b"m.txt".to_vec(), b"z.txt".to_vec()]
    );
}
