//! The snapshot builder: tree synthesis, canonical ordering, and
//! determinism of the written tree objects.

use janus::index::Index;
use janus::object::ObjectKind;
use janus::store::ObjectStore;
use janus::tree::{base_of, commit, parent_of, serialize_tree, TreeObject};
use sha2::Digest;

const HEX: &[u8; 16] = b"0123456789abcdef";

fn sha256_hex(data: &[u8]) -> Vec<u8> {
    let digest = sha2::Sha256::digest(data);
    let mut out = Vec::new();
    for b in digest.as_slice() {
        out.push(HEX[(b >> 4) as usize]);
        out.push(HEX[(b & 15) as usize]);
    }
    out
}

fn staged_fixture() -> (Index, ObjectStore) {
    let mut index = Index::new();
    let mut store = ObjectStore::new();
    index.add(&b"a/x.txt".to_vec(), &b"one".to_vec(), &mut store).unwrap();
    index.add(&b"a/y.txt".to_vec(), &b"two".to_vec(), &mut store).unwrap();
    index.add(&b"b/z.txt".to_vec(), &b"three".to_vec(), &mut store).unwrap();
    (index, store)
}

fn find_tree<'a>(trees: &'a [TreeObject], path: &[u8]) -> &'a TreeObject {
    trees.iter().find(|t| t.path == path.to_vec()).expect("tree not materialized")
}

#[test]
fn snapshot_builds_every_ancestor_bottom_up() {
    let (index, mut store) = staged_fixture();
    let trees = commit(&index, &mut store).unwrap();
    assert_eq!(trees.len(), 3);
    // deepest directories first, the root last
    assert_eq!(trees[0].path, b"b".to_vec());
    assert_eq!(trees[1].path, b"a".to_vec());
    assert_eq!(trees[2].path, b"".to_vec());

    let tree_a = find_tree(&trees, b"a");
    assert_eq!(tree_a.entries.len(), 2);
    assert_eq!(tree_a.entries[0].name, b"x.txt".to_vec());
    assert_eq!(tree_a.entries[0].kind, ObjectKind::Blob);
    assert_eq!(tree_a.entries[0].hash, sha256_hex(b"one"));
    assert_eq!(tree_a.entries[1].name, b"y.txt".to_vec());
    assert_eq!(tree_a.entries[1].hash, sha256_hex(b"two"));

    let root = find_tree(&trees, b"");
    assert_eq!(root.entries.len(), 2);
    assert_eq!(root.entries[0].name, b"a".to_vec());
    assert_eq!(root.entries[0].kind, ObjectKind::Tree);
    assert_eq!(root.entries[1].name, b"b".to_vec());
    assert_eq!(root.entries[1].kind, ObjectKind::Tree);

    // a root child's hash is the content hash of the child tree's record
    let tree_a_record = serialize_tree(&tree_a.entries);
    assert_eq!(root.entries[0].hash, sha256_hex(&tree_a_record));

    // every tree object went through the store as kind tree
    let rec = store.get(&root.entries[0].hash).unwrap();
    assert_eq!(rec.kind, ObjectKind::Tree);
    assert_eq!(rec.payload, tree_a_record);
}

#[test]
fn snapshot_is_deterministic() {
    let (index1, mut store1) = staged_fixture();
    let (index2, mut store2) = staged_fixture();
    let trees1 = commit(&index1, &mut store1).unwrap();
    let trees2 = commit(&index2, &mut store2).unwrap();
    assert_eq!(trees1.len(), trees2.len());
    for (t1, t2) in trees1.iter().zip(trees2.iter()) {
        assert_eq!(t1.path, t2.path);
        assert_eq!(serialize_tree(&t1.entries), serialize_tree(&t2.entries));
    }
    // byte-identical content for `a` and for the root
    let a1 = serialize_tree(&find_tree(&trees1, b"a").entries);
    let a2 = serialize_tree(&find_tree(&trees2, b"a").entries);
    assert_eq!(a1, a2);
    let r1 = serialize_tree(&find_tree(&trees1, b"").entries);
    let r2 = serialize_tree(&find_tree(&trees2, b"").entries);
    assert_eq!(r1, r2);
}

#[test]
fn tree_record_format() {
    let (index, mut store) = staged_fixture();
    let trees = commit(&index, &mut store).unwrap();
    let tree_b = find_tree(&trees, b"b");
    let record = serialize_tree(&tree_b.entries);
    let mut expected = b"blob ".to_vec();
    expected.extend_from_slice(&sha256_hex(b"three"));
    expected.extend_from_slice(b" z.txt\0");
    assert_eq!(record, expected);
}

#[test]
fn shared_parent_directory_collects_both_children() {
    let mut index = Index::new();
    let mut store = ObjectStore::new();
    index.add(&b"d/one.txt".to_vec(), &b"1".to_vec(), &mut store).unwrap();
    index.add(&b"d/two.txt".to_vec(), &b"2".to_vec(), &mut store).unwrap();
    let trees = commit(&index, &mut store).unwrap();
    // only `d` and the root are materialized
    assert_eq!(trees.len(), 2);
    let d = find_tree(&trees, b"d");
    assert_eq!(d.entries.len(), 2);
    assert_eq!(d.entries[0].name, b"one.txt".to_vec());
    assert_eq!(d.entries[1].name, b"two.txt".to_vec());
}

#[test]
fn empty_index_snapshots_nothing() {
    let index = Index::new();
    let mut store = ObjectStore::new();
    let trees = commit(&index, &mut store).unwrap();
    assert!(trees.is_empty());
    assert_eq!(store.object_count(), 0);
}

#[test]
fn path_helpers_split_on_last_slash() {
    assert_eq!(parent_of(&b"a/b/c.txt".to_vec()), b"a/b".to_vec());
    assert_eq!(parent_of(&b"c.txt".to_vec()), b"".to_vec());
    assert_eq!(base_of(&b"a/b/c.txt".to_vec()), b"c.txt".to_vec());
    assert_eq!(base_of(&b"c.txt".to_vec()), b"c.txt".to_vec());
}
