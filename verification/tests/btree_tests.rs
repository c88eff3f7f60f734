use basalt_engine::{BTree, BTreeError, Bound, MemStore, NodeStore};
use std::collections::BTreeMap;

fn new_store(page_size: usize) -> MemStore {
    MemStore::new(page_size)
}

fn key_for(i: usize) -> Vec<u8> {
    format!("key{i:05}").into_bytes()
}

fn value_for(i: usize) -> Vec<u8> {
    format!("value{i:05}").into_bytes()
}

#[test]
fn empty_tree_lookup_and_scan() {
    let mut store = new_store(256);
    let tree = BTree::create_empty(&mut store).unwrap();
    assert_eq!(tree.lookup(&mut store, b"anything").unwrap(), None);
    assert_eq!(tree.scan_all(&mut store).unwrap(), Vec::new());
}

#[test]
fn insert_then_lookup_round_trips() {
    let mut store = new_store(256);
    let mut tree = BTree::create_empty(&mut store).unwrap();
    tree.insert(&mut store, b"foo", b"bar").unwrap();
    assert_eq!(tree.lookup(&mut store, b"foo").unwrap(), Some(b"bar".to_vec()));
    assert_eq!(tree.lookup(&mut store, b"missing").unwrap(), None);
}

#[test]
fn insert_upserts_existing_key() {
    let mut store = new_store(256);
    let mut tree = BTree::create_empty(&mut store).unwrap();
    tree.insert(&mut store, b"k", b"v1").unwrap();
    tree.insert(&mut store, b"k", b"v2").unwrap();
    assert_eq!(tree.lookup(&mut store, b"k").unwrap(), Some(b"v2".to_vec()));
    assert_eq!(tree.scan_all(&mut store).unwrap(), vec![(b"k".to_vec(), b"v2".to_vec())]);
}

#[test]
fn delete_present_key_removes_it() {
    let mut store = new_store(256);
    let mut tree = BTree::create_empty(&mut store).unwrap();
    tree.insert(&mut store, b"k", b"v").unwrap();
    assert!(tree.delete(&mut store, b"k").unwrap());
    assert_eq!(tree.lookup(&mut store, b"k").unwrap(), None);
}

#[test]
fn delete_absent_key_is_noop() {
    let mut store = new_store(256);
    let mut tree = BTree::create_empty(&mut store).unwrap();
    tree.insert(&mut store, b"k", b"v").unwrap();
    assert!(!tree.delete(&mut store, b"missing").unwrap());
    assert_eq!(tree.lookup(&mut store, b"k").unwrap(), Some(b"v".to_vec()));
}

#[test]
fn entry_too_large_is_a_reported_error() {
    let mut store = new_store(64);
    let mut tree = BTree::create_empty(&mut store).unwrap();
    let huge_value = vec![0u8; 1000];
    let err = tree.insert(&mut store, b"k", &huge_value).unwrap_err();
    assert!(matches!(err, BTreeError::EntryTooLarge { .. }));
}

#[test]
fn many_sequential_inserts_survive_splits() {
    let mut store = new_store(128);
    let mut tree = BTree::create_empty(&mut store).unwrap();
    let n = 200;
    for i in 0..n {
        tree.insert(&mut store, &key_for(i), &value_for(i)).unwrap();
    }
    for i in 0..n {
        assert_eq!(tree.lookup(&mut store, &key_for(i)).unwrap(), Some(value_for(i)));
    }
    let scanned = tree.scan_all(&mut store).unwrap();
    let expected: Vec<_> = (0..n).map(|i| (key_for(i), value_for(i))).collect();
    assert_eq!(scanned, expected);
}

#[test]
fn many_shuffled_inserts_and_deletes_match_reference_map() {
    let mut store = new_store(128);
    let mut tree = BTree::create_empty(&mut store).unwrap();
    let mut reference: BTreeMap<Vec<u8>, Vec<u8>> = BTreeMap::new();

    let n = 150usize;
    // Deterministic pseudo-random permutation (n and 61 are coprime).
    let order: Vec<usize> = (0..n).map(|i| (i * 61) % n).collect();

    for &i in &order {
        tree.insert(&mut store, &key_for(i), &value_for(i)).unwrap();
        reference.insert(key_for(i), value_for(i));
    }

    for &i in order.iter().step_by(3) {
        let existed = tree.delete(&mut store, &key_for(i)).unwrap();
        let ref_existed = reference.remove(&key_for(i)).is_some();
        assert_eq!(existed, ref_existed);
    }

    for i in 0..n {
        assert_eq!(
            tree.lookup(&mut store, &key_for(i)).unwrap(),
            reference.get(&key_for(i)).cloned()
        );
    }

    let scanned = tree.scan_all(&mut store).unwrap();
    let expected: Vec<_> = reference.into_iter().collect();
    assert_eq!(scanned, expected);
}

#[test]
fn range_scan_respects_bounds() {
    let mut store = new_store(128);
    let mut tree = BTree::create_empty(&mut store).unwrap();
    let n = 100;
    for i in 0..n {
        tree.insert(&mut store, &key_for(i), &value_for(i)).unwrap();
    }

    let start = key_for(20);
    let end = key_for(30);
    let got = tree
        .range(&mut store, Bound::Included(start.as_slice()), Bound::Excluded(end.as_slice()))
        .unwrap();
    let expected: Vec<_> = (20..30).map(|i| (key_for(i), value_for(i))).collect();
    assert_eq!(got, expected);
}

#[test]
fn cow_old_root_unaffected_by_later_mutations() {
    let mut store = new_store(128);
    let mut tree = BTree::create_empty(&mut store).unwrap();
    for i in 0..50 {
        tree.insert(&mut store, &key_for(i), &value_for(i)).unwrap();
    }
    let old_root = tree.root();
    let snapshot_before: Vec<_> = (0..50).map(|i| (key_for(i), value_for(i))).collect();

    for i in 50..100 {
        tree.insert(&mut store, &key_for(i), &value_for(i)).unwrap();
    }
    for i in (0..50).step_by(2) {
        tree.delete(&mut store, &key_for(i)).unwrap();
    }

    let old_tree = BTree::from_root(old_root);
    let scanned_old = old_tree.scan_all(&mut store).unwrap();
    assert_eq!(scanned_old, snapshot_before);

    // The live tree, meanwhile, reflects the later mutations.
    assert_eq!(tree.lookup(&mut store, &key_for(0)).unwrap(), None);
    assert_eq!(tree.lookup(&mut store, &key_for(99)).unwrap(), Some(value_for(99)));
}

#[test]
fn cow_survives_reopen_via_remembered_root() {
    // The store outlives the tree handle; a new handle built from the
    // remembered root alone reads everything back.
    let mut store = new_store(128);
    let root;
    {
        let mut tree = BTree::create_empty(&mut store).unwrap();
        for i in 0..50 {
            tree.insert(&mut store, &key_for(i), &value_for(i)).unwrap();
        }
        root = tree.root();
    }
    let tree = BTree::from_root(root);
    for i in 0..50 {
        assert_eq!(tree.lookup(&mut store, &key_for(i)).unwrap(), Some(value_for(i)));
    }
}

#[test]
fn range_with_unbounded_ends_is_a_full_scan() {
    let mut store = new_store(128);
    let mut tree = BTree::create_empty(&mut store).unwrap();
    for i in 0..60 {
        tree.insert(&mut store, &key_for(i), &value_for(i)).unwrap();
    }
    let all = tree.range(&mut store, Bound::Unbounded, Bound::Unbounded).unwrap();
    assert_eq!(all, tree.scan_all(&mut store).unwrap());
    assert_eq!(all.len(), 60);
}

#[test]
fn range_with_excluded_start_and_included_end() {
    let mut store = new_store(128);
    let mut tree = BTree::create_empty(&mut store).unwrap();
    for i in 0..40 {
        tree.insert(&mut store, &key_for(i), &value_for(i)).unwrap();
    }
    let start = key_for(10);
    let end = key_for(15);
    let got = tree
        .range(&mut store, Bound::Excluded(start.as_slice()), Bound::Included(end.as_slice()))
        .unwrap();
    let expected: Vec<_> = (11..16).map(|i| (key_for(i), value_for(i))).collect();
    assert_eq!(got, expected);
}

#[test]
fn empty_range_when_start_after_end() {
    let mut store = new_store(128);
    let mut tree = BTree::create_empty(&mut store).unwrap();
    for i in 0..20 {
        tree.insert(&mut store, &key_for(i), &value_for(i)).unwrap();
    }
    let start = key_for(15);
    let end = key_for(5);
    let got = tree
        .range(&mut store, Bound::Included(start.as_slice()), Bound::Excluded(end.as_slice()))
        .unwrap();
    assert!(got.is_empty());
}

#[test]
fn entry_too_large_reports_lengths_and_leaves_tree_unchanged() {
    let mut store = new_store(64);
    let mut tree = BTree::create_empty(&mut store).unwrap();
    tree.insert(&mut store, b"a", b"1").unwrap();
    let root_before = tree.root();
    let err = tree.insert(&mut store, b"kk", &vec![7u8; 500]).unwrap_err();
    match err {
        BTreeError::EntryTooLarge { key_len, value_len } => {
            assert_eq!(key_len, 2);
            assert_eq!(value_len, 500);
        }
        other => panic!("unexpected error {other:?}"),
    }
    assert_eq!(tree.root(), root_before);
    assert_eq!(tree.scan_all(&mut store).unwrap(), vec![(b"a".to_vec(), b"1".to_vec())]);
}

#[test]
fn failed_delete_and_lookup_leave_root_unchanged() {
    let mut store = new_store(256);
    let mut tree = BTree::create_empty(&mut store).unwrap();
    tree.insert(&mut store, b"x", b"y").unwrap();
    let root = tree.root();
    assert!(!tree.delete(&mut store, b"nope").unwrap());
    assert_eq!(tree.root(), root);
}

#[test]
fn keys_order_bytewise_with_prefixes_first() {
    let mut store = new_store(256);
    let mut tree = BTree::create_empty(&mut store).unwrap();
    for k in [&b"b"[..], b"ab", b"a", b"", b"abc", b"\xff"] {
        tree.insert(&mut store, k, b"v").unwrap();
    }
    let keys: Vec<Vec<u8>> = tree.scan_all(&mut store).unwrap().into_iter().map(|(k, _)| k).collect();
    let expected: Vec<Vec<u8>> =
        vec![b"".to_vec(), b"a".to_vec(), b"ab".to_vec(), b"abc".to_vec(), b"b".to_vec(), b"\xff".to_vec()];
    assert_eq!(keys, expected);
}

#[test]
fn deleting_everything_leaves_an_empty_tree() {
    let mut store = new_store(128);
    let mut tree = BTree::create_empty(&mut store).unwrap();
    for i in 0..80 {
        tree.insert(&mut store, &key_for(i), &value_for(i)).unwrap();
    }
    for i in 0..80 {
        assert!(tree.delete(&mut store, &key_for(i)).unwrap());
    }
    assert_eq!(tree.scan_all(&mut store).unwrap(), Vec::new());
    assert_eq!(tree.lookup(&mut store, &key_for(3)).unwrap(), None);
}

#[test]
fn writes_never_overwrite_existing_pages() {
    let mut store = new_store(128);
    let mut tree = BTree::create_empty(&mut store).unwrap();
    let first = tree.root();
    tree.insert(&mut store, b"a", b"1").unwrap();
    // A mutation always lands on fresh pages.
    assert!(tree.root() > first);
    assert_eq!(BTree::from_root(first).scan_all(&mut store).unwrap(), Vec::new());
}

#[test]
fn unknown_node_tag_is_reported_with_its_value() {
    let mut store = new_store(64);
    let mut page = vec![0u8; 64];
    page[0] = 7;
    let id = store.write_new_node(None, &page).unwrap();
    let err = BTree::from_root(id).lookup(&mut store, b"k").unwrap_err();
    match err {
        BTreeError::Corrupt(msg) => assert_eq!(msg, "unknown node type tag 7"),
        other => panic!("unexpected error {other:?}"),
    }
}

#[test]
fn too_small_page_writes_nothing() {
    let mut store = new_store(4);
    match BTree::create_empty(&mut store) {
        Err(BTreeError::Corrupt(msg)) => {
            assert_eq!(msg, "page size too small to hold even an empty leaf node")
        }
        other => panic!("unexpected result {:?}", other.map(|t| t.root())),
    }
    assert_eq!(store.page_count(), 0);
}

#[test]
fn oversized_entry_writes_no_page() {
    let mut store = new_store(64);
    let mut tree = BTree::create_empty(&mut store).unwrap();
    let pages = store.page_count();
    assert!(tree.insert(&mut store, b"k", &vec![1u8; 100]).is_err());
    assert_eq!(store.page_count(), pages);
}

#[test]
fn delete_rewrites_one_page_per_level_and_absent_key_none() {
    let mut store = new_store(128);
    let mut tree = BTree::create_empty(&mut store).unwrap();
    for i in 0..8 {
        tree.insert(&mut store, &key_for(i), &value_for(i)).unwrap();
    }
    // Eight entries of this size fill three leaves under one root.
    let pages = store.page_count();
    assert!(!tree.delete(&mut store, b"absent").unwrap());
    assert_eq!(store.page_count(), pages);
    assert!(tree.delete(&mut store, &key_for(7)).unwrap());
    assert_eq!(store.page_count(), pages + 2);
}

#[test]
fn overflowing_leaf_splits_into_two_halves_under_a_new_root() {
    let mut store = new_store(64);
    let mut tree = BTree::create_empty(&mut store).unwrap();
    for i in 0..3u8 {
        tree.insert(&mut store, &[b'a' + i], &[i; 8]).unwrap();
    }
    let pages = store.page_count();
    // The fourth entry overflows the leaf: two halves and a new root.
    tree.insert(&mut store, b"d", &[3; 8]).unwrap();
    assert_eq!(store.page_count(), pages + 3);
    let keys: Vec<Vec<u8>> = tree.scan_all(&mut store).unwrap().into_iter().map(|(k, _)| k).collect();
    assert_eq!(keys, vec![b"a".to_vec(), b"b".to_vec(), b"c".to_vec(), b"d".to_vec()]);
}

#[test]
fn leaf_without_a_fitting_split_is_reported_and_changes_nothing() {
    let mut store = new_store(64);
    let mut tree = BTree::create_empty(&mut store).unwrap();
    tree.insert(&mut store, b"a", &[1u8; 19]).unwrap();
    tree.insert(&mut store, b"c", &[3u8; 19]).unwrap();
    let root = tree.root();
    let pages = store.page_count();
    // "b" alone fits a page, but no split of a, b, c leaves two fitting
    // halves.
    match tree.insert(&mut store, b"b", &[2u8; 25]) {
        Err(BTreeError::Corrupt(msg)) => assert_eq!(msg, "leaf node cannot be split to fit the page size"),
        other => panic!("unexpected result {other:?}"),
    }
    assert_eq!(tree.root(), root);
    assert_eq!(store.page_count(), pages);
    assert_eq!(tree.scan_all(&mut store).unwrap().len(), 2);
}
