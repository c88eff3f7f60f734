use basalt_engine::BTreeError;
use basalt_engine::node::{
    decode_bytes, try_encode_internal, try_encode_leaf, InternalEntry, LeafEntry, Node,
};

fn leaf(k: &[u8], v: &[u8]) -> LeafEntry {
    LeafEntry { key: k.to_vec(), value: v.to_vec() }
}

#[test]
fn leaf_encoding_layout() {
    let page = try_encode_leaf(&[leaf(b"ab", b"xyz")], 64).unwrap();
    assert_eq!(page.len(), 64);
    assert_eq!(page[0], 0); // leaf
    assert_eq!(&page[2..4], &1u16.to_le_bytes()); // one entry
    // Cell: key length, key, value length, value; packed at the page end.
    let cell: Vec<u8> = [&2u16.to_le_bytes()[..], b"ab", &3u16.to_le_bytes()[..], b"xyz"].concat();
    assert_eq!(&page[64 - cell.len()..], cell.as_slice());
    // Slot: offset and length of the cell.
    assert_eq!(&page[8..10], &((64 - cell.len()) as u16).to_le_bytes());
    assert_eq!(&page[10..12], &(cell.len() as u16).to_le_bytes());
}

#[test]
fn leaf_round_trips_through_decode() {
    let entries = vec![leaf(b"a", b"1"), leaf(b"bb", b""), leaf(b"ccc", b"333")];
    let page = try_encode_leaf(&entries, 128).unwrap();
    match decode_bytes(&page).ok().unwrap() {
        Node::Leaf(got) => {
            assert_eq!(got.len(), 3);
            for (g, e) in got.iter().zip(entries.iter()) {
                assert_eq!(g.key, e.key);
                assert_eq!(g.value, e.value);
            }
        }
        Node::Internal { .. } => panic!("decoded a leaf as an internal node"),
    }
}

#[test]
fn internal_round_trips_through_decode() {
    let entries = vec![
        InternalEntry { key: b"m".to_vec(), child: 7 },
        InternalEntry { key: b"t".to_vec(), child: 9 },
    ];
    let page = try_encode_internal(3, &entries, 128).unwrap();
    assert_eq!(page[0], 1);
    assert_eq!(&page[8..16], &3u64.to_le_bytes());
    match decode_bytes(&page).ok().unwrap() {
        Node::Internal { leftmost, entries: got } => {
            assert_eq!(leftmost, 3);
            assert_eq!(got.len(), 2);
            assert_eq!(got[0].key, b"m".to_vec());
            assert_eq!(got[0].child, 7);
            assert_eq!(got[1].key, b"t".to_vec());
            assert_eq!(got[1].child, 9);
        }
        Node::Leaf(_) => panic!("decoded an internal node as a leaf"),
    }
}

#[test]
fn entries_that_do_not_fit_are_refused() {
    assert!(try_encode_leaf(&[leaf(b"k", &[0u8; 100])], 64).is_none());
    let empty: Vec<LeafEntry> = Vec::new();
    assert!(try_encode_leaf(&empty, 64).is_some());
}

#[test]
fn garbage_does_not_decode() {
    match decode_bytes(&[9u8; 64]) {
        Err(BTreeError::Corrupt(msg)) => assert_eq!(msg, "unknown node type tag 9"),
        _ => panic!("an unknown tag decoded"),
    }
    assert!(decode_bytes(&[0u8; 3]).is_err());
    // A leaf claiming an entry whose slot points outside the page.
    let mut page = vec![0u8; 64];
    page[2..4].copy_from_slice(&1u16.to_le_bytes());
    page[8..10].copy_from_slice(&60u16.to_le_bytes());
    page[10..12].copy_from_slice(&10u16.to_le_bytes());
    assert!(decode_bytes(&page).is_err());
}
