use basalt_engine::{BTreeError, DatabaseError, MvccState, PagerError, WalError};

#[test]
fn new_state_is_empty() {
    let s = MvccState::new();
    assert_eq!(s.current_generation(), 0);
    assert_eq!(s.low_water_mark(), 0);
    assert_eq!(s.pending_reclaim_len(), 0);
    assert!(s.dirty_page_table().is_empty());
}

#[test]
fn snapshot_pins_generation_and_root() {
    let mut s = MvccState::new();
    s.commit(&[]);
    let snap = s.begin_read(Some(7));
    assert_eq!(snap.generation(), 1);
    assert_eq!(snap.root(), Some(7));
    s.commit(&[]);
    assert_eq!(s.current_generation(), 2);
    assert_eq!(s.low_water_mark(), 1);
    s.end_read(snap);
    assert_eq!(s.low_water_mark(), 2);
}

#[test]
fn checkpoint_reclaims_superseded_pages_when_no_snapshot_is_open() {
    let mut s = MvccState::new();
    s.commit(&[]);
    s.commit(&[5]);
    assert_eq!(s.pending_reclaim_len(), 1);
    assert_eq!(s.take_reclaimable(), vec![5]);
    assert_eq!(s.pending_reclaim_len(), 0);
}

#[test]
fn reclamation_waits_for_a_live_snapshot() {
    let mut s = MvccState::new();
    s.commit(&[]); // generation 1
    let snap = s.begin_read(Some(2));
    s.commit(&[2]); // generation 2 supersedes page 2
    assert!(s.take_reclaimable().is_empty());
    assert_eq!(s.pending_reclaim_len(), 1);
    s.commit(&[3]);
    assert!(s.take_reclaimable().is_empty());
    assert_eq!(s.pending_reclaim_len(), 2);
    s.end_read(snap);
    assert_eq!(s.take_reclaimable(), vec![2, 3]);
    assert_eq!(s.pending_reclaim_len(), 0);
}

#[test]
fn reclamation_respects_the_older_of_two_overlapping_snapshots() {
    let mut s = MvccState::new();
    s.commit(&[]); // 1
    let older = s.begin_read(Some(1));
    s.commit(&[1]); // 2
    let newer = s.begin_read(Some(2));
    s.commit(&[2]); // 3
    assert!(s.take_reclaimable().is_empty());
    s.end_read(newer);
    assert!(s.take_reclaimable().is_empty());
    assert_eq!(s.low_water_mark(), 1);
    s.end_read(older);
    assert_eq!(s.take_reclaimable(), vec![1, 2]);
}

#[test]
fn reclamation_frees_only_up_to_the_low_water_mark() {
    let mut s = MvccState::new();
    s.commit(&[10]); // superseded at 1
    let snap = s.begin_read(None); // pinned at 1
    s.commit(&[11]); // superseded at 2
    assert_eq!(s.take_reclaimable(), vec![10]);
    assert_eq!(s.pending_reclaim_len(), 1);
    s.end_read(snap);
    assert_eq!(s.take_reclaimable(), vec![11]);
}

#[test]
fn two_snapshots_at_one_generation_are_counted() {
    let mut s = MvccState::new();
    let a = s.begin_read(None);
    let b = s.begin_read(None);
    assert_eq!(a, b);
    s.commit(&[4]);
    s.end_read(a);
    assert!(s.take_reclaimable().is_empty());
    s.end_read(b);
    assert_eq!(s.take_reclaimable(), vec![4]);
}

#[test]
fn ending_an_unknown_snapshot_changes_nothing() {
    let mut s = MvccState::new();
    let snap = s.begin_read(None);
    s.end_read(snap);
    s.end_read(snap);
    assert_eq!(s.low_water_mark(), 0);
}

#[test]
fn dirty_page_table_keeps_first_lsn_and_sorts_pages() {
    let mut s = MvccState::new();
    s.note_page_written(9, 100);
    s.note_page_written(3, 200);
    s.note_page_written(9, 300);
    assert_eq!(s.dirty_page_table(), vec![(3, 200), (9, 100)]);
    s.clear_dirty_pages();
    assert!(s.dirty_page_table().is_empty());
}

#[test]
fn database_error_conversions() {
    let e: DatabaseError = PagerError::BadMagic.into();
    assert!(matches!(e, DatabaseError::Pager(PagerError::BadMagic)));
    let e: DatabaseError = WalError::UnsupportedVersion(3).into();
    assert!(matches!(e, DatabaseError::Wal(WalError::UnsupportedVersion(3))));
    let e: DatabaseError = BTreeError::EntryTooLarge { key_len: 1, value_len: 2 }.into();
    assert!(matches!(e, DatabaseError::BTree(BTreeError::EntryTooLarge { key_len: 1, value_len: 2 })));
    let e: WalError = PagerError::PageOutOfRange(4).into();
    assert!(matches!(e, WalError::Pager(PagerError::PageOutOfRange(4))));
}

#[test]
fn error_messages_match_their_descriptions() {
    assert_eq!(PagerError::BadMagic.message(), "not a Basalt data file (bad magic bytes)");
    assert_eq!(
        PagerError::UnsupportedVersion(7).message(),
        "unsupported data file format version 7"
    );
    assert_eq!(
        PagerError::InvalidPageSize(100).message(),
        "invalid page size 100 (must be a power of two, >= 64)"
    );
    assert_eq!(PagerError::PageOutOfRange(99).message(), "page 99 is out of the allocated range");
    assert_eq!(
        PagerError::BufferLengthMismatch { expected: 64, actual: 10 }.message(),
        "page buffer length 10 does not match page size 64"
    );
    let io = std::io::Error::new(std::io::ErrorKind::Other, "disk on fire");
    assert_eq!(PagerError::Io(io).message(), "I/O error: disk on fire");
    assert_eq!(WalError::BadMagic.message(), "not a Basalt log file (bad magic bytes)");
    assert_eq!(
        WalError::UnsupportedVersion(12).message(),
        "unsupported log file format version 12"
    );
    assert_eq!(
        WalError::Pager(PagerError::PageOutOfRange(0)).message(),
        "page 0 is out of the allocated range"
    );
    assert_eq!(
        BTreeError::EntryTooLarge { key_len: 1, value_len: 1000 }.message(),
        "key (1 bytes) + value (1000 bytes) too large for one page"
    );
    assert_eq!(BTreeError::Corrupt("bad".to_string()).message(), "corrupt b-tree node: bad");
    assert_eq!(
        DatabaseError::BTree(BTreeError::Corrupt("x".to_string())).message(),
        "corrupt b-tree node: x"
    );
    assert_eq!(
        DatabaseError::Pager(PagerError::PageOutOfRange(18446744073709551615)).message(),
        "page 18446744073709551615 is out of the allocated range"
    );
}

#[test]
fn a_page_superseded_twice_is_queued_once() {
    let mut s = MvccState::new();
    s.commit(&[7, 7, 8]);
    assert_eq!(s.pending_reclaim_len(), 2);
    s.commit(&[8, 9]);
    assert_eq!(s.pending_reclaim_len(), 3);
    assert_eq!(s.take_reclaimable(), vec![7, 8, 9]);
}
