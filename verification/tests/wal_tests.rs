use basalt_engine::crc32c;
use basalt_engine::wal::{
    check_log_preamble, checkpoint_record, commit_record, decode_page_diff, diff_ranges,
    encode_page_diff, frame_record, log_preamble, page_diff_record, plan_recovery, read_record,
    redo_page, LOG_PREAMBLE_SIZE, RECORD_CHECKPOINT, RECORD_COMMIT, RECORD_PAGE_DIFF,
};
use basalt_engine::WalError;

#[test]
fn diff_ranges_identical_pages_is_empty() {
    let buf = vec![7u8; 32];
    assert_eq!(diff_ranges(&buf, &buf), Vec::new());
}

#[test]
fn diff_ranges_trims_common_prefix_and_suffix() {
    let mut base = vec![0u8; 16];
    let new = {
        let mut n = base.clone();
        n[5] = 1;
        n[6] = 2;
        n
    };
    let ranges = diff_ranges(&base, &new);
    assert_eq!(ranges, vec![(5, vec![1, 2])]);

    base[0] = 9; // sanity: base itself is untouched by diffing
    assert_eq!(base[0], 9);
}

#[test]
fn diff_ranges_whole_page_when_ends_differ() {
    let base = vec![0u8; 8];
    let new = vec![1u8, 0, 0, 0, 0, 0, 0, 2];
    assert_eq!(diff_ranges(&base, &new), vec![(0, new.clone())]);
}

#[test]
fn diff_ranges_keeps_unchanged_bytes_inside_the_range() {
    let base = vec![0u8; 10];
    let mut new = base.clone();
    new[2] = 5;
    new[7] = 6;
    assert_eq!(diff_ranges(&base, &new), vec![(2, vec![5, 0, 0, 0, 0, 6])]);
}

#[test]
fn log_preamble_layout_and_check() {
    let p = log_preamble();
    assert_eq!(p.len(), LOG_PREAMBLE_SIZE);
    assert_eq!(&p[0..8], b"BSLTLOG_");
    assert_eq!(&p[8..12], &1u32.to_le_bytes());
    assert!(p[12..].iter().all(|&b| b == 0));
    assert!(check_log_preamble(&p).is_ok());
}

#[test]
fn log_preamble_bad_magic_and_version() {
    let mut p = log_preamble();
    p[3] = b'x';
    assert!(matches!(check_log_preamble(&p), Err(WalError::BadMagic)));
    let mut p = log_preamble();
    p[8..12].copy_from_slice(&7u32.to_le_bytes());
    assert!(matches!(check_log_preamble(&p), Err(WalError::UnsupportedVersion(7))));
}

#[test]
fn frame_record_layout() {
    let rec = frame_record(RECORD_COMMIT, &[1, 2, 3]);
    assert_eq!(&rec[0..4], &3u32.to_le_bytes());
    assert_eq!(rec[4], RECORD_COMMIT);
    assert_eq!(&rec[5..8], &[1, 2, 3]);
    let crc = crc32c(&[RECORD_COMMIT, 1, 2, 3]);
    assert_eq!(&rec[8..12], &crc.to_le_bytes());
    assert_eq!(rec.len(), 12);
}

#[test]
fn read_record_round_trips_and_advances() {
    let mut log = vec![0xAAu8; 3];
    log.extend(frame_record(RECORD_CHECKPOINT, b"hello"));
    log.extend(frame_record(RECORD_COMMIT, b""));
    let (t, payload, next) = read_record(&log, 3).unwrap();
    assert_eq!(t, RECORD_CHECKPOINT);
    assert_eq!(payload, b"hello".to_vec());
    assert_eq!(next, 3 + 9 + 5);
    let (t2, payload2, next2) = read_record(&log, next).unwrap();
    assert_eq!(t2, RECORD_COMMIT);
    assert!(payload2.is_empty());
    assert_eq!(next2, log.len());
    assert!(read_record(&log, next2).is_none());
}

#[test]
fn read_record_rejects_torn_and_corrupt_records() {
    let rec = frame_record(RECORD_COMMIT, &42u64.to_le_bytes());
    for cut in 0..rec.len() {
        assert!(read_record(&rec[..cut], 0).is_none(), "cut at {cut}");
    }
    let mut bad = rec.clone();
    bad[7] ^= 1;
    assert!(read_record(&bad, 0).is_none());
    assert!(read_record(&rec, rec.len() + 5).is_none());
}

#[test]
fn page_diff_payload_layout() {
    let ranges = vec![(3usize, vec![9u8, 8])];
    let payload = encode_page_diff(7, Some(4), &ranges);
    let mut expected = Vec::new();
    expected.extend_from_slice(&7u64.to_le_bytes());
    expected.extend_from_slice(&4u64.to_le_bytes());
    expected.extend_from_slice(&1u16.to_le_bytes());
    expected.extend_from_slice(&3u16.to_le_bytes());
    expected.extend_from_slice(&2u16.to_le_bytes());
    expected.extend_from_slice(&[9, 8]);
    assert_eq!(payload, expected);
}

#[test]
fn page_diff_without_base_uses_the_zero_sentinel() {
    let payload = encode_page_diff(5, None, &Vec::new());
    assert_eq!(&payload[8..16], &0u64.to_le_bytes());
    let d = decode_page_diff(&payload).unwrap();
    assert_eq!(d.new_page_id, 5);
    assert_eq!(d.base, None);
    assert!(d.ranges.is_empty());
}

#[test]
fn page_diff_decode_round_trips() {
    let ranges = vec![(0usize, vec![1u8]), (10usize, vec![2u8, 3, 4])];
    let payload = encode_page_diff(12, Some(3), &ranges);
    let d = decode_page_diff(&payload).unwrap();
    assert_eq!(d.new_page_id, 12);
    assert_eq!(d.base, Some(3));
    assert_eq!(d.ranges, ranges);
}

#[test]
fn page_diff_decode_rejects_short_payloads() {
    assert!(decode_page_diff(&[0u8; 17]).is_none());
    let ranges = vec![(0usize, vec![1u8, 2, 3])];
    let payload = encode_page_diff(1, None, &ranges);
    assert!(decode_page_diff(&payload[..payload.len() - 1]).is_none());
}

#[test]
fn redo_reproduces_the_new_page() {
    let base: Vec<u8> = (0..64).collect();
    let mut new = base.clone();
    new[10] = 0xEE;
    new[20] = 0xDD;
    let ranges = diff_ranges(&base, &new);
    let payload = encode_page_diff(9, Some(2), &ranges);
    let d = decode_page_diff(&payload).unwrap();
    assert_eq!(redo_page(&base, &d).unwrap(), new);
    // Redo is a function of the base page and the record: doing it twice
    // gives the same page.
    assert_eq!(redo_page(&base, &d).unwrap(), new);
}

#[test]
fn redo_from_zero_page_for_a_fresh_node() {
    let zero = vec![0u8; 32];
    let mut new = zero.clone();
    new[0] = 1;
    new[31] = 2;
    let d = decode_page_diff(&encode_page_diff(4, None, &diff_ranges(&zero, &new))).unwrap();
    assert_eq!(redo_page(&zero, &d).unwrap(), new);
}

#[test]
fn redo_rejects_ranges_outside_the_page() {
    let d = decode_page_diff(&encode_page_diff(4, None, &vec![(30usize, vec![1u8, 2, 3])])).unwrap();
    assert!(redo_page(&[0u8; 32], &d).is_none());
}

#[test]
fn commit_and_checkpoint_records() {
    let c = commit_record(77);
    assert_eq!(c, frame_record(RECORD_COMMIT, &77u64.to_le_bytes()));
    let cp = checkpoint_record(&[(3, 64), (5, 100)]);
    let mut payload = Vec::new();
    payload.extend_from_slice(&2u16.to_le_bytes());
    payload.extend_from_slice(&3u64.to_le_bytes());
    payload.extend_from_slice(&64u64.to_le_bytes());
    payload.extend_from_slice(&5u64.to_le_bytes());
    payload.extend_from_slice(&100u64.to_le_bytes());
    assert_eq!(cp, frame_record(RECORD_CHECKPOINT, &payload));
}

fn sample_log() -> Vec<u8> {
    let mut log = log_preamble();
    let base = vec![0u8; 16];
    let mut p2 = base.clone();
    p2[4] = 1;
    log.extend(page_diff_record(2, None, &diff_ranges(&base, &p2)));
    log.extend(commit_record(2));
    let mut p3 = p2.clone();
    p3[5] = 9;
    log.extend(page_diff_record(3, Some(2), &diff_ranges(&p2, &p3)));
    log.extend(checkpoint_record(&[(2, 64)]));
    log.extend(commit_record(3));
    log
}

#[test]
fn recovery_plan_takes_every_diff_and_the_last_commit() {
    let plan = plan_recovery(&sample_log());
    assert_eq!(plan.root, Some(3));
    assert_eq!(plan.diffs.len(), 2);
    assert_eq!(plan.diffs[0].new_page_id, 2);
    assert_eq!(plan.diffs[0].base, None);
    assert_eq!(plan.diffs[1].new_page_id, 3);
    assert_eq!(plan.diffs[1].base, Some(2));
    assert_eq!(plan.diffs[1].ranges, vec![(5usize, vec![9u8])]);
}

#[test]
fn recovery_plan_of_an_empty_log_has_no_root() {
    let plan = plan_recovery(&log_preamble());
    assert_eq!(plan.root, None);
    assert!(plan.diffs.is_empty());
}

#[test]
fn recovery_plan_ignores_a_torn_tail() {
    let mut log = sample_log();
    // A record header claiming a payload far longer than what follows.
    log.extend_from_slice(&100u32.to_le_bytes());
    log.push(RECORD_PAGE_DIFF);
    log.extend_from_slice(&[1, 2, 3, 4, 5]);
    let plan = plan_recovery(&log);
    assert_eq!(plan.root, Some(3));
    assert_eq!(plan.diffs.len(), 2);
}

#[test]
fn recovery_plan_ignores_a_corrupted_checksum() {
    let mut log = sample_log();
    let payload = [9u8; 8];
    log.extend_from_slice(&(payload.len() as u32).to_le_bytes());
    log.push(RECORD_COMMIT);
    log.extend_from_slice(&payload);
    log.extend_from_slice(&0u32.to_le_bytes());
    let plan = plan_recovery(&log);
    assert_eq!(plan.root, Some(3));
}

#[test]
fn uncommitted_diffs_are_still_redone_but_do_not_move_the_root() {
    let mut log = sample_log();
    let zero = vec![0u8; 16];
    let mut p = zero.clone();
    p[0] = 1;
    log.extend(page_diff_record(4, None, &diff_ranges(&zero, &p)));
    let plan = plan_recovery(&log);
    assert_eq!(plan.root, Some(3));
    assert_eq!(plan.diffs.len(), 3);
    assert_eq!(plan.diffs[2].new_page_id, 4);
}

#[test]
fn recovery_stops_at_an_unknown_record_type() {
    let mut log = log_preamble();
    log.extend(commit_record(5));
    log.extend(frame_record(9, b"??"));
    log.extend(commit_record(6));
    assert_eq!(plan_recovery(&log).root, Some(5));
}

#[test]
fn commit_with_wrong_payload_length_stops_recovery() {
    let mut log = log_preamble();
    log.extend(commit_record(5));
    log.extend(frame_record(RECORD_COMMIT, &[1, 2, 3]));
    log.extend(commit_record(6));
    assert_eq!(plan_recovery(&log).root, Some(5));
}

#[test]
fn a_checksummed_but_undecodable_page_diff_is_flagged() {
    let mut log = sample_log();
    let before = plan_recovery(&log);
    assert!(!before.bad_diff);
    log.extend(frame_record(RECORD_PAGE_DIFF, &[1, 2, 3]));
    log.extend(commit_record(9));
    let plan = plan_recovery(&log);
    assert!(plan.bad_diff);
    assert_eq!(plan.root, Some(3));
    assert_eq!(plan.diffs.len(), 2);
}
