use basalt_engine::pager::{file_header_page, parse_preamble, FREE_TRUNK_HEAD_OFFSET, MAGIC_OFFSET};
use basalt_engine::{MemPager, PagerError, PagerState};

#[test]
fn create_then_open_round_trips_page_size() {
    let bytes;
    {
        let pager = MemPager::create(256).unwrap();
        assert_eq!(pager.page_size(), 256);
        assert_eq!(pager.page_count(), 1); // page 1: file header, the only reserved page
        bytes = pager.into_bytes();
    }
    let pager = MemPager::open(bytes).unwrap();
    assert_eq!(pager.page_size(), 256);
    assert_eq!(pager.page_count(), 1);
}

#[test]
fn open_rejects_bad_magic() {
    assert!(matches!(MemPager::open(vec![0u8; 128]), Err(PagerError::BadMagic)));
}

#[test]
fn create_rejects_invalid_page_size() {
    assert!(matches!(MemPager::create(0), Err(PagerError::InvalidPageSize(0))));
    assert!(matches!(MemPager::create(4), Err(PagerError::InvalidPageSize(4))));
    assert!(matches!(MemPager::create(100), Err(PagerError::InvalidPageSize(100))));
}

#[test]
fn write_then_read_round_trips_bytes() {
    let mut pager = MemPager::create(64).unwrap();

    let id = pager.allocate_page().unwrap();
    let written: Vec<u8> = (0..64).collect();
    pager.write_page(id, &written).unwrap();

    let mut read_back = vec![0u8; 64];
    pager.read_page(id, &mut read_back).unwrap();
    assert_eq!(read_back, written);
}

#[test]
fn write_then_read_round_trips_across_reopen() {
    let written: Vec<u8> = (0..64).map(|b| b ^ 0xAA).collect();
    let id;
    let bytes;
    {
        let mut pager = MemPager::create(64).unwrap();
        id = pager.allocate_page().unwrap();
        pager.write_page(id, &written).unwrap();
        bytes = pager.into_bytes();
    }
    let pager = MemPager::open(bytes).unwrap();
    let mut read_back = vec![0u8; 64];
    pager.read_page(id, &mut read_back).unwrap();
    assert_eq!(read_back, written);
}

#[test]
fn allocate_extends_file_when_free_list_empty() {
    let mut pager = MemPager::create(64).unwrap();
    let a = pager.allocate_page().unwrap();
    let b = pager.allocate_page().unwrap();
    assert_ne!(a, b);
    assert_eq!(pager.page_count(), 3); // page 1 (file header) + a + b
}

#[test]
fn free_then_allocate_reuses_page_without_growing_file() {
    let mut pager = MemPager::create(64).unwrap();

    let mut allocated = Vec::new();
    for _ in 0..5 {
        allocated.push(pager.allocate_page().unwrap());
    }
    let count_after_alloc = pager.page_count();

    for &id in &allocated {
        pager.free_page(id).unwrap();
    }

    let mut reallocated = Vec::new();
    for _ in 0..5 {
        reallocated.push(pager.allocate_page().unwrap());
    }

    assert_eq!(pager.page_count(), count_after_alloc);
    let mut allocated_sorted = allocated.clone();
    let mut reallocated_sorted = reallocated.clone();
    allocated_sorted.sort();
    reallocated_sorted.sort();
    assert_eq!(allocated_sorted, reallocated_sorted);
}

#[test]
fn freeing_more_pages_than_one_trunk_holds_chains_trunks() {
    // At page_size 64, trunk capacity is (64 - 20) / 8 = 5, so freeing
    // more than that forces a second trunk to be created and chained.
    let mut pager = MemPager::create(64).unwrap();

    let mut allocated = Vec::new();
    for _ in 0..12 {
        allocated.push(pager.allocate_page().unwrap());
    }
    for &id in &allocated {
        pager.free_page(id).unwrap();
    }

    let mut reallocated = Vec::new();
    for _ in 0..12 {
        reallocated.push(pager.allocate_page().unwrap());
    }

    // Every freed page was handed back out, including trunk pages
    // themselves once exhausted and recycled — no growth needed.
    let mut allocated_sorted = allocated.clone();
    let mut reallocated_sorted = reallocated.clone();
    allocated_sorted.sort();
    reallocated_sorted.sort();
    assert_eq!(allocated_sorted, reallocated_sorted);

    // The free-list is now fully drained.
    assert_eq!(pager.free_trunk_head(), 0);
}

#[test]
fn read_write_out_of_range_is_an_error() {
    let mut pager = MemPager::create(64).unwrap();
    let buf = vec![0u8; 64];
    assert!(matches!(
        pager.read_page(99, &mut buf.clone()),
        Err(PagerError::PageOutOfRange(99))
    ));
    assert!(matches!(pager.write_page(99, &buf), Err(PagerError::PageOutOfRange(99))));
}

#[test]
fn page_id_zero_is_always_out_of_range() {
    let mut pager = MemPager::create(64).unwrap();
    let buf = vec![0u8; 64];
    assert!(matches!(
        pager.read_page(0, &mut buf.clone()),
        Err(PagerError::PageOutOfRange(0))
    ));
    assert!(matches!(pager.write_page(0, &buf), Err(PagerError::PageOutOfRange(0))));
    assert!(matches!(pager.free_page(0), Err(PagerError::PageOutOfRange(0))));
    assert!(matches!(pager.extend_to(0), Err(PagerError::PageOutOfRange(0))));
}

#[test]
fn wrong_buffer_length_is_an_error() {
    let mut pager = MemPager::create(64).unwrap();
    let id = pager.allocate_page().unwrap();
    let short = vec![0u8; 10];
    assert!(matches!(
        pager.write_page(id, &short),
        Err(PagerError::BufferLengthMismatch { expected: 64, actual: 10 })
    ));
}

#[test]
fn reading_a_free_listed_page_does_not_error() {
    let mut pager = MemPager::create(64).unwrap();
    let id = pager.allocate_page().unwrap();
    pager.free_page(id).unwrap();

    let mut buf = vec![0u8; 64];
    // Defined-but-unspecified content: must not error, value not asserted.
    assert!(pager.read_page(id, &mut buf).is_ok());
}

#[test]
fn pages_are_1_based_and_aligned_to_page_size_multiples_from_file_start() {
    let page_size: u32 = 128;
    let written: Vec<u8> = (0..page_size as u8).collect();
    let id;
    let raw_file;
    {
        let mut pager = MemPager::create(page_size).unwrap();
        id = pager.allocate_page().unwrap();
        assert_eq!(id, 2); // page 1 is reserved; first allocatable page is 2
        pager.write_page(id, &written).unwrap();
        raw_file = pager.into_bytes();
    }

    // The raw file at `(id - 1) * page_size` is exactly the page written.
    let start = ((id - 1) * page_size as u64) as usize;
    assert_eq!(&raw_file[start..start + page_size as usize], written.as_slice());

    // Page 1 sits at file offset 0; its magic bytes sit at offset 10
    // (after the common page header), not at absolute file offset 0.
    assert_eq!(&raw_file[MAGIC_OFFSET..MAGIC_OFFSET + 8], b"BSLTPAGE");

    // File length itself is an exact multiple of page_size.
    assert_eq!(raw_file.len() as u64 % page_size as u64, 0);
}

#[test]
fn file_header_layout() {
    let page = file_header_page(64);
    assert_eq!(page.len(), 64);
    assert_eq!(page[0], 2);
    assert_eq!(&page[10..18], b"BSLTPAGE");
    assert_eq!(&page[18..22], &1u32.to_le_bytes());
    assert_eq!(&page[22..26], &64u32.to_le_bytes());
    assert_eq!(&page[26..34], &0u64.to_le_bytes());
    assert!(page[34..].iter().all(|&b| b == 0));
    assert_eq!(parse_preamble(&page).unwrap(), (64, 0));
}

#[test]
fn open_rejects_unsupported_version_and_page_size() {
    let mut page = file_header_page(64);
    page[18..22].copy_from_slice(&2u32.to_le_bytes());
    assert!(matches!(MemPager::open(page), Err(PagerError::UnsupportedVersion(2))));
    let mut page = file_header_page(64);
    page[22..26].copy_from_slice(&96u32.to_le_bytes());
    assert!(matches!(MemPager::open(page), Err(PagerError::InvalidPageSize(96))));
}

#[test]
fn open_of_a_short_file_is_an_io_error() {
    assert!(matches!(MemPager::open(vec![0u8; 10]), Err(PagerError::Io(_))));
}

#[test]
fn free_then_allocate_hands_back_the_same_page() {
    let mut pager = MemPager::create(64).unwrap();
    let a = pager.allocate_page().unwrap();
    let b = pager.allocate_page().unwrap();
    // First free starts a trunk at `a`; the next goes in as its leaf.
    pager.free_page(a).unwrap();
    assert_eq!(pager.free_trunk_head(), a);
    pager.free_page(b).unwrap();
    assert_eq!(pager.allocate_page().unwrap(), b);
    // The exhausted trunk page itself comes back next, emptying the list.
    assert_eq!(pager.allocate_page().unwrap(), a);
    assert_eq!(pager.free_trunk_head(), 0);
    // The head was written into the file header too.
    let bytes = pager.into_bytes();
    assert_eq!(&bytes[FREE_TRUNK_HEAD_OFFSET..FREE_TRUNK_HEAD_OFFSET + 8], &0u64.to_le_bytes());
}

#[test]
fn extend_to_grows_with_zero_pages() {
    let mut pager = MemPager::create(64).unwrap();
    pager.extend_to(4).unwrap();
    assert_eq!(pager.page_count(), 4);
    let mut buf = vec![1u8; 64];
    pager.read_page(4, &mut buf).unwrap();
    assert!(buf.iter().all(|&b| b == 0));
    // Extending to a page that already exists changes nothing.
    pager.extend_to(2).unwrap();
    assert_eq!(pager.page_count(), 4);
}

#[test]
fn open_derives_page_count_from_file_length() {
    let mut pager = MemPager::create(64).unwrap();
    pager.allocate_page().unwrap();
    pager.allocate_page().unwrap();
    let mut bytes = pager.into_bytes();
    bytes.extend_from_slice(&[0u8; 10]); // a partial page does not count
    let pager = MemPager::open(bytes).unwrap();
    assert_eq!(pager.page_count(), 3);
}

#[test]
fn pager_state_decisions() {
    let state = PagerState::create(128).unwrap();
    assert_eq!(state.page_count(), 1);
    assert_eq!(state.trunk_capacity(), 13);
    assert!(state.check_range(1).is_ok());
    assert!(matches!(state.check_range(2), Err(PagerError::PageOutOfRange(2))));
    assert!(matches!(
        state.check_buffer_len(3),
        Err(PagerError::BufferLengthMismatch { expected: 128, actual: 3 })
    ));
    assert_eq!(state.locate_page(1, 128).unwrap(), 0);
}
