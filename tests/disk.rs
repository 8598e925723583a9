use bufferpool::disk::{get_file_offset, DiskManager, HeaderError, HEADER_BYTES, MAX_PAGES};

fn header(capacity: u16, used: u16, allocated: &[u32]) -> Vec<u8> {
    let mut h = vec![0u8; HEADER_BYTES];
    h[0] = (capacity >> 8) as u8;
    h[1] = (capacity & 0xFF) as u8;
    h[2] = (used >> 8) as u8;
    h[3] = (used & 0xFF) as u8;
    for &p in allocated {
        let i = p as usize;
        h[4 + i / 8] |= 1 << (i % 8);
    }
    h
}

fn load(h: &Vec<u8>) -> DiskManager {
    match DiskManager::new(h) {
        Ok(dm) => dm,
        Err(e) => panic!("header refused: {:?}", e),
    }
}

#[test]
fn fresh_header_is_empty() {
    let dm = load(&vec![0u8; HEADER_BYTES]);
    assert_eq!(dm.capacity(), 0);
    assert_eq!(dm.used(), 0);
    assert!(!dm.is_allocated(0));
}

#[test]
fn first_page_grows_empty_store() {
    let mut dm = load(&vec![0u8; HEADER_BYTES]);
    assert_eq!(dm.new_page(), Some(0));
    assert_eq!(dm.capacity(), 64);
    assert_eq!(dm.used(), 1);
    assert!(dm.is_allocated(0));
}

#[test]
fn capacity_many_pages_are_distinct_then_growth() {
    let mut dm = load(&header(64, 0, &[]));
    let mut ids = Vec::new();
    for _ in 0..64 {
        ids.push(dm.new_page().unwrap());
    }
    assert_eq!(dm.capacity(), 64);
    let mut sorted = ids.clone();
    sorted.sort();
    sorted.dedup();
    assert_eq!(sorted.len(), 64);
    assert_eq!(ids, (0u32..64).collect::<Vec<u32>>());
    // the next one needs more room
    assert_eq!(dm.new_page(), Some(64));
    assert_eq!(dm.capacity(), 128);
    assert_eq!(dm.used(), 65);
}

#[test]
fn lowest_free_page_is_reused() {
    let mut dm = load(&header(64, 3, &[0, 1, 2]));
    dm.delete_page(1);
    assert_eq!(dm.used(), 2);
    assert!(!dm.is_allocated(1));
    assert_eq!(dm.new_page(), Some(1));
    assert_eq!(dm.new_page(), Some(3));
}

#[test]
fn deleting_a_free_page_changes_nothing() {
    let mut dm = load(&header(64, 1, &[0]));
    dm.delete_page(10);
    assert_eq!(dm.used(), 1);
    assert!(dm.is_allocated(0));
}

#[test]
fn growth_stops_at_hard_maximum() {
    let all: Vec<u32> = (0u32..32760).collect();
    let mut dm = load(&header(32760, 32760, &all));
    assert_eq!(dm.new_page(), Some(32760));
    assert_eq!(dm.capacity(), MAX_PAGES);
}

#[test]
fn exhausted_store_returns_none() {
    let all: Vec<u32> = (0u32..32768).collect();
    let mut dm = load(&header(32768, 32768, &all));
    assert_eq!(dm.new_page(), None);
    assert_eq!(dm.capacity(), MAX_PAGES);
    assert_eq!(dm.used(), MAX_PAGES);
    dm.delete_page(5);
    assert_eq!(dm.new_page(), Some(5));
}

#[test]
fn persist_then_reload_keeps_bitmap() {
    let mut dm = load(&vec![0u8; HEADER_BYTES]);
    for _ in 0..5 {
        dm.new_page().unwrap();
    }
    dm.delete_page(2);
    let h = dm.persist();
    assert_eq!(h.len(), HEADER_BYTES);
    assert_eq!(&h[0..4], &[0u8, 64, 0, 4]);
    assert_eq!(h[4], 0b0001_1011);
    let again = load(&h);
    assert_eq!(again.capacity(), dm.capacity());
    assert_eq!(again.used(), 4);
    for p in 0u32..200 {
        assert_eq!(again.is_allocated(p), dm.is_allocated(p));
    }
    assert!(!again.is_allocated(2));
    assert!(again.is_allocated(4));
}

#[test]
fn header_wrong_length() {
    assert_eq!(DiskManager::new(&vec![0u8; 10]).err(), Some(HeaderError::WrongLength));
}

#[test]
fn header_capacity_too_large() {
    assert_eq!(
        DiskManager::new(&header(40000, 0, &[])).err(),
        Some(HeaderError::CapacityTooLarge)
    );
}

#[test]
fn header_stray_allocation() {
    assert_eq!(
        DiskManager::new(&header(8, 1, &[9])).err(),
        Some(HeaderError::StrayAllocation)
    );
}

#[test]
fn header_used_mismatch() {
    assert_eq!(
        DiskManager::new(&header(64, 2, &[0])).err(),
        Some(HeaderError::UsedMismatch)
    );
}

#[test]
fn file_offsets_skip_header_pages() {
    assert_eq!(get_file_offset(0), 16384);
    assert_eq!(get_file_offset(1), 20480);
    assert_eq!(get_file_offset(u32::MAX), (u32::MAX as u64 + 4) * 4096);
}
