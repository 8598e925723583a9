use bufferpool::eviction::LruK;

#[test]
fn lru_k_prefers_oldest_second_access() {
    // frames A, B, C = 0, 1, 2; accesses A, B, C, A, B with K = 2
    let mut lru = LruK::new(3, 2);
    for f in [0usize, 1, 2, 0, 1] {
        lru.update_entry(f);
    }
    assert_eq!(lru.find_victim(&vec![0, 0, 0]), Some(2));
}

#[test]
fn lru_k_skips_pinned_frames() {
    let mut lru = LruK::new(3, 2);
    for f in [0usize, 1, 2, 0, 1] {
        lru.update_entry(f);
    }
    assert_eq!(lru.find_victim(&vec![0, 0, 1]), Some(0));
    assert_eq!(lru.find_victim(&vec![0, 0, 1]), Some(1));
    assert_eq!(lru.find_victim(&vec![0, 0, 1]), None);
}

#[test]
fn lru_k_all_pinned_gives_none() {
    let mut lru = LruK::new(2, 3);
    assert_eq!(lru.find_victim(&vec![1, 2]), None);
    assert!(lru.is_tracked(0));
    assert!(lru.is_tracked(1));
}

#[test]
fn lru_k_cold_frames_first_then_lowest_index() {
    let mut lru = LruK::new(3, 2);
    lru.update_entry(0);
    assert_eq!(lru.find_victim(&vec![0, 0, 0]), Some(1));
    assert!(!lru.is_tracked(1));
    assert_eq!(lru.find_victim(&vec![0, 0, 0]), Some(2));
    assert_eq!(lru.find_victim(&vec![0, 0, 0]), Some(0));
    assert_eq!(lru.find_victim(&vec![0, 0, 0]), None);
}

#[test]
fn lru_k_victim_is_tracked_again_after_access() {
    let mut lru = LruK::new(2, 2);
    lru.update_entry(0);
    lru.update_entry(1);
    assert_eq!(lru.find_victim(&vec![0, 0]), Some(0));
    lru.update_entry(0);
    assert!(lru.is_tracked(0));
    // frame 0 now has one access, later than frame 1's only access
    assert_eq!(lru.find_victim(&vec![0, 0]), Some(1));
}

#[test]
fn lru_k_older_history_evicted_first() {
    let mut lru = LruK::new(2, 2);
    lru.update_entry(0);
    lru.update_entry(0);
    lru.update_entry(1);
    lru.update_entry(1);
    // 0: [1, 2], 1: [3, 4]
    assert_eq!(lru.find_victim(&vec![0, 0]), Some(0));
}
