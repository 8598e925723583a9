use bufferpool::disk::PAGE_SIZE;
use bufferpool::eviction::LruK;
use bufferpool::pool::{Access, PageGuard, Pool};
use std::collections::HashMap;

struct MemStore {
    pages: HashMap<u32, Vec<u8>>,
    writes: Vec<(u32, Vec<u8>)>,
}

impl MemStore {
    fn new() -> MemStore {
        MemStore { pages: HashMap::new(), writes: Vec::new() }
    }

    fn read(&self, id: u32) -> Vec<u8> {
        match self.pages.get(&id) {
            Some(p) => p.clone(),
            None => vec![0u8; PAGE_SIZE],
        }
    }

    fn write(&mut self, id: u32, bytes: Vec<u8>) {
        self.pages.insert(id, bytes.clone());
        self.writes.push((id, bytes));
    }
}

fn fetch(pool: &mut Pool, store: &mut MemStore, id: u32) -> Option<PageGuard> {
    assert!(pool.check_access());
    match pool.get_page(id) {
        Access::Hit(g) => Some(g),
        Access::Miss(v) => {
            let flush = v.flush().map(|(p, b)| (p, b.clone()));
            if let Some((old, bytes)) = flush {
                store.write(old, bytes);
            }
            let page = store.read(id);
            assert!(pool.check_claimed(&v));
            Some(pool.install(v, page))
        }
        Access::Full => None,
    }
}

fn pool_of(capacity: usize) -> Pool {
    Pool::new(capacity, LruK::new(capacity, 2))
}

#[test]
fn capacity_two_evicts_older_and_flushes() {
    let mut pool = pool_of(2);
    let mut store = MemStore::new();
    let g1 = fetch(&mut pool, &mut store, 1).unwrap();
    g1.write(&mut pool, vec![11u8; PAGE_SIZE]);
    let f1 = g1.frame();
    g1.release(&mut pool);
    let g2 = fetch(&mut pool, &mut store, 2).unwrap();
    g2.write(&mut pool, vec![22u8; PAGE_SIZE]);
    let f2 = g2.frame();
    g2.release(&mut pool);
    assert_ne!(f1, f2);
    // page 1 has the older history: its frame is reused, after a write-back
    let g3 = fetch(&mut pool, &mut store, 3).unwrap();
    assert_eq!(g3.frame(), f1);
    assert_eq!(store.writes.len(), 1);
    assert_eq!(store.writes[0].0, 1);
    assert_eq!(store.writes[0].1, vec![11u8; PAGE_SIZE]);
    g3.release(&mut pool);
    // the survivor kept its bytes
    match pool.get_page(2) {
        Access::Hit(g) => {
            assert_eq!(g.frame(), f2);
            assert_eq!(g.read(&pool), vec![22u8; PAGE_SIZE]);
            g.release(&mut pool);
        }
        _ => panic!("page 2 should be resident"),
    }
    // the evicted page comes back with what was written to it
    let again = fetch(&mut pool, &mut store, 1).unwrap();
    assert_eq!(again.read(&pool), vec![11u8; PAGE_SIZE]);
    again.release(&mut pool);
}

#[test]
fn pinned_pages_survive_eviction() {
    let mut pool = pool_of(3);
    let mut store = MemStore::new();
    let held1 = fetch(&mut pool, &mut store, 1).unwrap();
    held1.write(&mut pool, vec![1u8; PAGE_SIZE]);
    let held2 = fetch(&mut pool, &mut store, 2).unwrap();
    held2.write(&mut pool, vec![2u8; PAGE_SIZE]);
    for id in 3u32..10 {
        let g = fetch(&mut pool, &mut store, id).unwrap();
        assert_ne!(g.frame(), held1.frame());
        assert_ne!(g.frame(), held2.frame());
        g.release(&mut pool);
    }
    assert_eq!(held1.read(&pool), vec![1u8; PAGE_SIZE]);
    assert_eq!(held2.read(&pool), vec![2u8; PAGE_SIZE]);
    assert!(store.writes.iter().all(|(id, _)| *id != 1 && *id != 2));
}

#[test]
fn all_frames_pinned_gives_full() {
    let mut pool = pool_of(2);
    let mut store = MemStore::new();
    let a = fetch(&mut pool, &mut store, 1).unwrap();
    let b = fetch(&mut pool, &mut store, 2).unwrap();
    assert!(matches!(pool.get_page(3), Access::Full));
    // a resident page is still reachable
    let a2 = fetch(&mut pool, &mut store, 1).unwrap();
    assert_eq!(a2.frame(), a.frame());
    a2.release(&mut pool);
    let fa = a.frame();
    a.release(&mut pool);
    let c = fetch(&mut pool, &mut store, 3).unwrap();
    assert_eq!(c.frame(), fa);
    c.release(&mut pool);
    b.release(&mut pool);
}

#[test]
fn round_trip_through_eviction() {
    let mut pool = pool_of(1);
    let mut store = MemStore::new();
    let mut page = vec![0u8; PAGE_SIZE];
    for (i, b) in page.iter_mut().enumerate() {
        *b = (i % 251) as u8;
    }
    let g = fetch(&mut pool, &mut store, 7).unwrap();
    g.write(&mut pool, page.clone());
    g.release(&mut pool);
    let other = fetch(&mut pool, &mut store, 8).unwrap();
    assert_eq!(other.read(&pool), vec![0u8; PAGE_SIZE]);
    other.release(&mut pool);
    let back = fetch(&mut pool, &mut store, 7).unwrap();
    assert_eq!(back.read(&pool), page);
    back.release(&mut pool);
}

#[test]
fn read_only_frame_not_written_back() {
    let mut pool = pool_of(1);
    let mut store = MemStore::new();
    store.pages.insert(4, vec![4u8; PAGE_SIZE]);
    let g = fetch(&mut pool, &mut store, 4).unwrap();
    assert_eq!(g.read(&pool), vec![4u8; PAGE_SIZE]);
    g.release(&mut pool);
    let h = fetch(&mut pool, &mut store, 5).unwrap();
    h.release(&mut pool);
    assert_eq!(store.writes.len(), 0);
}

#[test]
fn written_frame_written_back_once() {
    let mut pool = pool_of(1);
    let mut store = MemStore::new();
    let g = fetch(&mut pool, &mut store, 4).unwrap();
    g.write(&mut pool, vec![9u8; PAGE_SIZE]);
    g.write(&mut pool, vec![8u8; PAGE_SIZE]);
    g.release(&mut pool);
    let h = fetch(&mut pool, &mut store, 5).unwrap();
    h.release(&mut pool);
    let k = fetch(&mut pool, &mut store, 6).unwrap();
    k.release(&mut pool);
    assert_eq!(store.writes.len(), 1);
    assert_eq!(store.writes[0], (4, vec![8u8; PAGE_SIZE]));
}

#[test]
fn resident_pages_have_distinct_frames() {
    let mut pool = pool_of(4);
    let mut store = MemStore::new();
    let mut frames = Vec::new();
    for id in [10u32, 20, 30, 40] {
        let g = fetch(&mut pool, &mut store, id).unwrap();
        frames.push(g.frame());
        g.release(&mut pool);
    }
    frames.sort();
    frames.dedup();
    assert_eq!(frames.len(), 4);
}

#[test]
fn cancelled_claim_keeps_old_page() {
    let mut pool = pool_of(1);
    let mut store = MemStore::new();
    let g = fetch(&mut pool, &mut store, 1).unwrap();
    g.write(&mut pool, vec![5u8; PAGE_SIZE]);
    g.release(&mut pool);
    match pool.get_page(2) {
        Access::Miss(v) => {
            assert_eq!(v.page_id(), 2);
            assert_eq!(v.flush().map(|(p, b)| (p, b.clone())), Some((1, vec![5u8; PAGE_SIZE])));
            pool.cancel(v);
        }
        _ => panic!("page 2 should miss"),
    }
    match pool.get_page(1) {
        Access::Hit(g) => {
            assert_eq!(g.read(&pool), vec![5u8; PAGE_SIZE]);
            g.release(&mut pool);
        }
        _ => panic!("page 1 should still be resident"),
    }
    assert_eq!(store.writes.len(), 0);
}

#[test]
fn dirty_pages_lists_written_frames() {
    let mut pool = pool_of(3);
    let mut store = MemStore::new();
    let a = fetch(&mut pool, &mut store, 1).unwrap();
    let b = fetch(&mut pool, &mut store, 2).unwrap();
    let c = fetch(&mut pool, &mut store, 3).unwrap();
    b.write(&mut pool, vec![2u8; PAGE_SIZE]);
    let fb = b.frame();
    a.release(&mut pool);
    b.release(&mut pool);
    c.release(&mut pool);
    let d = pool.dirty_pages();
    assert_eq!(d.len(), 1);
    assert_eq!(d[0], (2, vec![2u8; PAGE_SIZE]));
    assert!(fb < 3);
}

#[test]
fn extra_guard_keeps_frame_pinned() {
    let mut pool = pool_of(1);
    let mut store = MemStore::new();
    let g = fetch(&mut pool, &mut store, 1).unwrap();
    let f = g.frame();
    g.release(&mut pool);
    let again = PageGuard::new(&mut pool, 1, f);
    assert_eq!(again.page_id(), 1);
    assert_eq!(again.frame(), f);
    assert!(matches!(pool.get_page(2), Access::Full));
    again.release(&mut pool);
    assert!(matches!(pool.get_page(2), Access::Miss(_)));
}
