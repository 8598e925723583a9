use vstd::prelude::*;
use std::collections::HashMap;
use crate::bitmap::Bitmap;
use crate::disk::PAGE_SIZE;
use crate::eviction::{LruK, older_or_equal, first_history, advanced_history};

verus! {

broadcast use vstd::std_specs::hash::group_hash_axioms;

/// What a pool is, as the contracts see it.
pub struct PoolState {
    /// Page id to the frame that holds it.
    pub dir: Map<u32, usize>,
    /// For each frame, the page it holds.
    pub resident: Seq<Option<u32>>,
    /// For each frame, its bytes.
    pub pages: Seq<Seq<u8>>,
    /// For each frame, whether it was written since it was loaded.
    pub dirty: Seq<bool>,
    /// For each frame, the number of outstanding guards.
    pub pins: Seq<u32>,
    /// For each frame, its access history while it is an eviction candidate.
    pub histories: Seq<Option<Seq<u64>>>,
    /// Accesses each history remembers.
    pub depth: nat,
    /// Logical time of the latest access.
    pub now: u64,
}

/// The history of frame `f` after an access at `t`.
pub open spec fn touched(s: PoolState, f: int, t: u64) -> Seq<Option<Seq<u64>>> {
    s.histories.update(
        f,
        Some(
            match s.histories[f] {
                Some(h) => advanced_history(h, t),
                None => first_history(s.depth, t),
            },
        ),
    )
}

/// `f` is the victim LRU-K picks in `s`: unpinned, an eviction candidate,
/// with a history no later than that of any other unpinned candidate, and
/// the lowest such frame.
pub open spec fn is_lru_victim(s: PoolState, f: int) -> bool {
    &&& 0 <= f < s.pins.len()
    &&& s.pins[f] == 0
    &&& s.histories[f] is Some
    &&& forall|g: int|
        0 <= g < s.pins.len() && s.pins[g] == 0 && (#[trigger] s.histories[g]) is Some
            ==> older_or_equal(s.histories[f]->Some_0, s.histories[g]->Some_0)
    &&& forall|g: int|
        0 <= g < f && s.pins[g] == 0 && (#[trigger] s.histories[g]) is Some
            ==> !older_or_equal(s.histories[g]->Some_0, s.histories[f]->Some_0)
}

/// What must be written back before frame `f` is reused in `s`: its page and
/// bytes, when it holds a page that was written since it was loaded.
pub open spec fn pending_flush(s: PoolState, f: int) -> Option<(u32, Seq<u8>)> {
    if s.dirty[f] && s.resident[f] is Some {
        Some((s.resident[f]->Some_0, s.pages[f]))
    } else {
        None
    }
}

/// `t` is `s` with one more guard on frame `f`.
pub open spec fn pinned_in(s: PoolState, t: PoolState, f: int) -> bool {
    &&& t.pins == s.pins.update(f, (s.pins[f] + 1) as u32)
    &&& t.dir == s.dir
    &&& t.resident == s.resident
    &&& t.pages == s.pages
    &&& t.dirty == s.dirty
    &&& t.depth == s.depth
}

/// `t` is `s` after the guarded frame `f` was overwritten with `bytes`.
pub open spec fn written_in(s: PoolState, t: PoolState, f: int, bytes: Seq<u8>) -> bool {
    &&& t.pages == s.pages.update(f, bytes)
    &&& t.dirty == s.dirty.update(f, true)
    &&& t.dir == s.dir
    &&& t.resident == s.resident
    &&& t.pins == s.pins
    &&& t.histories == s.histories
    &&& t.depth == s.depth
    &&& t.now == s.now
}

/// `t` is `s` after a guard on frame `f` was released.
pub open spec fn released_in(s: PoolState, t: PoolState, f: int) -> bool {
    &&& t.pins == s.pins.update(f, (s.pins[f] - 1) as u32)
    &&& t.pages == s.pages
    &&& t.dirty == s.dirty
    &&& t.dir == s.dir
    &&& t.resident == s.resident
    &&& t.histories == s.histories
    &&& t.depth == s.depth
    &&& t.now == s.now
}

/// `t` is `s` after page `id` was loaded with `bytes` into frame `f`,
/// replacing whatever page `f` held, and pinned once.
pub open spec fn loaded_in(s: PoolState, t: PoolState, id: u32, f: int, bytes: Seq<u8>) -> bool {
    &&& t.dir == (match s.resident[f] {
        Some(old_id) => s.dir.remove(old_id),
        None => s.dir,
    }).insert(id, f as usize)
    &&& t.resident == s.resident.update(f, Some(id))
    &&& t.pages == s.pages.update(f, bytes)
    &&& t.dirty == s.dirty.update(f, false)
    &&& t.pins == s.pins.update(f, 1)
    &&& t.now == s.now + 1
    &&& t.histories == touched(s, f, t.now)
    &&& t.depth == s.depth
}

/// A checked-out page: while it is held, its frame keeps a pin and cannot be
/// evicted.
pub struct PageGuard {
    page_id: u32,
    pool_idx: usize,
}

/// A frame claimed for loading a page that missed: write back `flush` (page
/// and bytes) if there is one, read the page, then `Pool::install` it; or, if
/// the write-back fails, give the frame back with `Pool::cancel`.
pub struct Victim {
    page_id: u32,
    frame: usize,
    flush: Option<(u32, Vec<u8>)>,
}

/// The outcome of looking a page up.
pub enum Access {
    /// The page is resident; it is now pinned.
    Hit(PageGuard),
    /// The page is not resident; a frame was claimed for it.
    Miss(Victim),
    /// The page is not resident and every frame is pinned.
    Full,
}

impl PageGuard {
    pub closed spec fn spec_page_id(&self) -> u32 {
        self.page_id
    }

    pub closed spec fn spec_frame(&self) -> usize {
        self.pool_idx
    }

    /// The page this guard holds.
    pub fn page_id(&self) -> (r: u32)
        ensures
            r == self.spec_page_id(),
    {
        self.page_id
    }

    /// The frame the page sits in.
    pub fn frame(&self) -> (r: usize)
        ensures
            r == self.spec_frame(),
    {
        self.pool_idx
    }
}

impl Victim {
    pub closed spec fn spec_page_id(&self) -> u32 {
        self.page_id
    }

    pub closed spec fn spec_frame(&self) -> usize {
        self.frame
    }

    pub closed spec fn spec_flush(&self) -> Option<(u32, Seq<u8>)> {
        match self.flush {
            Some(p) => Some((p.0, p.1@)),
            None => None,
        }
    }

    /// The page to load.
    pub fn page_id(&self) -> (r: u32)
        ensures
            r == self.spec_page_id(),
    {
        self.page_id
    }

    /// The frame claimed for it.
    pub fn frame(&self) -> (r: usize)
        ensures
            r == self.spec_frame(),
    {
        self.frame
    }

    /// The page that must be written back first, and its bytes.
    pub fn flush(&self) -> (r: Option<(u32, &Vec<u8>)>)
        ensures
            match r {
                Some(p) => self.spec_flush() == Some((p.0, p.1@)),
                None => self.spec_flush() is None,
            },
    {
        match &self.flush {
            Some(p) => Some((p.0, &p.1)),
            None => None,
        }
    }
}

/// A fixed number of frames caching pages of the page store, with a
/// directory from page ids to frames, pin counts, dirty bits and an LRU-K
/// eviction policy.
pub struct Pool {
    cache: HashMap<u32, usize>,
    frames: Vec<Vec<u8>>,
    frame_to_id: Vec<Option<u32>>,
    dirty: Bitmap,
    pinned: Vec<u32>,
    strategy: LruK,
}

impl View for Pool {
    type V = PoolState;

    closed spec fn view(&self) -> PoolState {
        PoolState {
            dir: self.cache@,
            resident: self.frame_to_id@,
            pages: Seq::new(self.frames@.len(), |i: int| self.frames@[i]@),
            dirty: self.dirty@,
            pins: self.pinned@,
            histories: self.strategy.histories(),
            depth: self.strategy.depth(),
            now: self.strategy.now(),
        }
    }
}

impl Pool {
    /// Number of frames.
    pub closed spec fn spec_capacity(&self) -> nat {
        self.frames@.len()
    }

    pub closed spec fn wf(&self) -> bool {
        let n = self.frames@.len();
        &&& n > 0
        &&& forall|i: int| 0 <= i < n ==> (#[trigger] self.frames@[i])@.len() == PAGE_SIZE
        &&& self.frame_to_id@.len() == n
        &&& self.pinned@.len() == n
        &&& self.dirty.wf()
        &&& self.dirty@.len() == n
        &&& self.strategy.wf()
        &&& self.strategy.histories().len() == n
        &&& forall|p: u32| #[trigger]
            self.cache@.contains_key(p) ==> self.cache@[p] < n && self.frame_to_id@[self.cache@[p] as int]
                == Some(p)
        &&& forall|f: int|
            0 <= f < n && (#[trigger] self.frame_to_id@[f]) is Some ==> self.cache@.contains_key(
                self.frame_to_id@[f]->Some_0,
            ) && self.cache@[self.frame_to_id@[f]->Some_0] == f
    }

    /// Preconditions of an access that only limits of the machine impose: the
    /// logical clock and every pin count can still be incremented.
    pub open spec fn can_access(&self) -> bool {
        &&& self@.now < u64::MAX
        &&& forall|f: int| 0 <= f < self@.pins.len() ==> #[trigger] self@.pins[f] < u32::MAX
    }

    /// `g` is a live guard of this pool.
    pub open spec fn holds(&self, g: &PageGuard) -> bool {
        &&& g.spec_frame() < self@.pins.len()
        &&& self@.resident[g.spec_frame() as int] == Some(g.spec_page_id())
        &&& self@.pins[g.spec_frame() as int] > 0
    }

    /// `v` can be installed: its frame is still unpinned and claimed, and its
    /// page is still not resident.
    pub open spec fn claimed(&self, v: &Victim) -> bool {
        &&& v.spec_frame() < self@.pins.len()
        &&& self@.pins[v.spec_frame() as int] == 0
        &&& self@.histories[v.spec_frame() as int] is None
        &&& !self@.dir.contains_key(v.spec_page_id())
    }

    /// A pool of `capacity` empty frames, evicting by `strategy`.
    pub fn new(capacity: usize, strategy: LruK) -> (r: Pool)
        requires
            capacity > 0,
            strategy.wf(),
            strategy.histories().len() == capacity,
        ensures
            r.wf(),
            r.spec_capacity() == capacity,
            r@.dir == Map::<u32, usize>::empty(),
            r@.resident == Seq::new(capacity as nat, |i: int| None::<u32>),
            r@.pages == Seq::new(capacity as nat, |i: int| Seq::new(PAGE_SIZE as nat, |j: int| 0u8)),
            r@.dirty == Seq::new(capacity as nat, |i: int| false),
            r@.pins == Seq::new(capacity as nat, |i: int| 0u32),
            r@.histories == strategy.histories(),
            r@.depth == strategy.depth(),
            r@.now == strategy.now(),
    {
        let mut frames: Vec<Vec<u8>> = Vec::new();
        let mut pinned: Vec<u32> = Vec::new();
        let mut frame_to_id: Vec<Option<u32>> = Vec::new();
        let mut i: usize = 0;
        while i < capacity
            invariant
                i <= capacity,
                frames@.len() == i,
                pinned@.len() == i,
                frame_to_id@.len() == i,
                forall|j: int| 0 <= j < i ==> (#[trigger] frames@[j])@ == Seq::new(PAGE_SIZE as nat, |k: int| 0u8),
                forall|j: int| 0 <= j < i ==> #[trigger] pinned@[j] == 0u32,
                forall|j: int| 0 <= j < i ==> #[trigger] frame_to_id@[j] == None::<u32>,
            decreases capacity - i,
        {
            let page: Vec<u8> = vec![0u8; PAGE_SIZE];
            assert(page@ =~= Seq::new(PAGE_SIZE as nat, |k: int| 0u8));
            frames.push(page);
            pinned.push(0);
            frame_to_id.push(None);
            i = i + 1;
        }
        let r = Pool {
            cache: HashMap::new(),
            frames,
            dirty: Bitmap::with_capacity(capacity),
            frame_to_id,
            pinned,
            strategy,
        };
        assert(r@.resident =~= Seq::new(capacity as nat, |i: int| None::<u32>));
        assert(r@.pages =~= Seq::new(capacity as nat, |i: int| Seq::new(PAGE_SIZE as nat, |j: int| 0u8)));
        assert(r@.pins =~= Seq::new(capacity as nat, |i: int| 0u32));
        r
    }

    /// Whether `can_access` holds.
    pub fn check_access(&self) -> (r: bool)
        requires
            self.wf(),
        ensures
            r == self.can_access(),
    {
        if !self.strategy.before_last_tick() {
            return false;
        }
        let mut i: usize = 0;
        while i < self.pinned.len()
            invariant
                i <= self.pinned@.len(),
                self@.now < u64::MAX,
                forall|f: int| 0 <= f < i ==> #[trigger] self.pinned@[f] < u32::MAX,
            decreases self.pinned@.len() - i,
        {
            if self.pinned[i] == u32::MAX {
                assert(self@.pins[i as int] == u32::MAX);
                return false;
            }
            i = i + 1;
        }
        true
    }

    /// Whether `claimed(v)` holds.
    pub fn check_claimed(&self, v: &Victim) -> (r: bool)
        requires
            self.wf(),
        ensures
            r == self.claimed(v),
    {
        v.frame < self.pinned.len() && self.pinned[v.frame] == 0 && !self.strategy.is_tracked(
            v.frame,
        ) && !self.cache.contains_key(&v.page_id)
    }

    /// Looks page `id` up. On a hit the frame is pinned and its access
    /// recorded. On a miss the LRU-K victim among unpinned frames is claimed
    /// (it stops being an eviction candidate) and returned with what must be
    /// written back before it is reused; nothing else changes. When every
    /// candidate is pinned, nothing changes.
    pub fn get_page(&mut self, id: u32) -> (r: Access)
        requires
            old(self).wf(),
            old(self).can_access(),
        ensures
            final(self).wf(),
            final(self).spec_capacity() == old(self).spec_capacity(),
            match r {
                Access::Hit(g) => {
                    &&& old(self)@.dir.contains_key(id)
                    &&& g.spec_page_id() == id
                    &&& g.spec_frame() == old(self)@.dir[id]
                    &&& pinned_in(old(self)@, final(self)@, g.spec_frame() as int)
                    &&& final(self)@.now == old(self)@.now + 1
                    &&& final(self)@.histories == touched(
                        old(self)@,
                        g.spec_frame() as int,
                        final(self)@.now,
                    )
                    &&& final(self).holds(&g)
                },
                Access::Miss(v) => {
                    &&& !old(self)@.dir.contains_key(id)
                    &&& v.spec_page_id() == id
                    &&& is_lru_victim(old(self)@, v.spec_frame() as int)
                    &&& v.spec_flush() == pending_flush(old(self)@, v.spec_frame() as int)
                    &&& final(self)@ == (PoolState {
                        histories: old(self)@.histories.update(v.spec_frame() as int, None),
                        ..old(self)@
                    })
                    &&& final(self).claimed(&v)
                },
                Access::Full => {
                    &&& !old(self)@.dir.contains_key(id)
                    &&& forall|f: int|
                        0 <= f < old(self)@.pins.len() && (#[trigger] old(self)@.histories[f]) is Some
                            ==> old(self)@.pins[f] > 0
                    &&& final(self)@ == old(self)@
                },
            },
    {
        match self.cache.get(&id) {
            Some(idx) => {
                let f: usize = *idx;
                let g = PageGuard::new(self, id, f);
                self.strategy.update_entry(f);
                Access::Hit(g)
            },
            None => {
                match self.strategy.find_victim(&self.pinned) {
                    None => Access::Full,
                    Some(f) => {
                        let flush = match self.frame_to_id[f] {
                            Some(old_id) => {
                                if self.dirty.check(f) {
                                    let bytes = self.frames[f].clone();
                                    assert(bytes@ =~= self.frames@[f as int]@);
                                    Some((old_id, bytes))
                                } else {
                                    None
                                }
                            },
                            None => None,
                        };
                        let v = Victim { page_id: id, frame: f, flush };
                        assert(self@ =~= PoolState {
                            histories: old(self)@.histories.update(f as int, None),
                            ..old(self)@
                        });
                        Access::Miss(v)
                    },
                }
            },
        }
    }

    /// Loads `page` into the claimed frame as page `v`'s id. The page the
    /// frame held leaves the directory and its dirty bit is cleared: its
    /// write-back, if `v` asked for one, is the caller's to have done. The
    /// new page is pinned once and its access recorded.
    pub fn install(&mut self, v: Victim, page: Vec<u8>) -> (g: PageGuard)
        requires
            old(self).wf(),
            old(self).claimed(&v),
            old(self)@.now < u64::MAX,
            page@.len() == PAGE_SIZE,
        ensures
            final(self).wf(),
            final(self).spec_capacity() == old(self).spec_capacity(),
            g.spec_page_id() == v.spec_page_id(),
            g.spec_frame() == v.spec_frame(),
            loaded_in(old(self)@, final(self)@, v.spec_page_id(), v.spec_frame() as int, page@),
            final(self).holds(&g),
    {
        let f = v.frame;
        let id = v.page_id;
        let ghost s = self@;
        match self.frame_to_id[f] {
            Some(victim_id) => {
                self.cache.remove(&victim_id);
            },
            None => {},
        }
        self.dirty.unset(f);
        self.frame_to_id.set(f, Some(id));
        self.cache.insert(id, f);
        self.frames.set(f, page);
        self.pinned.set(f, 1);
        self.strategy.update_entry(f);
        assert(self@.pages =~= s.pages.update(f as int, self.frames@[f as int]@));
        assert(self@.dir =~= (match s.resident[f as int] {
            Some(old_id) => s.dir.remove(old_id),
            None => s.dir,
        }).insert(id, f));
        PageGuard { page_id: id, pool_idx: f }
    }

    /// Gives a claimed frame back to the eviction policy, unchanged, when
    /// its write-back failed; its access is recorded anew.
    pub fn cancel(&mut self, v: Victim)
        requires
            old(self).wf(),
            v.spec_frame() < old(self).spec_capacity(),
            old(self)@.now < u64::MAX,
        ensures
            final(self).wf(),
            final(self).spec_capacity() == old(self).spec_capacity(),
            final(self)@.now == old(self)@.now + 1,
            final(self)@ == (PoolState {
                histories: touched(old(self)@, v.spec_frame() as int, final(self)@.now),
                now: final(self)@.now,
                ..old(self)@
            }),
    {
        self.strategy.update_entry(v.frame);
    }

    /// The pages to write back on shutdown: each frame that holds a page
    /// written since it was loaded, in frame order, with its bytes.
    pub fn dirty_pages(&self) -> (r: Vec<(u32, Vec<u8>)>)
        requires
            self.wf(),
        ensures
            r@.len() == dirty_list(self@, self@.pins.len() as int).len(),
            forall|i: int|
                0 <= i < r@.len() ==> (#[trigger] r@[i]).0 == dirty_list(
                    self@,
                    self@.pins.len() as int,
                )[i].0 && r@[i].1@ == dirty_list(self@, self@.pins.len() as int)[i].1,
    {
        let mut out: Vec<(u32, Vec<u8>)> = Vec::new();
        let mut i: usize = 0;
        while i < self.frames.len()
            invariant
                self.wf(),
                i <= self.frames@.len(),
                out@.len() == dirty_list(self@, i as int).len(),
                forall|j: int|
                    0 <= j < out@.len() ==> (#[trigger] out@[j]).0 == dirty_list(self@, i as int)[j].0
                        && out@[j].1@ == dirty_list(self@, i as int)[j].1,
            decreases self.frames@.len() - i,
        {
            match self.frame_to_id[i] {
                Some(id) => {
                    if self.dirty.check(i) {
                        let bytes = self.frames[i].clone();
                        assert(bytes@ =~= self.frames@[i as int]@);
                        out.push((id, bytes));
                    }
                },
                None => {},
            }
            i = i + 1;
        }
        out
    }
}

/// The write-backs owed by the first `n` frames of `s`, in frame order.
pub open spec fn dirty_list(s: PoolState, n: int) -> Seq<(u32, Seq<u8>)>
    decreases n,
{
    if n <= 0 {
        Seq::empty()
    } else {
        let prev = dirty_list(s, n - 1);
        match pending_flush(s, n - 1) {
            Some(p) => prev.push(p),
            None => prev,
        }
    }
}

impl PageGuard {
    /// Pins frame `pool_idx`, which holds page `page_id`.
    pub fn new(pool: &mut Pool, page_id: u32, pool_idx: usize) -> (r: PageGuard)
        requires
            old(pool).wf(),
            pool_idx < old(pool).spec_capacity(),
            old(pool)@.resident[pool_idx as int] == Some(page_id),
            old(pool)@.pins[pool_idx as int] < u32::MAX,
        ensures
            final(pool).wf(),
            final(pool).spec_capacity() == old(pool).spec_capacity(),
            pinned_in(old(pool)@, final(pool)@, pool_idx as int),
            final(pool)@.histories == old(pool)@.histories,
            final(pool)@.now == old(pool)@.now,
            r.spec_page_id() == page_id,
            r.spec_frame() == pool_idx,
            final(pool).holds(&r),
    {
        let pin_count = pool.pinned[pool_idx];
        pool.pinned.set(pool_idx, pin_count + 1);
        PageGuard { page_id, pool_idx }
    }

    /// A copy of the page's current bytes.
    pub fn read(&self, pool: &Pool) -> (r: Vec<u8>)
        requires
            pool.wf(),
            pool.holds(self),
        ensures
            r@ == pool@.pages[self.spec_frame() as int],
    {
        let res = pool.frames[self.pool_idx].clone();
        assert(res@ =~= pool.frames@[self.pool_idx as int]@);
        res
    }

    /// Replaces the page's bytes and marks its frame dirty.
    pub fn write(&self, pool: &mut Pool, page: Vec<u8>)
        requires
            old(pool).wf(),
            old(pool).holds(self),
            page@.len() == PAGE_SIZE,
        ensures
            final(pool).wf(),
            final(pool).spec_capacity() == old(pool).spec_capacity(),
            written_in(old(pool)@, final(pool)@, self.spec_frame() as int, page@),
            final(pool).holds(self),
    {
        let ghost s = pool@;
        pool.dirty.set(self.pool_idx);
        pool.frames.set(self.pool_idx, page);
        assert(pool@.pages =~= s.pages.update(self.pool_idx as int, pool.frames@[self.pool_idx as int]@));
    }

    /// Gives the guard up: its frame loses one pin.
    pub fn release(self, pool: &mut Pool)
        requires
            old(pool).wf(),
            old(pool).holds(&self),
        ensures
            final(pool).wf(),
            final(pool).spec_capacity() == old(pool).spec_capacity(),
            released_in(old(pool)@, final(pool)@, self.spec_frame() as int),
    {
        let pin_count = pool.pinned[self.pool_idx];
        pool.pinned.set(self.pool_idx, pin_count - 1);
    }
}

/// The directory is injective: two resident pages never share a frame.
pub proof fn lemma_directory_injective(pool: &Pool, p: u32, q: u32)
    requires
        pool.wf(),
        pool@.dir.contains_key(p),
        pool@.dir.contains_key(q),
        pool@.dir[p] == pool@.dir[q],
    ensures
        p == q,
{
}

/// A frame under a live guard is never the eviction victim.
pub proof fn lemma_guarded_frame_not_victim(pool: &Pool, g: &PageGuard, f: int)
    requires
        pool.wf(),
        pool.holds(g),
        is_lru_victim(pool@, f),
    ensures
        f != g.spec_frame(),
{
}

/// Bytes written through a guard are exactly what the frame owes the page
/// store once the guard is released: when the frame is next claimed as a
/// victim, `get_page` hands out this one write-back of the page with these
/// bytes.
pub proof fn lemma_written_bytes_flushed(
    s0: PoolState,
    s1: PoolState,
    s2: PoolState,
    f: int,
    id: u32,
    bytes: Seq<u8>,
)
    requires
        0 <= f < s0.pins.len(),
        s0.pages.len() == s0.pins.len(),
        s0.dirty.len() == s0.pins.len(),
        s0.resident.len() == s0.pins.len(),
        s0.resident[f] == Some(id),
        written_in(s0, s1, f, bytes),
        released_in(s1, s2, f),
    ensures
        pending_flush(s2, f) == Some((id, bytes)),
{
}

/// A page loaded with `bytes` reads back as `bytes`, under its id, in the
/// frame the directory gives for it.
pub proof fn lemma_loaded_bytes_read(s0: PoolState, s1: PoolState, id: u32, f: int, bytes: Seq<u8>)
    requires
        0 <= f < s0.pins.len(),
        s0.pages.len() == s0.pins.len(),
        s0.resident.len() == s0.pins.len(),
        loaded_in(s0, s1, id, f, bytes),
    ensures
        s1.dir.contains_key(id),
        s1.dir[id] == f as usize,
        s1.resident[f] == Some(id),
        s1.pages[f] == bytes,
{
}

/// A frame that is only read after loading owes no write-back: once loaded,
/// further hits on it and the release of its guards leave it clean.
pub proof fn lemma_read_only_frame_clean(
    s0: PoolState,
    s1: PoolState,
    s2: PoolState,
    s3: PoolState,
    id: u32,
    f: int,
    bytes: Seq<u8>,
)
    requires
        0 <= f < s0.pins.len(),
        s0.dirty.len() == s0.pins.len(),
        s0.resident.len() == s0.pins.len(),
        loaded_in(s0, s1, id, f, bytes),
        pinned_in(s1, s2, f),
        released_in(s2, s3, f),
    ensures
        pending_flush(s3, f) is None,
{
}

} // verus!
