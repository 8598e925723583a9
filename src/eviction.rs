use vstd::prelude::*;

verus! {

/// Position in the ring of the `j`-th oldest timestamp, when the newest sits
/// at `head` (the slot after `head` holds the oldest).
pub open spec fn ring_index(head: int, j: int, k: int) -> int {
    if head + 1 + j < k {
        head + 1 + j
    } else {
        head + 1 + j - k
    }
}

/// `j` is the first position where `a` and `b` differ, and `a` is older there.
pub open spec fn older_at(a: Seq<u64>, b: Seq<u64>, j: int) -> bool {
    &&& 0 <= j < a.len()
    &&& j < b.len()
    &&& a[j] < b[j]
    &&& forall|i: int| 0 <= i < j ==> a[i] == b[i]
}

/// Victim preference between two access histories (oldest first): `a` is
/// claimed no later than `b` when the histories are equal, or when at the
/// first timestamp where they differ `a`'s is older.
pub open spec fn older_or_equal(a: Seq<u64>, b: Seq<u64>) -> bool {
    a == b || exists|j: int| older_at(a, b, j)
}

/// The history of a frame accessed for the first time at `t`: every older
/// slot still holds the zero timestamp.
pub open spec fn first_history(k: nat, t: u64) -> Seq<u64> {
    Seq::new(k, |j: int| if j == k - 1 { t } else { 0u64 })
}

/// The history after one more access at `t`: the oldest timestamp drops out.
pub open spec fn advanced_history(h: Seq<u64>, t: u64) -> Seq<u64> {
    h.drop_first().push(t)
}

/// The preference order is transitive.
pub proof fn lemma_older_or_equal_transitive(a: Seq<u64>, b: Seq<u64>, c: Seq<u64>)
    requires
        older_or_equal(a, b),
        older_or_equal(b, c),
    ensures
        older_or_equal(a, c),
{
    if a != b && b != c {
        let j1 = choose|j: int| older_at(a, b, j);
        let j2 = choose|j: int| older_at(b, c, j);
        if j1 <= j2 {
            assert(older_at(a, c, j1));
        } else {
            assert(older_at(a, c, j2));
        }
    }
}

/// The last `k` access timestamps of one frame, kept in a ring.
struct TimeRingBuffer {
    frame: usize,
    head: usize,
    times: Vec<u64>,
}

impl TimeRingBuffer {
    spec fn wf(&self) -> bool {
        &&& self.times@.len() > 0
        &&& self.head < self.times@.len()
    }

    /// The timestamps, oldest first.
    spec fn history(&self) -> Seq<u64> {
        let k = self.times@.len() as int;
        Seq::new(k as nat, |j: int| self.times@[ring_index(self.head as int, j, k)])
    }

    fn new(frame: usize, size: usize) -> (r: Self)
        requires
            size > 0,
        ensures
            r.wf(),
            r.frame == frame,
            r.times@.len() == size,
            r.history() == Seq::new(size as nat, |j: int| 0u64),
    {
        let r = TimeRingBuffer { frame, head: 0, times: vec![0u64; size] };
        assert(r.history() =~= Seq::new(size as nat, |j: int| 0u64));
        r
    }

    fn from(frame: usize, size: usize, time: u64) -> (r: Self)
        requires
            size > 0,
        ensures
            r.wf(),
            r.frame == frame,
            r.times@.len() == size,
            r.history() == first_history(size as nat, time),
    {
        let mut times: Vec<u64> = vec![0u64; size];
        times.set(0, time);
        let r = TimeRingBuffer { frame, head: 0, times };
        assert(r.history() =~= first_history(size as nat, time));
        r
    }

    /// Records an access at `time`, overwriting the oldest slot.
    fn update(self, time: u64) -> (r: Self)
        requires
            self.wf(),
        ensures
            r.wf(),
            r.frame == self.frame,
            r.times@.len() == self.times@.len(),
            r.history() == advanced_history(self.history(), time),
    {
        let mut updated = self;
        let size = updated.times.len();
        updated.head = if updated.head + 1 == size {
            0
        } else {
            updated.head + 1
        };
        updated.times.set(updated.head, time);
        assert(updated.history() =~= advanced_history(self.history(), time));
        updated
    }

    /// Compares the histories of two rings of the same size: true when this
    /// one is to be claimed no later than `other`.
    fn precedes(&self, other: &Self) -> (r: bool)
        requires
            self.wf(),
            other.wf(),
            self.times@.len() == other.times@.len(),
        ensures
            r == older_or_equal(self.history(), other.history()),
            !r ==> older_or_equal(other.history(), self.history()),
    {
        let size = self.times.len();
        let ghost a = self.history();
        let ghost b = other.history();
        let mut j: usize = 0;
        while j < size
            invariant
                j <= size,
                size == self.times@.len(),
                size == other.times@.len(),
                self.wf(),
                other.wf(),
                a == self.history(),
                b == other.history(),
                forall|i: int| 0 <= i < j ==> a[i] == b[i],
            decreases size - j,
        {
            let x: usize = if j < size - 1 - self.head {
                self.head + 1 + j
            } else {
                j - (size - 1 - self.head)
            };
            let y: usize = if j < size - 1 - other.head {
                other.head + 1 + j
            } else {
                j - (size - 1 - other.head)
            };
            let first = self.times[x];
            let second = other.times[y];
            assert(first == a[j as int] && second == b[j as int]);
            if first < second {
                assert(older_at(a, b, j as int));
                return true;
            }
            if second < first {
                assert(older_at(b, a, j as int));
                assert(a != b);
                assert forall|j2: int| !older_at(a, b, j2) by {
                    if older_at(a, b, j2) {
                        if j2 < j {
                        } else if j2 > j {
                            assert(a[j as int] == b[j as int]);
                        }
                    }
                }
                return false;
            }
            j = j + 1;
        }
        assert(a =~= b);
        true
    }
}

/// LRU-K eviction: each frame keeps its last `k` access times; the victim is
/// the unpinned tracked frame whose history (oldest first) is least under
/// `older_or_equal`, so the frame with the oldest k-th most recent access is
/// claimed first, and frames never accessed are claimed before all others.
pub struct LruK {
    slots: Vec<Option<TimeRingBuffer>>,
    k: usize,
    clock: u64,
}

impl LruK {
    pub closed spec fn wf(&self) -> bool {
        &&& self.k > 0
        &&& forall|f: int|
            0 <= f < self.slots@.len() && (#[trigger] self.slots@[f]) is Some ==> {
                let rb = self.slots@[f]->Some_0;
                &&& rb.wf()
                &&& rb.frame == f
                &&& rb.times@.len() == self.k
            }
    }

    /// For each frame, its access history (oldest first) while it is tracked.
    pub closed spec fn histories(&self) -> Seq<Option<Seq<u64>>> {
        Seq::new(
            self.slots@.len(),
            |f: int|
                match self.slots@[f] {
                    Some(rb) => Some(rb.history()),
                    None => None,
                },
        )
    }

    /// How many accesses each history remembers.
    pub closed spec fn depth(&self) -> nat {
        self.k as nat
    }

    /// The logical time of the latest access; every access gets a later one.
    pub closed spec fn now(&self) -> u64 {
        self.clock
    }

    /// Tracks `buffer_size` frames, none accessed yet.
    pub fn new(buffer_size: usize, k: usize) -> (r: LruK)
        requires
            k > 0,
        ensures
            r.wf(),
            r.depth() == k,
            r.now() == 0,
            r.histories() == Seq::new(
                buffer_size as nat,
                |f: int| Some(Seq::new(k as nat, |j: int| 0u64)),
            ),
    {
        let mut slots: Vec<Option<TimeRingBuffer>> = Vec::new();
        let mut i: usize = 0;
        while i < buffer_size
            invariant
                i <= buffer_size,
                k > 0,
                slots@.len() == i,
                forall|f: int|
                    0 <= f < i ==> {
                        &&& (#[trigger] slots@[f]) is Some
                        &&& slots@[f]->Some_0.wf()
                        &&& slots@[f]->Some_0.frame == f
                        &&& slots@[f]->Some_0.times@.len() == k
                        &&& slots@[f]->Some_0.history() == Seq::new(k as nat, |j: int| 0u64)
                    },
            decreases buffer_size - i,
        {
            let b = TimeRingBuffer::new(i, k);
            slots.push(Some(b));
            assert(slots@[i as int] == Some(b));
            i = i + 1;
        }
        let r = LruK { slots, k, clock: 0 };
        assert(r.histories() =~= Seq::new(
            buffer_size as nat,
            |f: int| Some(Seq::new(k as nat, |j: int| 0u64)),
        ));
        r
    }

    /// Whether another access can still be given a later time.
    pub fn before_last_tick(&self) -> (r: bool)
        ensures
            r == (self.now() < u64::MAX),
    {
        self.clock < u64::MAX
    }

    /// Whether `frame` is currently a candidate for eviction.
    pub fn is_tracked(&self, frame: usize) -> (r: bool)
        requires
            frame < self.histories().len(),
        ensures
            r == self.histories()[frame as int] is Some,
    {
        self.slots[frame].is_some()
    }

    /// Records an access to `frame` at the next logical time. A frame that is
    /// not tracked (it was just claimed as a victim) is tracked again, with a
    /// history of this one access.
    pub fn update_entry(&mut self, frame: usize)
        requires
            old(self).wf(),
            frame < old(self).histories().len(),
            old(self).now() < u64::MAX,
        ensures
            final(self).wf(),
            final(self).depth() == old(self).depth(),
            final(self).now() == old(self).now() + 1,
            final(self).histories() == old(self).histories().update(
                frame as int,
                Some(
                    match old(self).histories()[frame as int] {
                        Some(h) => advanced_history(h, final(self).now()),
                        None => first_history(old(self).depth(), final(self).now()),
                    },
                ),
            ),
    {
        self.clock = self.clock + 1;
        let time = self.clock;
        let mut slot: Option<TimeRingBuffer> = None;
        std::mem::swap(&mut self.slots[frame], &mut slot);
        let new_entry = match slot {
            Some(copy) => copy.update(time),
            None => TimeRingBuffer::from(frame, self.k, time),
        };
        self.slots.set(frame, Some(new_entry));
        assert(self.histories() =~= old(self).histories().update(
            frame as int,
            Some(
                match old(self).histories()[frame as int] {
                    Some(h) => advanced_history(h, self.now()),
                    None => first_history(old(self).depth(), self.now()),
                },
            ),
        ));
    }

    /// Claims a victim among the frames whose pin count is zero: the tracked
    /// one whose history is least in the preference order (the lowest frame
    /// index among equals). The victim stops
    /// being tracked. Returns `None`, changing nothing, when every tracked
    /// frame is pinned.
    pub fn find_victim(&mut self, pinned: &Vec<u32>) -> (r: Option<usize>)
        requires
            old(self).wf(),
            pinned@.len() == old(self).histories().len(),
        ensures
            final(self).wf(),
            final(self).depth() == old(self).depth(),
            final(self).now() == old(self).now(),
            match r {
                Some(f) => {
                    &&& f < pinned@.len()
                    &&& pinned@[f as int] == 0
                    &&& old(self).histories()[f as int] is Some
                    &&& forall|g: int|
                        0 <= g < pinned@.len() && pinned@[g] == 0
                            && (#[trigger] old(self).histories()[g]) is Some
                            ==> older_or_equal(
                            old(self).histories()[f as int]->Some_0,
                            old(self).histories()[g]->Some_0,
                        )
                    &&& forall|g: int|
                        0 <= g < f && pinned@[g] == 0 && (#[trigger] old(self).histories()[g]) is Some
                            ==> !older_or_equal(
                            old(self).histories()[g]->Some_0,
                            old(self).histories()[f as int]->Some_0,
                        )
                    &&& final(self).histories() == old(self).histories().update(f as int, None)
                },
                None => {
                    &&& forall|g: int|
                        0 <= g < pinned@.len() && (#[trigger] old(self).histories()[g]) is Some
                            ==> pinned@[g] > 0
                    &&& final(self).histories() == old(self).histories()
                },
            },
    {
        let n = self.slots.len();
        let ghost hs = self.histories();
        let mut best: Option<usize> = None;
        let mut i: usize = 0;
        while i < n
            invariant
                i <= n,
                n == self.slots@.len(),
                n == pinned@.len(),
                self.wf(),
                hs == self.histories(),
                match best {
                    Some(b) => {
                        &&& b < i
                        &&& pinned@[b as int] == 0
                        &&& hs[b as int] is Some
                        &&& forall|g: int|
                            0 <= g < i && pinned@[g] == 0 && (#[trigger] hs[g]) is Some
                                ==> older_or_equal(hs[b as int]->Some_0, hs[g]->Some_0)
                        &&& forall|g: int|
                            0 <= g < b && pinned@[g] == 0 && (#[trigger] hs[g]) is Some
                                ==> !older_or_equal(hs[g]->Some_0, hs[b as int]->Some_0)
                    },
                    None => forall|g: int| 0 <= g < i && (#[trigger] hs[g]) is Some ==> pinned@[g] > 0,
                },
            decreases n - i,
        {
            if pinned[i] == 0 {
                match &self.slots[i] {
                    Some(candidate) => {
                        match best {
                            None => {
                                best = Some(i);
                            },
                            Some(b) => {
                                match &self.slots[b] {
                                    Some(current) => {
                                        if !current.precedes(candidate) {
                                            assert forall|g: int|
                                                0 <= g < i + 1 && pinned@[g] == 0
                                                    && (#[trigger] hs[g]) is Some
                                                    implies older_or_equal(
                                                hs[i as int]->Some_0,
                                                hs[g]->Some_0,
                                            ) by {
                                                if g < i {
                                                    lemma_older_or_equal_transitive(
                                                        hs[i as int]->Some_0,
                                                        hs[b as int]->Some_0,
                                                        hs[g]->Some_0,
                                                    );
                                                }
                                            }
                                            assert forall|g: int|
                                                0 <= g < i && pinned@[g] == 0
                                                    && (#[trigger] hs[g]) is Some
                                                    implies !older_or_equal(
                                                hs[g]->Some_0,
                                                hs[i as int]->Some_0,
                                            ) by {
                                                if older_or_equal(hs[g]->Some_0, hs[i as int]->Some_0) {
                                                    lemma_older_or_equal_transitive(
                                                        hs[b as int]->Some_0,
                                                        hs[g]->Some_0,
                                                        hs[i as int]->Some_0,
                                                    );
                                                }
                                            }
                                            best = Some(i);
                                        } else {
                                            assert(older_or_equal(hs[b as int]->Some_0, hs[i as int]->Some_0));
                                        }
                                    },
                                    None => {},
                                }
                            },
                        }
                    },
                    None => {},
                }
            }
            i = i + 1;
        }
        match best {
            Some(f) => {
                self.slots.set(f, None);
                assert(self.histories() =~= hs.update(f as int, None));
            },
            None => {},
        }
        best
    }
}

} // verus!
