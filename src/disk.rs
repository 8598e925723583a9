use vstd::prelude::*;
use crate::bitmap::Bitmap;

verus! {

/// Size of a page, the unit of I/O.
pub const PAGE_SIZE: usize = 4096;

/// Pages at the start of the file that hold metadata rather than user data.
pub const SPECIAL_PAGES: u32 = 4;

/// Bytes of the metadata header: all the special pages.
pub const HEADER_BYTES: usize = 16384;

/// Allocation bits the header can hold: everything after the two counters.
pub const BITMAP_BITS: usize = 131040;

/// Hard limit on the number of provisioned data pages.
pub const MAX_PAGES: u16 = 32768;

/// Pages added each time the store runs out of free pages.
pub const GROWTH: u16 = 64;

/// Whether bit `j` (low bit first) of `b` is set.
pub open spec fn byte_bit(b: u8, j: u8) -> bool {
    (b >> j) & 1u8 == 1u8
}

/// The 16-bit value stored big-endian in `hi`, `lo`.
pub open spec fn be_u16(hi: u8, lo: u8) -> nat {
    hi as nat * 256 + lo as nat
}

/// The capacity recorded in a header.
pub open spec fn header_capacity(h: Seq<u8>) -> nat {
    be_u16(h[0], h[1])
}

/// The used-count recorded in a header.
pub open spec fn header_used(h: Seq<u8>) -> nat {
    be_u16(h[2], h[3])
}

/// The allocation bits recorded in a header, packed low bit first after the
/// four counter bytes.
pub open spec fn header_bitmap(h: Seq<u8>) -> Seq<bool> {
    Seq::new(BITMAP_BITS as nat, |i: int| byte_bit(h[4 + i / 8], (i % 8) as u8))
}

/// Number of set entries of `s` below `n`.
pub open spec fn count_set(s: Seq<bool>, n: int) -> nat
    decreases n,
{
    if n <= 0 {
        0
    } else {
        count_set(s, n - 1) + if s[n - 1] {
            1nat
        } else {
            0nat
        }
    }
}

/// What makes a metadata state coherent: the capacity is within the hard
/// limit, nothing at or past it is allocated, and the used-count counts the
/// allocated pages.
pub open spec fn meta_ok(capacity: nat, used: nat, bits: Seq<bool>) -> bool {
    &&& bits.len() == BITMAP_BITS
    &&& capacity <= MAX_PAGES
    &&& forall|i: int| capacity <= i < BITMAP_BITS ==> !(#[trigger] bits[i])
    &&& used == count_set(bits, capacity as int)
}

/// The header is readable: of the right length and describing coherent metadata.
pub open spec fn header_valid(h: Seq<u8>) -> bool {
    &&& h.len() == HEADER_BYTES
    &&& meta_ok(header_capacity(h), header_used(h), header_bitmap(h))
}

proof fn lemma_count_update(s: Seq<bool>, i: int, v: bool, n: int)
    requires
        0 <= i < n <= s.len(),
    ensures
        count_set(s.update(i, v), n) + (if s[i] { 1nat } else { 0nat }) == count_set(s, n) + (
        if v {
            1nat
        } else {
            0nat
        }),
    decreases n,
{
    if n - 1 > i {
        lemma_count_update(s, i, v, n - 1);
    } else {
        lemma_count_same(s.update(i, v), s, n - 1);
    }
}

proof fn lemma_count_same(s: Seq<bool>, t: Seq<bool>, n: int)
    requires
        0 <= n <= s.len(),
        n <= t.len(),
        forall|j: int| 0 <= j < n ==> s[j] == t[j],
    ensures
        count_set(s, n) == count_set(t, n),
    decreases n,
{
    if n > 0 {
        lemma_count_same(s, t, n - 1);
    }
}

proof fn lemma_count_clear_tail(s: Seq<bool>, n: int, m: int)
    requires
        0 <= n <= m <= s.len(),
        forall|j: int| n <= j < m ==> !s[j],
    ensures
        count_set(s, m) == count_set(s, n),
    decreases m - n,
{
    if m > n {
        lemma_count_clear_tail(s, n, m - 1);
    }
}

proof fn lemma_count_full(s: Seq<bool>, n: int)
    requires
        0 <= n <= s.len(),
        forall|j: int| 0 <= j < n ==> s[j],
    ensures
        count_set(s, n) == n,
    decreases n,
{
    if n > 0 {
        lemma_count_full(s, n - 1);
    }
}

proof fn lemma_count_bound(s: Seq<bool>, n: int)
    requires
        0 <= n <= s.len(),
    ensures
        count_set(s, n) <= n,
    decreases n,
{
    if n > 0 {
        lemma_count_bound(s, n - 1);
    }
}

proof fn lemma_or_bit8(b: u8, k: u8, j: u8)
    requires
        k < 8,
        j < 8,
    ensures
        byte_bit(b | (1u8 << k), j) == (j == k || byte_bit(b, j)),
{
    assert((((b | (1u8 << k)) >> j) & 1u8 == 1u8) == (j == k || ((b >> j) & 1u8 == 1u8)))
        by (bit_vector)
        requires
            k < 8,
            j < 8,
    ;
}

proof fn lemma_zero_bit8(j: u8)
    requires
        j < 8,
    ensures
        !byte_bit(0u8, j),
{
    assert(((0u8 >> j) & 1u8) == 0u8) by (bit_vector)
        requires
            j < 8,
    ;
}

/// Joins two bytes, the first the more significant, into a 16-bit value.
fn merge_u8(first: u8, second: u8) -> (r: u16)
    ensures
        r == be_u16(first, second),
{
    let r = (first as u16) << 8u16 | (second as u16);
    assert(((first as u16) << 8u16 | (second as u16)) == (first as u16) * 256 + (second as u16))
        by (bit_vector);
    r
}

/// Splits a 16-bit value into its bytes, the more significant first.
fn split_u16(data: u16) -> (r: (u8, u8))
    ensures
        be_u16(r.0, r.1) == data,
{
    let first: u8 = (data >> 8u16) as u8;
    let second: u8 = (data & 0xFFu16) as u8;
    assert(((data >> 8u16) as u8) as u16 * 256 + ((data & 0xFFu16) as u8) as u16 == data)
        by (bit_vector);
    (first, second)
}

/// Byte offset in the file of the data page `page_id`.
pub fn get_file_offset(page_id: u32) -> (r: u64)
    ensures
        r == (page_id as nat + SPECIAL_PAGES as nat) * PAGE_SIZE as nat,
{
    let physical_page: u64 = page_id as u64 + SPECIAL_PAGES as u64;
    4096 * physical_page
}

fn min(first: u16, second: u16) -> (r: u16)
    ensures
        r == if first < second {
            first
        } else {
            second
        },
{
    if first < second {
        first
    } else {
        second
    }
}

/// Why a header could not be loaded.
#[derive(Debug, PartialEq, Eq, Structural)]
pub enum HeaderError {
    /// The header is not exactly `HEADER_BYTES` long.
    WrongLength,
    /// The recorded capacity exceeds `MAX_PAGES`.
    CapacityTooLarge,
    /// A page at or past the recorded capacity is marked allocated.
    StrayAllocation,
    /// The used-count differs from the number of allocated pages.
    UsedMismatch,
}

/// Page allocation and free-space bookkeeping of the page store: the
/// provisioned capacity, the number of live pages, and one allocation bit per
/// page.
pub struct DiskManager {
    capacity: u16,
    used: u16,
    map: Bitmap,
}

impl DiskManager {
    pub closed spec fn wf(&self) -> bool {
        &&& self.map.wf()
        &&& meta_ok(self.capacity as nat, self.used as nat, self.map@)
    }

    /// Provisioned data pages.
    pub closed spec fn spec_capacity(&self) -> nat {
        self.capacity as nat
    }

    /// Live data pages.
    pub closed spec fn spec_used(&self) -> nat {
        self.used as nat
    }

    /// Allocation bit of each page id the header can describe.
    pub closed spec fn allocated(&self) -> Seq<bool> {
        self.map@
    }

    /// Loads the metadata recorded in the header pages.
    pub fn new(header: &Vec<u8>) -> (r: Result<DiskManager, HeaderError>)
        ensures
            header@.len() != HEADER_BYTES ==> r == Err::<DiskManager, HeaderError>(
                HeaderError::WrongLength,
            ),
            header@.len() == HEADER_BYTES ==> {
                let h = header@;
                &&& header_capacity(h) > MAX_PAGES ==> r == Err::<DiskManager, HeaderError>(
                    HeaderError::CapacityTooLarge,
                )
                &&& header_capacity(h) <= MAX_PAGES && (exists|i: int|
                    header_capacity(h) <= i < BITMAP_BITS && #[trigger] header_bitmap(h)[i])
                    ==> r == Err::<DiskManager, HeaderError>(HeaderError::StrayAllocation)
                &&& header_capacity(h) <= MAX_PAGES && (forall|i: int|
                    header_capacity(h) <= i < BITMAP_BITS ==> !#[trigger] header_bitmap(h)[i])
                    && header_used(h) != count_set(header_bitmap(h), header_capacity(h) as int)
                    ==> r == Err::<DiskManager, HeaderError>(HeaderError::UsedMismatch)
            },
            r is Ok <==> header_valid(header@),
            r is Ok ==> {
                let dm = r->Ok_0;
                &&& dm.wf()
                &&& dm.spec_capacity() == header_capacity(header@)
                &&& dm.spec_used() == header_used(header@)
                &&& dm.allocated() == header_bitmap(header@)
            },
    {
        if header.len() != HEADER_BYTES {
            return Err(HeaderError::WrongLength);
        }
        let ghost h = header@;
        let capacity = merge_u8(header[0], header[1]);
        let used = merge_u8(header[2], header[3]);
        if capacity > MAX_PAGES {
            return Err(HeaderError::CapacityTooLarge);
        }
        let mut map = Bitmap::with_capacity(BITMAP_BITS);
        let mut i: usize = 0;
        while i < BITMAP_BITS
            invariant
                i <= BITMAP_BITS,
                h == header@,
                h.len() == HEADER_BYTES,
                map.wf(),
                map@.len() == BITMAP_BITS,
                forall|j: int| 0 <= j < BITMAP_BITS ==> #[trigger] map@[j] == (j < i
                    && header_bitmap(h)[j]),
            decreases BITMAP_BITS - i,
        {
            let cur: u8 = header[4 + i / 8];
            let bit: u8 = (i % 8) as u8;
            if (cur >> bit) & 1u8 == 1u8 {
                map.set(i);
            }
            i = i + 1;
        }
        assert(map@ =~= header_bitmap(h));
        let mut count: u16 = 0;
        let mut p: usize = 0;
        while p < capacity as usize
            invariant
                p <= capacity,
                capacity <= MAX_PAGES,
                map.wf(),
                map@ == header_bitmap(h),
                map@.len() == BITMAP_BITS,
                h == header@,
                h.len() == HEADER_BYTES,
                capacity == header_capacity(h),
                used == header_used(h),
                count == count_set(map@, p as int),
            decreases capacity - p,
        {
            proof {
                lemma_count_bound(map@, p as int);
            }
            if map.check(p) {
                count = count + 1;
            }
            p = p + 1;
        }
        let mut q: usize = capacity as usize;
        while q < BITMAP_BITS
            invariant
                capacity <= q <= BITMAP_BITS,
                capacity <= MAX_PAGES,
                map.wf(),
                map@ == header_bitmap(h),
                map@.len() == BITMAP_BITS,
                h == header@,
                h.len() == HEADER_BYTES,
                capacity == header_capacity(h),
                used == header_used(h),
                forall|j: int| capacity <= j < q ==> !#[trigger] map@[j],
            decreases BITMAP_BITS - q,
        {
            if map.check(q) {
                assert(header_bitmap(h)[q as int]);
                return Err(HeaderError::StrayAllocation);
            }
            q = q + 1;
        }
        if count != used {
            return Err(HeaderError::UsedMismatch);
        }
        Ok(DiskManager { capacity, used, map })
    }

    /// Provisioned data pages.
    pub fn capacity(&self) -> (r: u16)
        ensures
            r == self.spec_capacity(),
    {
        self.capacity
    }

    /// Live data pages.
    pub fn used(&self) -> (r: u16)
        ensures
            r == self.spec_used(),
    {
        self.used
    }

    /// Whether `page_id` is allocated.
    pub fn is_allocated(&self, page_id: u32) -> (r: bool)
        requires
            self.wf(),
        ensures
            r == (page_id < BITMAP_BITS && self.allocated()[page_id as int]),
    {
        if (page_id as usize) < BITMAP_BITS {
            self.map.check(page_id as usize)
        } else {
            false
        }
    }

    /// Allocates the lowest-numbered free page. When every provisioned page
    /// is in use, the capacity first grows by `GROWTH` pages (at most up to
    /// `MAX_PAGES`); the caller then appends the new zero-filled pages to the
    /// file. Returns `None`, changing nothing, only when all `MAX_PAGES`
    /// pages are in use.
    pub fn new_page(&mut self) -> (r: Option<u32>)
        requires
            old(self).wf(),
        ensures
            final(self).wf(),
            r is None <==> old(self).spec_used() == MAX_PAGES,
            r is None ==> final(self).spec_capacity() == old(self).spec_capacity()
                && final(self).spec_used() == old(self).spec_used()
                && final(self).allocated() == old(self).allocated(),
            r is Some ==> {
                let p = r->Some_0 as int;
                &&& final(self).spec_capacity() == if old(self).spec_used() == old(
                    self,
                ).spec_capacity() {
                    if old(self).spec_capacity() + GROWTH < MAX_PAGES {
                        old(self).spec_capacity() + GROWTH
                    } else {
                        MAX_PAGES as int
                    }
                } else {
                    old(self).spec_capacity() as int
                }
                &&& p < final(self).spec_capacity()
                &&& allocates(*old(self), *final(self), r->Some_0)
                &&& forall|q: int| 0 <= q < p ==> #[trigger] old(self).allocated()[q]
                &&& final(self).spec_used() == old(self).spec_used() + 1
            },
    {
        proof {
            lemma_count_bound(self.map@, self.capacity as int);
        }
        if self.capacity == self.used {
            if self.capacity == MAX_PAGES {
                return None;
            }
            let new_capacity = min(self.capacity + GROWTH, MAX_PAGES);
            proof {
                lemma_count_clear_tail(self.map@, self.capacity as int, new_capacity as int);
            }
            self.capacity = new_capacity;
        } else {
            proof {
                if self.used == MAX_PAGES {
                    lemma_count_bound(self.map@, self.capacity as int);
                }
            }
        }
        let ghost before = self.map@;
        let mut i: u16 = 0;
        while i < self.capacity
            invariant
                i <= self.capacity,
                self.capacity <= MAX_PAGES,
                self.map.wf(),
                self.map@ == before,
                before.len() == BITMAP_BITS,
                meta_ok(self.capacity as nat, self.used as nat, before),
                self.used < self.capacity,
                self.used == old(self).used,
                before == old(self).map@,
                self.capacity as int == if old(self).used == old(self).capacity {
                    if old(self).capacity + GROWTH < MAX_PAGES {
                        old(self).capacity + GROWTH
                    } else {
                        MAX_PAGES as int
                    }
                } else {
                    old(self).capacity as int
                },
                forall|q: int| 0 <= q < i ==> #[trigger] before[q],
            decreases self.capacity - i,
        {
            if !self.map.check(i as usize) {
                self.map.set(i as usize);
                proof {
                    lemma_count_update(before, i as int, true, self.capacity as int);
                    lemma_count_bound(before, self.capacity as int);
                }
                self.used = self.used + 1;
                return Some(i as u32);
            }
            i = i + 1;
        }
        proof {
            lemma_count_full(before, self.capacity as int);
        }
        None
    }

    /// Frees `page_id`. Its bytes on disk stay as they are until the page is
    /// handed out again.
    pub fn delete_page(&mut self, page_id: u32)
        requires
            old(self).wf(),
            page_id < BITMAP_BITS,
        ensures
            final(self).wf(),
            final(self).spec_capacity() == old(self).spec_capacity(),
            final(self).allocated() == old(self).allocated().update(page_id as int, false),
            final(self).spec_used() == if old(self).allocated()[page_id as int] {
                (old(self).spec_used() - 1) as nat
            } else {
                old(self).spec_used()
            },
    {
        let idx = page_id as usize;
        if self.map.check(idx) {
            let ghost before = self.map@;
            self.map.unset(idx);
            proof {
                lemma_count_update(before, idx as int, false, self.capacity as int);
            }
            self.used = self.used - 1;
        }
    }

    /// The header pages that record this metadata, to be written at the
    /// start of the file on shutdown.
    pub fn persist(&self) -> (r: Vec<u8>)
        requires
            self.wf(),
        ensures
            r@.len() == HEADER_BYTES,
            header_capacity(r@) == self.spec_capacity(),
            header_used(r@) == self.spec_used(),
            header_bitmap(r@) == self.allocated(),
    {
        let mut data: Vec<u8> = Vec::new();
        let (cap1, cap2) = split_u16(self.capacity);
        let (used1, used2) = split_u16(self.used);
        data.push(cap1);
        data.push(cap2);
        data.push(used1);
        data.push(used2);
        let mut b: usize = 0;
        while b < BITMAP_BITS / 8
            invariant
                b <= BITMAP_BITS / 8,
                self.wf(),
                data@.len() == 4 + b,
                data@[0] == cap1 && data@[1] == cap2 && data@[2] == used1 && data@[3] == used2,
                forall|i: int|
                    0 <= i < 8 * b ==> byte_bit(#[trigger] data@[4 + i / 8], (i % 8) as u8)
                        == self.map@[i],
            decreases BITMAP_BITS / 8 - b,
        {
            let mut byte: u8 = 0;
            let mut bit: u8 = 0;
            proof {
                assert forall|j: u8| j < 8 implies !byte_bit(0u8, j) by {
                    lemma_zero_bit8(j);
                }
            }
            while bit < 8
                invariant
                    bit <= 8,
                    b < BITMAP_BITS / 8,
                    self.wf(),
                    forall|j: u8| j < bit ==> byte_bit(byte, j) == self.map@[8 * b + j],
                    forall|j: u8| bit <= j < 8 ==> !byte_bit(byte, j),
                decreases 8 - bit,
            {
                let ghost prev = byte;
                if self.map.check(8 * b + bit as usize) {
                    byte = byte | (1u8 << bit);
                    proof {
                        assert forall|j: u8| j < 8 implies byte_bit(byte, j) == (j == bit
                            || byte_bit(prev, j)) by {
                            lemma_or_bit8(prev, bit, j);
                        }
                    }
                }
                bit = bit + 1;
            }
            let ghost before = data@;
            data.push(byte);
            proof {
                assert forall|i: int| 0 <= i < 8 * (b + 1) implies byte_bit(
                    #[trigger] data@[4 + i / 8],
                    (i % 8) as u8,
                ) == self.map@[i] by {
                    if i >= 8 * b {
                        assert(i / 8 == b);
                        let j = (i % 8) as u8;
                        assert(8 * b + j == i);
                    } else {
                        assert(data@[4 + i / 8] == before[4 + i / 8]);
                    }
                }
            }
            b = b + 1;
        }
        proof {
            assert(header_bitmap(data@) =~= self.map@);
        }
        data
    }
}

/// `after` is `before` with the free page `p` handed out.
pub open spec fn allocates(before: DiskManager, after: DiskManager, p: u32) -> bool {
    &&& p < before.allocated().len()
    &&& !before.allocated()[p as int]
    &&& after.allocated() == before.allocated().update(p as int, true)
}

proof fn lemma_stays_allocated(states: Seq<DiskManager>, ids: Seq<u32>, i: int, j: int)
    requires
        states.len() == ids.len() + 1,
        forall|n: int| 0 <= n < ids.len() ==> allocates(#[trigger] states[n], states[n + 1], ids[n]),
        0 <= i < j <= ids.len(),
    ensures
        ids[i] < states[j].allocated().len(),
        states[j].allocated()[ids[i] as int],
    decreases j - i,
{
    assert(allocates(states[j - 1], states[j], ids[j - 1]));
    if j > i + 1 {
        lemma_stays_allocated(states, ids, i, j - 1);
    }
}

/// Successive allocations hand out distinct pages: along any run of
/// `new_page` calls that succeed (`states[n]` becoming `states[n + 1]` by
/// allocating `ids[n]`), no page id is returned twice.
pub proof fn lemma_allocations_distinct(states: Seq<DiskManager>, ids: Seq<u32>)
    requires
        states.len() == ids.len() + 1,
        forall|n: int| 0 <= n < ids.len() ==> allocates(#[trigger] states[n], states[n + 1], ids[n]),
    ensures
        forall|i: int, j: int| 0 <= i < j < ids.len() ==> ids[i] != ids[j],
{
    assert forall|i: int, j: int| 0 <= i < j < ids.len() implies ids[i] != ids[j] by {
        lemma_stays_allocated(states, ids, i, j);
        assert(allocates(states[j], states[j + 1], ids[j]));
    }
}

/// Reloading persisted metadata gives back the same state: the header that
/// `persist` produces is accepted by `DiskManager::new`, which restores the
/// same capacity, used-count and allocation bit of every page.
pub proof fn lemma_persist_reload(dm: DiskManager, header: Seq<u8>)
    requires
        dm.wf(),
        header.len() == HEADER_BYTES,
        header_capacity(header) == dm.spec_capacity(),
        header_used(header) == dm.spec_used(),
        header_bitmap(header) == dm.allocated(),
    ensures
        header_valid(header),
        header_capacity(header) == dm.spec_capacity(),
        header_used(header) == dm.spec_used(),
        header_bitmap(header) == dm.allocated(),
{
}

} // verus!
