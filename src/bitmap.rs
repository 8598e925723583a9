use vstd::prelude::*;

verus! {

/// Whether bit `b` of the word `w` is set.
pub open spec fn word_bit(w: u64, b: u64) -> bool {
    (w >> b) & 1u64 == 1u64
}

/// Number of 64-bit words needed to hold `n` bits.
pub open spec fn words_for(n: nat) -> nat {
    (n + 63) / 64
}

proof fn lemma_zero_bit(b: u64)
    requires
        b < 64,
    ensures
        !word_bit(0u64, b),
{
    assert(((0u64 >> b) & 1u64) == 0u64) by (bit_vector)
        requires
            b < 64,
    ;
}

proof fn lemma_or_bit(w: u64, b: u64, c: u64)
    requires
        b < 64,
        c < 64,
    ensures
        word_bit(w | (1u64 << b), c) == (c == b || word_bit(w, c)),
{
    assert((((w | (1u64 << b)) >> c) & 1u64 == 1u64) == (c == b || ((w >> c) & 1u64 == 1u64)))
        by (bit_vector)
        requires
            b < 64,
            c < 64,
    ;
}

proof fn lemma_and_not_bit(w: u64, b: u64, c: u64)
    requires
        b < 64,
        c < 64,
    ensures
        word_bit(w & !(1u64 << b), c) == (c != b && word_bit(w, c)),
{
    assert((((w & !(1u64 << b)) >> c) & 1u64 == 1u64) == (c != b && ((w >> c) & 1u64 == 1u64)))
        by (bit_vector)
        requires
            b < 64,
            c < 64,
    ;
}

proof fn lemma_mask_bit(w: u64, b: u64)
    requires
        b < 64,
    ensures
        ((w & (1u64 << b)) == (1u64 << b)) == word_bit(w, b),
{
    assert(((w & (1u64 << b)) == (1u64 << b)) == ((w >> b) & 1u64 == 1u64)) by (bit_vector)
        requires
            b < 64,
    ;
}

/// A set of indices drawn from the fixed universe `0..capacity`, packed one
/// bit per index into 64-bit words.
pub struct Bitmap {
    capacity: usize,
    data: Vec<u64>,
}

impl View for Bitmap {
    type V = Seq<bool>;

    /// Membership of each index of the universe.
    closed spec fn view(&self) -> Seq<bool> {
        Seq::new(
            self.capacity as nat,
            |i: int| word_bit(self.data@[i / 64], (i % 64) as u64),
        )
    }
}

impl Bitmap {
    /// The representation holds exactly one word per 64 indices (rounded up).
    pub closed spec fn wf(&self) -> bool {
        &&& self.capacity > 0
        &&& self.data@.len() == words_for(self.capacity as nat)
    }

    /// Number of words in the packed representation.
    pub closed spec fn word_len(&self) -> nat {
        self.data@.len()
    }

    /// An empty set over the universe `0..capacity`.
    pub fn with_capacity(capacity: usize) -> (r: Bitmap)
        requires
            capacity > 0,
        ensures
            r.wf(),
            r@ == Seq::new(capacity as nat, |i: int| false),
            r.word_len() == words_for(capacity as nat),
    {
        let mut s: usize = capacity / 64;
        if capacity % 64 > 0 {
            s = s + 1;
        }
        let data: Vec<u64> = vec![0u64; s];
        let r = Bitmap { capacity, data };
        assert forall|i: int| 0 <= i < capacity implies !word_bit(#[trigger] r.data@[i / 64], (i % 64) as u64) by {
            lemma_zero_bit((i % 64) as u64);
        }
        assert(r@ =~= Seq::new(capacity as nat, |i: int| false));
        r
    }

    /// Size of the universe.
    pub fn len(&self) -> (r: usize)
        requires
            self.wf(),
        ensures
            r == self@.len(),
    {
        self.capacity
    }

    /// Number of 64-bit words backing the set.
    pub fn word_count(&self) -> (r: usize)
        requires
            self.wf(),
        ensures
            r == self.word_len(),
            r == words_for(self@.len()),
    {
        self.data.len()
    }

    /// Adds `idx` to the set.
    pub fn set(&mut self, idx: usize)
        requires
            old(self).wf(),
            idx < old(self)@.len(),
        ensures
            final(self).wf(),
            final(self)@ == old(self)@.update(idx as int, true),
            final(self).word_len() == old(self).word_len(),
    {
        let offset: usize = idx / 64;
        let bit: u64 = (idx % 64) as u64;
        let w: u64 = self.data[offset];
        self.data.set(offset, w | (1u64 << bit));
        proof {
            let o = old(self)@;
            assert forall|i: int| 0 <= i < self@.len() implies #[trigger] self@[i] == o.update(
                idx as int,
                true,
            )[i] by {
                lemma_or_bit(w, bit, (i % 64) as u64);
            }
            assert(self@ =~= o.update(idx as int, true));
        }
    }

    /// Removes `idx` from the set.
    pub fn unset(&mut self, idx: usize)
        requires
            old(self).wf(),
            idx < old(self)@.len(),
        ensures
            final(self).wf(),
            final(self)@ == old(self)@.update(idx as int, false),
            final(self).word_len() == old(self).word_len(),
    {
        let offset: usize = idx / 64;
        let bit: u64 = (idx % 64) as u64;
        let mask: u64 = 1u64 << bit;
        let flipped: u64 = !mask;
        let w: u64 = self.data[offset];
        self.data.set(offset, w & flipped);
        proof {
            let o = old(self)@;
            assert forall|i: int| 0 <= i < self@.len() implies #[trigger] self@[i] == o.update(
                idx as int,
                false,
            )[i] by {
                lemma_and_not_bit(w, bit, (i % 64) as u64);
            }
            assert(self@ =~= o.update(idx as int, false));
        }
    }

    /// Whether `idx` is in the set.
    pub fn check(&self, idx: usize) -> (r: bool)
        requires
            self.wf(),
            idx < self@.len(),
        ensures
            r == self@[idx as int],
    {
        let offset: usize = idx / 64;
        let bit: u64 = (idx % 64) as u64;
        let mask: u64 = 1u64 << bit;
        proof {
            lemma_mask_bit(self.data@[offset as int], bit);
        }
        (self.data[offset] & mask) == mask
    }
}

} // verus!
