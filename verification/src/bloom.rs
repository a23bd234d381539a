//! A bloom filter over field IDs, carried by every column file.
//!
//! The filter may say yes for a field that was never added, but never says
//! no for one that was: a negative answer proves the file holds no block for
//! that field.

use vstd::prelude::*;

verus! {

/// Number of bits in the filter.
pub const BLOOM_BITS: usize = 512;

/// The bit a field ID probes.
pub open spec fn bloom_slot(x: u64) -> u64 {
    (x ^ (x >> 7u64) ^ (x >> 23u64) ^ (x >> 41u64)) & 511
}

/// Every probe lands inside the filter.
pub broadcast proof fn lemma_bloom_slot_bound(x: u64)
    ensures
        #[trigger] bloom_slot(x) < 512,
{
    assert((x ^ (x >> 7u64) ^ (x >> 23u64) ^ (x >> 41u64)) & 511 < 512) by (bit_vector);
}

pub struct BloomFilter {
    bits: Vec<bool>,
    /// The set of field IDs that were added, kept only for the proof.
    elems: Ghost<Set<u64>>,
}

impl BloomFilter {
    /// The field IDs this filter was fed.
    pub closed spec fn elems(self) -> Set<u64> {
        self.elems@
    }

    /// The filter's bit array.
    pub closed spec fn spec_bits(self) -> Seq<bool> {
        self.bits@
    }

    /// The filter tracks every added field ID: its probe bit is set.
    pub closed spec fn wf(self) -> bool {
        &&& self.bits@.len() == BLOOM_BITS
        &&& forall|x: u64| self.elems@.contains(x) ==> self.bits@[bloom_slot(x) as int]
    }

    /// What `contains` answers for a field ID: the bit its probe lands on.
    pub open spec fn spec_contains(self, x: u64) -> bool {
        self.spec_bits()[bloom_slot(x) as int]
    }

    pub fn new() -> (r: BloomFilter)
        ensures
            r.wf(),
            r.elems() == Set::<u64>::empty(),
            forall|x: u64| !r.spec_contains(x),
    {
        let mut bits: Vec<bool> = Vec::new();
        let mut i: usize = 0;
        while i < BLOOM_BITS
            invariant
                i <= BLOOM_BITS,
                bits@.len() == i,
                forall|k: int| 0 <= k < i ==> !bits@[k],
            decreases BLOOM_BITS - i,
        {
            bits.push(false);
            i = i + 1;
        }
        let r = BloomFilter { bits, elems: Ghost(Set::empty()) };
        proof {
            broadcast use lemma_bloom_slot_bound;
        }
        r
    }

    fn slot(x: u64) -> (r: usize)
        ensures
            r == bloom_slot(x),
            r < BLOOM_BITS,
    {
        let s: u64 = (x ^ (x >> 7u64) ^ (x >> 23u64) ^ (x >> 41u64)) & 511;
        assert(s < 512) by (bit_vector)
            requires s == (x ^ (x >> 7u64) ^ (x >> 23u64) ^ (x >> 41u64)) & 511;
        s as usize
    }

    /// Adds a field ID to the filter.
    pub fn insert(&mut self, x: u64)
        requires
            old(self).wf(),
        ensures
            final(self).wf(),
            final(self).elems() == old(self).elems().insert(x),
            forall|y: u64| old(self).spec_contains(y) ==> final(self).spec_contains(y),
            final(self).spec_contains(x),
    {
        let s = Self::slot(x);
        self.bits.set(s, true);
        proof {
            broadcast use lemma_bloom_slot_bound;
            self.elems@ = self.elems@.insert(x);
        }
    }

    /// Whether the filter may hold a field ID. A `false` answer is exact:
    /// the field ID was never added.
    pub fn contains(&self, x: u64) -> (r: bool)
        requires
            self.wf(),
        ensures
            r == self.spec_contains(x),
            !r ==> !self.elems().contains(x),
    {
        proof {
            broadcast use lemma_bloom_slot_bound;
        }
        let s = Self::slot(x);
        self.bits[s]
    }
}

impl BloomFilter {
    /// A copy of the filter: same bits, same recorded field IDs, so the
    /// same answers.
    pub fn duplicate(&self) -> (r: BloomFilter)
        ensures
            r.spec_bits() == self.spec_bits(),
            r.elems() == self.elems(),
            forall|x: u64| #[trigger] r.spec_contains(x) == self.spec_contains(x),
            self.wf() ==> r.wf(),
    {
        let n = self.bits.len();
        let mut bits: Vec<bool> = Vec::new();
        let mut i: usize = 0;
        while i < n
            invariant
                i <= n,
                n == self.bits@.len(),
                bits@ == self.bits@.subrange(0, i as int),
            decreases n - i,
        {
            bits.push(self.bits[i]);
            proof {
                assert(bits@ =~= self.bits@.subrange(0, i + 1));
            }
            i = i + 1;
        }
        proof {
            assert(self.bits@.subrange(0, n as int) =~= self.bits@);
        }
        let r = BloomFilter { bits, elems: Ghost(self.elems@) };
        proof {
            assert(r.bits@ == self.bits@);
        }
        r
    }
}

/// A negative bloom answer proves absence: if the filter does not contain a
/// field ID, that field ID was never added to it.
pub proof fn lemma_bloom_no_false_negative(b: BloomFilter, x: u64)
    requires
        b.wf(),
        !b.spec_contains(x),
    ensures
        !b.elems().contains(x),
{
}

} // verus!
