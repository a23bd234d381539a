//! Column-file data blocks: one block holds the points of one field,
//! sorted by timestamp with no duplicates.

use vstd::prelude::*;
use crate::bloom::BloomFilter;
use crate::memcache::{SeriesField, run_lookup};
use crate::types::TimeRange;
use crate::version::CompactMeta;

verus! {

/// One columnar data block: parallel runs of timestamps and value words.
///
/// A value word carries one typed scalar bitwise (an integer, a boolean, or
/// the IEEE bits of a float); the codec tag says how to read it back, and is
/// preserved bitwise so the round trip is lossless.
pub struct DataBlock {
    pub ts: Vec<i64>,
    pub val: Vec<u64>,
    pub codec_tag: u8,
}

impl DataBlock {
    /// The (timestamp, value) pairs of the block, in file order.
    pub open spec fn pairs(self) -> Seq<(i64, u64)> {
        Seq::new(self.ts@.len(), |i: int| (self.ts@[i], self.val@[i]))
    }

    /// Well-formed: runs of equal length, timestamps strictly increasing.
    pub open spec fn wf(self) -> bool {
        &&& self.ts@.len() == self.val@.len()
        &&& forall|i: int, j: int| 0 <= i < j < self.ts@.len() ==> self.ts@[i] < self.ts@[j]
    }

    pub fn new(codec_tag: u8) -> (r: DataBlock)
        ensures
            r.wf(),
            r.pairs() == Seq::<(i64, u64)>::empty(),
            r.codec_tag == codec_tag,
    {
        let r = DataBlock { ts: Vec::new(), val: Vec::new(), codec_tag };
        proof {
            assert(r.pairs() =~= Seq::<(i64, u64)>::empty());
        }
        r
    }

    pub fn len(&self) -> (r: usize)
        requires
            self.wf(),
        ensures
            r == self.pairs().len(),
    {
        self.ts.len()
    }

    /// The closed interval from the first to the last timestamp, or `None`
    /// for an empty block.
    pub fn time_range(&self) -> (r: Option<TimeRange>)
        requires
            self.wf(),
        ensures
            match r {
                Some(tr) => self.ts@.len() > 0 && tr.min_ts == self.ts@[0] && tr.max_ts
                    == self.ts@[self.ts@.len() - 1],
                None => self.ts@.len() == 0,
            },
    {
        if self.ts.len() == 0 {
            None
        } else {
            Some(TimeRange { min_ts: self.ts[0], max_ts: self.ts[self.ts.len() - 1] })
        }
    }

    /// Appends a point; its timestamp must come after every present one.
    pub fn push(&mut self, ts: i64, val: u64)
        requires
            old(self).wf(),
            forall|i: int| 0 <= i < old(self).ts@.len() ==> old(self).ts@[i] < ts,
        ensures
            final(self).wf(),
            final(self).pairs() == old(self).pairs().push((ts, val)),
            final(self).ts@ == old(self).ts@.push(ts),
            final(self).codec_tag == old(self).codec_tag,
    {
        self.ts.push(ts);
        self.val.push(val);
        proof {
            assert(final(self).pairs() =~= old(self).pairs().push((ts, val)));
        }
    }

    /// Removes every point whose timestamp a range of `ranges` covers.
    pub fn exclude_time_ranges(&self, ranges: &Vec<TimeRange>) -> (r: DataBlock)
        requires
            self.wf(),
        ensures
            r.wf(),
            r.codec_tag == self.codec_tag,
            r.pairs() == self.pairs().filter(
                |p: (i64, u64)|
                    !(exists|k: int|
                        0 <= k < ranges@.len() && ranges@[k].spec_contains_ts(p.0)),
            ),
    {
        let ghost pred = |p: (i64, u64)|
            !(exists|k: int| 0 <= k < ranges@.len() && ranges@[k].spec_contains_ts(p.0));
        let mut out = DataBlock::new(self.codec_tag);
        let n = self.ts.len();
        let mut i: usize = 0;
        proof {
            assert(self.pairs().take(0) =~= Seq::<(i64, u64)>::empty());
            reveal(Seq::filter);
        }
        while i < n
            invariant
                i <= n,
                n == self.ts@.len(),
                self.wf(),
                out.wf(),
                out.codec_tag == self.codec_tag,
                out.pairs() == self.pairs().take(i as int).filter(pred),
                forall|j: int| #![trigger out.ts@[j]] 0 <= j < out.ts@.len() ==> exists|k: int|
                    0 <= k < i && out.ts@[j] == #[trigger] self.ts@[k],
                pred == (|p: (i64, u64)|
                    !(exists|k: int| 0 <= k < ranges@.len() && ranges@[k].spec_contains_ts(p.0))),
            decreases n - i,
        {
            let mut covered = false;
            let mut k: usize = 0;
            let m = ranges.len();
            while k < m
                invariant
                    k <= m,
                    m == ranges@.len(),
                    i < self.ts@.len(),
                    covered == exists|q: int|
                        0 <= q < k && ranges@[q].spec_contains_ts(self.ts@[i as int]),
                decreases m - k,
            {
                if ranges[k].contains_ts(self.ts[i]) {
                    covered = true;
                }
                k = k + 1;
            }
            proof {
                reveal(Seq::filter);
                assert(self.pairs().take(i + 1).drop_last() =~= self.pairs().take(i as int));
                assert(self.pairs().take(i + 1).last() == (self.ts@[i as int], self.val@[i as int]));
            }
            if !covered {
                assert(pred((self.ts@[i as int], self.val@[i as int])));
                assert(forall|j: int| 0 <= j < out.ts@.len() ==> out.ts@[j] < self.ts@[i as int]);
                out.push(self.ts[i], self.val[i]);
                assert(out.ts@[out.ts@.len() - 1] == self.ts@[i as int]);
            } else {
                assert(!pred((self.ts@[i as int], self.val@[i as int])));
            }
            i = i + 1;
        }
        proof {
            assert(self.pairs().take(n as int) =~= self.pairs());
        }
        out
    }

    /// An exact copy of the block's runs and tag.
    pub fn duplicate(&self) -> (r: DataBlock)
        ensures
            r.ts@ == self.ts@,
            r.val@ == self.val@,
            r.codec_tag == self.codec_tag,
            r.pairs() == self.pairs(),
    {
        let n = self.ts.len();
        let nv = self.val.len();
        let mut ts: Vec<i64> = Vec::new();
        let mut i: usize = 0;
        while i < n
            invariant
                i <= n,
                n == self.ts@.len(),
                ts@ == self.ts@.subrange(0, i as int),
            decreases n - i,
        {
            ts.push(self.ts[i]);
            proof {
                assert(ts@ =~= self.ts@.subrange(0, i + 1));
            }
            i = i + 1;
        }
        let mut val: Vec<u64> = Vec::new();
        let mut k: usize = 0;
        while k < nv
            invariant
                k <= nv,
                nv == self.val@.len(),
                val@ == self.val@.subrange(0, k as int),
            decreases nv - k,
        {
            val.push(self.val[k]);
            proof {
                assert(val@ =~= self.val@.subrange(0, k + 1));
            }
            k = k + 1;
        }
        proof {
            assert(self.ts@.subrange(0, n as int) =~= self.ts@);
            assert(self.val@.subrange(0, nv as int) =~= self.val@);
        }
        let r = DataBlock { ts, val, codec_tag: self.codec_tag };
        proof {
            assert(r.pairs() =~= self.pairs());
        }
        r
    }

    /// The pair at one position.
    pub fn pair_at(&self, i: usize) -> (r: (i64, u64))
        requires
            self.wf(),
            i < self.pairs().len(),
        ensures
            r == self.pairs()[i as int],
    {
        (self.ts[i], self.val[i])
    }

    /// The value stored at a timestamp.
    pub fn get(&self, t: i64) -> (r: Option<u64>)
        requires
            self.wf(),
        ensures
            r == run_lookup(self.pairs(), t),
    {
        let ghost s = self.pairs();
        let n = self.ts.len();
        let mut i: usize = 0;
        proof {
            assert(s.skip(0) =~= s);
        }
        while i < n
            invariant
                i <= n,
                n == self.ts@.len(),
                self.wf(),
                s == self.pairs(),
                run_lookup(s, t) == run_lookup(s.skip(i as int), t),
            decreases n - i,
        {
            let ghost tail = s.skip(i as int);
            proof {
                assert(tail[0] == s[i as int]);
                assert(tail.drop_first() =~= s.skip(i + 1));
            }
            if self.ts[i] == t {
                return Some(self.val[i]);
            }
            i = i + 1;
        }
        proof {
            assert(s.skip(n as int) =~= Seq::<(i64, u64)>::empty());
        }
        None
    }

    /// Removes, in place, every point whose timestamp the range covers.
    pub fn exclude(&mut self, range: &TimeRange)
        requires
            old(self).wf(),
        ensures
            final(self).wf(),
            final(self).codec_tag == old(self).codec_tag,
            final(self).pairs() == old(self).pairs().filter(
                |p: (i64, u64)| !range.spec_contains_ts(p.0),
            ),
    {
        let ranges: Vec<TimeRange> = vec![*range];
        let out = self.exclude_time_ranges(&ranges);
        proof {
            let pred1 = |p: (i64, u64)|
                !(exists|k: int| 0 <= k < ranges@.len() && ranges@[k].spec_contains_ts(p.0));
            let pred2 = |p: (i64, u64)| !range.spec_contains_ts(p.0);
            assert forall|p: (i64, u64)| #[trigger] pred1(p) == pred2(p) by {
                assert(ranges@[0] == *range);
                if range.spec_contains_ts(p.0) {
                    assert(exists|k: int|
                        0 <= k < ranges@.len() && ranges@[k].spec_contains_ts(p.0));
                }
            }
            crate::tsm::lemma_filter_same_pred(old(self).pairs(), pred1, pred2);
        }
        *self = out;
    }
}


/// One immutable column file: its metadata, its bloom filter over field
/// IDs, and one data block per (series, field) it holds.
pub struct TsmFile {
    pub meta: CompactMeta,
    pub bloom: BloomFilter,
    pub blocks: Vec<(SeriesField, DataBlock)>,
}

/// The blocks of a file as an association sequence from (series, field) to
/// sorted pairs.
pub open spec fn file_blocks_view(f: TsmFile) -> Seq<(SeriesField, Seq<(i64, u64)>)> {
    f.blocks@.map_values(|e: (SeriesField, DataBlock)| (e.0, e.1.pairs()))
}

impl TsmFile {
    /// Well-formed: the bloom filter admits the field of every block, and
    /// every block is itself well-formed with distinct keys.
    pub open spec fn wf(self) -> bool {
        &&& self.bloom.wf()
        &&& crate::assoc::unique_keys(file_blocks_view(self))
        &&& forall|i: int|
            0 <= i < self.blocks@.len() ==> (#[trigger] self.blocks@[i]).1.wf()
                && self.bloom.spec_contains(self.blocks@[i].0.field_id)
    }

    /// What a read finds in this file for one (series, field, timestamp).
    pub open spec fn spec_lookup(self, sf: SeriesField, ts: i64) -> Option<u64> {
        match crate::assoc::assoc_get(file_blocks_view(self), sf) {
            None => None,
            Some(ps) => run_lookup(ps, ts),
        }
    }

    /// The block of one (series, field), if this file holds one.
    pub fn find_block(&self, sf: SeriesField) -> (r: Option<&DataBlock>)
        requires
            self.wf(),
        ensures
            match r {
                Some(b) => crate::assoc::assoc_get(self.blocks@, sf) == Some(*b) && b.wf(),
                None => crate::assoc::assoc_get(self.blocks@, sf) == None::<DataBlock>,
            },
    {
        let n = self.blocks.len();
        let mut i: usize = 0;
        while i < n
            invariant
                i <= n,
                n == self.blocks@.len(),
                self.wf(),
                forall|j: int| 0 <= j < i ==> (#[trigger] self.blocks@[j]).0 != sf,
            decreases n - i,
        {
            let key = self.blocks[i].0;
            if key.series_id == sf.series_id && key.field_id == sf.field_id {
                assert(key == sf);
                proof {
                    assert(crate::assoc::unique_keys(self.blocks@)) by {
                        assert forall|a: int, b: int|
                            0 <= a < b < self.blocks@.len() implies (
                        #[trigger] self.blocks@[a]).0 != (#[trigger] self.blocks@[b]).0 by {
                            assert(file_blocks_view(*self)[a].0 == self.blocks@[a].0);
                            assert(file_blocks_view(*self)[b].0 == self.blocks@[b].0);
                        }
                    }
                    crate::assoc::lemma_assoc_get_present(self.blocks@, sf, i as int);
                }
                return Some(&self.blocks[i].1);
            }
            assert(key != sf);
            i = i + 1;
        }
        proof {
            assert(!crate::assoc::has_key(self.blocks@, sf)) by {
                if crate::assoc::has_key(self.blocks@, sf) {
                    let j = choose|j: int|
                        0 <= j < self.blocks@.len() && self.blocks@[j].0 == sf;
                }
            }
            crate::assoc::lemma_assoc_get_absent(self.blocks@, sf);
        }
        None
    }

    /// Reads one point from this file.
    pub fn lookup(&self, sf: SeriesField, ts: i64) -> (r: Option<u64>)
        requires
            self.wf(),
        ensures
            r == self.spec_lookup(sf, ts),
    {
        let ghost bv = file_blocks_view(*self);
        proof {
            assert(forall|j: int|
                0 <= j < bv.len() ==> bv[j] == ((#[trigger] self.blocks@[j]).0,
                self.blocks@[j].1.pairs()));
        }
        let n = self.blocks.len();
        let mut i: usize = 0;
        while i < n
            invariant
                i <= n,
                n == self.blocks@.len(),
                self.wf(),
                bv == file_blocks_view(*self),
                forall|j: int| 0 <= j < i ==> (#[trigger] self.blocks@[j]).0 != sf,
            decreases n - i,
        {
            let key = self.blocks[i].0;
            assert(key == self.blocks@[i as int].0);
            if key.series_id == sf.series_id && key.field_id == sf.field_id {
                assert(key == sf);
                proof {
                    assert(bv[i as int].0 == sf);
                    crate::assoc::lemma_assoc_get_present(bv, sf, i as int);
                }
                return self.blocks[i].1.get(ts);
            }
            assert(key != sf);
            i = i + 1;
        }
        proof {
            assert(!crate::assoc::has_key(bv, sf)) by {
                if crate::assoc::has_key(bv, sf) {
                    let j = choose|j: int| 0 <= j < bv.len() && bv[j].0 == sf;
                    assert(self.blocks@[j].0 == sf);
                }
            }
            crate::assoc::lemma_assoc_get_absent(bv, sf);
        }
        None
    }
}


/// Bloom correctness: a file whose bloom filter rules a field ID out holds
/// no block for that field.
pub proof fn lemma_bloom_rules_out_blocks(f: TsmFile, field_id: u64)
    requires
        f.wf(),
        !f.bloom.spec_contains(field_id),
    ensures
        forall|i: int| 0 <= i < f.blocks@.len() ==> (#[trigger] f.blocks@[i]).0.field_id
            != field_id,
{
}

/// Filtering with equivalent predicates gives the same sequence.
pub proof fn lemma_filter_same_pred(
    s: Seq<(i64, u64)>,
    p1: spec_fn((i64, u64)) -> bool,
    p2: spec_fn((i64, u64)) -> bool,
)
    requires
        forall|x: (i64, u64)| #[trigger] p1(x) == p2(x),
    ensures
        s.filter(p1) == s.filter(p2),
    decreases s.len(),
{
    reveal(Seq::filter);
    if s.len() > 0 {
        lemma_filter_same_pred(s.drop_last(), p1, p2);
    }
}

} // verus!
