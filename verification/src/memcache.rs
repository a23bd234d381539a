//! The in-memory mutable tier of a vnode: the latest unflushed points,
//! grouped by (series, field) and kept sorted by timestamp.
//!
//! An insert is keyed by (series, field, timestamp); writing the same key
//! again replaces the value — the later write wins. Every point in the
//! memcache is also durable in the vnode's write-ahead log, at a sequence
//! number no greater than the cache's `max_seq`.

use vstd::prelude::*;
use crate::assoc::{assoc_get, has_key, lemma_assoc_get_absent, lemma_assoc_get_present,
    lemma_assoc_insert, lemma_assoc_update, unique_keys};
use crate::tsm::DataBlock;

verus! {

/// The key of one run: a series and one of its fields.
#[derive(PartialEq, Eq, Structural, Clone, Copy, Debug, Hash)]
pub struct SeriesField {
    pub series_id: u64,
    pub field_id: u64,
}

/// Strictly increasing timestamps: each key appears at most once.
pub open spec fn run_sorted(s: Seq<(i64, u64)>) -> bool {
    forall|i: int, j: int| 0 <= i < j < s.len() ==> s[i].0 < s[j].0
}

/// Insertion into a sorted run: the new pair takes its place in timestamp
/// order, replacing a pair with the same timestamp (the later write wins).
pub open spec fn run_insert_spec(s: Seq<(i64, u64)>, t: i64, v: u64) -> Seq<(i64, u64)>
    decreases s.len(),
{
    if s.len() == 0 {
        seq![(t, v)]
    } else if t < s[0].0 {
        seq![(t, v)] + s
    } else if t == s[0].0 {
        seq![(t, v)] + s.drop_first()
    } else {
        seq![s[0]] + run_insert_spec(s.drop_first(), t, v)
    }
}

/// The value stored at a timestamp: the first (with sorted runs, the only)
/// pair with that timestamp.
pub open spec fn run_lookup(s: Seq<(i64, u64)>, t: i64) -> Option<u64>
    decreases s.len(),
{
    if s.len() == 0 {
        None
    } else if s[0].0 == t {
        Some(s[0].1)
    } else {
        run_lookup(s.drop_first(), t)
    }
}

/// Inserting keeps a run sorted, and the head key of the result is the
/// smaller of the inserted key and the old head key.
pub proof fn lemma_run_insert_sorted(s: Seq<(i64, u64)>, t: i64, v: u64)
    requires
        run_sorted(s),
    ensures
        run_sorted(run_insert_spec(s, t, v)),
        run_insert_spec(s, t, v).len() >= 1,
        run_insert_spec(s, t, v)[0].0 == if s.len() == 0 || t <= s[0].0 {
            t
        } else {
            s[0].0
        },
    decreases s.len(),
{
    let r = run_insert_spec(s, t, v);
    if s.len() == 0 {
    } else if t < s[0].0 {
        assert(forall|j: int| 0 < j < r.len() ==> r[j] == s[j - 1]);
    } else if t == s[0].0 {
        assert(forall|j: int| 0 < j < r.len() ==> r[j] == s.drop_first()[j - 1]);
        assert(forall|j: int| 0 <= j < s.drop_first().len() ==> s.drop_first()[j] == s[j + 1]);
    } else {
        assert(forall|i: int, j: int|
            0 <= i < j < s.drop_first().len() ==> s.drop_first()[i].0 < s.drop_first()[j].0)
            by {
            assert(forall|i: int|
                0 <= i < s.drop_first().len() ==> s.drop_first()[i] == s[i + 1]);
        }
        lemma_run_insert_sorted(s.drop_first(), t, v);
        let rr = run_insert_spec(s.drop_first(), t, v);
        assert(forall|j: int| 0 < j < r.len() ==> r[j] == rr[j - 1]);
        assert(s[0].0 < rr[0].0);
        assert forall|i: int, j: int| 0 <= i < j < r.len() implies r[i].0 < r[j].0 by {
            if i == 0 {
                if j > 1 {
                    assert(rr[0].0 < rr[j - 1].0);
                }
            }
        }
    }
}

/// Insertion updates exactly the inserted timestamp's lookup.
pub proof fn lemma_run_insert_lookup(s: Seq<(i64, u64)>, t: i64, v: u64, q: i64)
    ensures
        run_lookup(run_insert_spec(s, t, v), q) == if q == t {
            Some(v)
        } else {
            run_lookup(s, q)
        },
    decreases s.len(),
{
    let r = run_insert_spec(s, t, v);
    if s.len() == 0 {
    } else if t < s[0].0 {
        assert(r.drop_first() =~= s);
    } else if t == s[0].0 {
        assert(r.drop_first() =~= s.drop_first());
    } else {
        lemma_run_insert_lookup(s.drop_first(), t, v, q);
        assert(r.drop_first() =~= run_insert_spec(s.drop_first(), t, v));
    }
}

/// One sorted run of points for one (series, field).
pub struct FieldRun {
    ts: Vec<i64>,
    val: Vec<u64>,
}

impl FieldRun {
    /// The (timestamp, value) pairs, in timestamp order.
    pub closed spec fn pairs(self) -> Seq<(i64, u64)> {
        Seq::new(self.ts@.len(), |i: int| (self.ts@[i], self.val@[i]))
    }

    pub closed spec fn wf(self) -> bool {
        &&& self.ts@.len() == self.val@.len()
        &&& run_sorted(self.pairs())
    }

    pub fn new() -> (r: FieldRun)
        ensures
            r.wf(),
            r.pairs() == Seq::<(i64, u64)>::empty(),
    {
        let r = FieldRun { ts: Vec::new(), val: Vec::new() };
        proof {
            assert(r.pairs() =~= Seq::<(i64, u64)>::empty());
        }
        r
    }

    pub fn len(&self) -> (r: usize)
        ensures
            r == self.pairs().len(),
    {
        self.ts.len()
    }

    /// The pair at one position.
    pub fn pair_at(&self, i: usize) -> (r: (i64, u64))
        requires
            self.wf(),
            i < self.pairs().len(),
        ensures
            r == self.pairs()[i as int],
    {
        (self.ts[i], self.val[i])
    }

    /// Inserts a point; on an equal timestamp the new value replaces the
    /// old one.
    pub fn insert(&mut self, t: i64, v: u64)
        requires
            old(self).wf(),
        ensures
            final(self).wf(),
            final(self).pairs() == run_insert_spec(old(self).pairs(), t, v),
    {
        let n = self.ts.len();
        let ghost s = self.pairs();
        let mut nts: Vec<i64> = Vec::new();
        let mut nval: Vec<u64> = Vec::new();
        let mut i: usize = 0;
        proof {
            assert(s.skip(0) =~= s);
        }
        while i < n && self.ts[i] < t
            invariant
                i <= n,
                n == self.ts@.len(),
                self.wf(),
                s == self.pairs(),
                nts@.len() == i,
                nval@.len() == i,
                forall|j: int| 0 <= j < i ==> nts@[j] == self.ts@[j] && nval@[j] == self.val@[j],
                forall|j: int| 0 <= j < i ==> self.ts@[j] < t,
                run_insert_spec(s, t, v) == Seq::new(i as nat, |j: int| (nts@[j], nval@[j]))
                    + run_insert_spec(s.skip(i as int), t, v),
            decreases n - i,
        {
            let ghost tail = s.skip(i as int);
            proof {
                assert(tail[0] == s[i as int]);
                assert(tail.drop_first() =~= s.skip(i + 1));
                assert(run_insert_spec(tail, t, v) == seq![tail[0]] + run_insert_spec(
                    s.skip(i + 1), t, v));
            }
            nts.push(self.ts[i]);
            nval.push(self.val[i]);
            proof {
                assert(Seq::new((i + 1) as nat, |j: int| (nts@[j], nval@[j]))
                    =~= Seq::new(i as nat, |j: int| (nts@[j], nval@[j])).push(s[i as int]));
                assert(Seq::new(i as nat, |j: int| (nts@[j], nval@[j])).push(s[i as int])
                    + run_insert_spec(s.skip(i + 1), t, v)
                    =~= Seq::new(i as nat, |j: int| (nts@[j], nval@[j]))
                        + run_insert_spec(s.skip(i as int), t, v));
            }
            i = i + 1;
        }
        let ghost prefix = Seq::new(i as nat, |j: int| (nts@[j], nval@[j]));
        nts.push(t);
        nval.push(v);
        let mut rest: usize = i;
        if i < n {
            if self.ts[i] == t {
                rest = i + 1;
                proof {
                    let tail = s.skip(i as int);
                    assert(tail[0] == s[i as int]);
                    assert(tail.drop_first() =~= s.skip(i + 1));
                    assert(run_insert_spec(tail, t, v) == seq![(t, v)] + s.skip(i + 1));
                }
            } else {
                proof {
                    let tail = s.skip(i as int);
                    assert(tail[0] == s[i as int]);
                    assert(t < tail[0].0);
                    assert(run_insert_spec(tail, t, v) == seq![(t, v)] + tail);
                }
            }
        } else {
            proof {
                assert(s.skip(i as int) =~= Seq::<(i64, u64)>::empty());
                assert(run_insert_spec(s.skip(i as int), t, v) == seq![(t, v)]);
            }
        }
        let mut j: usize = rest;
        while j < n
            invariant
                rest <= j <= n,
                n == self.ts@.len(),
                self.wf(),
                s == self.pairs(),
                nts@.len() == nval@.len(),
                Seq::new(nts@.len(), |q: int| (nts@[q], nval@[q])) == prefix + seq![(t, v)]
                    + s.subrange(rest as int, j as int),
            decreases n - j,
        {
            let ghost before = Seq::new(nts@.len(), |q: int| (nts@[q], nval@[q]));
            nts.push(self.ts[j]);
            nval.push(self.val[j]);
            proof {
                assert(s[j as int] == (self.ts@[j as int], self.val@[j as int]));
                assert(Seq::new(nts@.len(), |q: int| (nts@[q], nval@[q]))
                    =~= before.push(s[j as int]));
                assert(s.subrange(rest as int, j + 1) =~= s.subrange(rest as int, j as int).push(
                    s[j as int]));
                assert(before.push(s[j as int]) =~= prefix + seq![(t, v)] + s.subrange(
                    rest as int, j + 1));
            }
            j = j + 1;
        }
        proof {
            assert(s.subrange(rest as int, n as int) =~= s.skip(rest as int));
            if i < n {
                if s[i as int].0 == t {
                    assert(prefix + seq![(t, v)] + s.skip(rest as int)
                        =~= prefix + run_insert_spec(s.skip(i as int), t, v));
                } else {
                    assert(prefix + seq![(t, v)] + s.skip(rest as int)
                        =~= prefix + run_insert_spec(s.skip(i as int), t, v));
                }
            } else {
                assert(prefix + seq![(t, v)] + s.skip(rest as int)
                    =~= prefix + run_insert_spec(s.skip(i as int), t, v));
            }
        }
        self.ts = nts;
        self.val = nval;
        proof {
            assert(final(self).pairs() =~= prefix + run_insert_spec(s.skip(i as int), t, v));
            lemma_run_insert_sorted(s, t, v);
        }
    }

    /// The value stored at a timestamp.
    pub fn get(&self, t: i64) -> (r: Option<u64>)
        requires
            self.wf(),
        ensures
            r == run_lookup(self.pairs(), t),
    {
        let ghost s = self.pairs();
        let n = self.ts.len();
        let mut i: usize = 0;
        proof {
            assert(s.skip(0) =~= s);
        }
        while i < n
            invariant
                i <= n,
                n == self.ts@.len(),
                self.wf(),
                s == self.pairs(),
                run_lookup(s, t) == run_lookup(s.skip(i as int), t),
            decreases n - i,
        {
            let ghost tail = s.skip(i as int);
            proof {
                assert(tail[0] == s[i as int]);
                assert(tail.drop_first() =~= s.skip(i + 1));
            }
            if self.ts[i] == t {
                return Some(self.val[i]);
            }
            i = i + 1;
        }
        proof {
            assert(s.skip(n as int) =~= Seq::<(i64, u64)>::empty());
        }
        None
    }

    /// The run frozen into one column-file block.
    pub fn to_block(&self, codec_tag: u8) -> (b: DataBlock)
        requires
            self.wf(),
        ensures
            b.wf(),
            b.pairs() == self.pairs(),
            b.codec_tag == codec_tag,
    {
        let ghost run_pairs = self.pairs();
        let m = self.len();
        let mut block = DataBlock::new(codec_tag);
        let mut j: usize = 0;
        while j < m
            invariant
                j <= m,
                self.wf(),
                run_pairs == self.pairs(),
                m == run_pairs.len(),
                block.wf(),
                block.codec_tag == codec_tag,
                block.pairs() == run_pairs.take(j as int),
            decreases m - j,
        {
            let p = self.pair_at(j);
            proof {
                assert(run_sorted(run_pairs));
                assert(forall|q: int|
                    0 <= q < j ==> (#[trigger] run_pairs.take(j as int)[q]).0 == run_pairs[q].0);
                assert(forall|q: int| 0 <= q < j ==> run_pairs[q].0 < run_pairs[j as int].0);
                assert(block.pairs() == run_pairs.take(j as int));
                assert(run_pairs.take(j as int).len() == j);
                assert(block.pairs().len() == block.ts@.len());
                assert(block.ts@.len() == j);
                assert(forall|q: int|
                    0 <= q < j ==> (#[trigger] block.ts@[q]) == block.pairs()[q].0);
                assert(forall|q: int| 0 <= q < j ==> (#[trigger] block.ts@[q]) < p.0);
            }
            block.push(p.0, p.1);
            proof {
                assert(block.pairs() =~= run_pairs.take(j + 1));
            }
            j = j + 1;
        }
        proof {
            assert(run_pairs.take(m as int) =~= run_pairs);
        }
        block
    }
}


/// The view of one memcache: its runs as an association sequence from
/// (series, field) to sorted pairs.
pub open spec fn cache_runs_view(runs: Seq<(SeriesField, FieldRun)>) -> Seq<
    (SeriesField, Seq<(i64, u64)>),
> {
    runs.map_values(|e: (SeriesField, FieldRun)| (e.0, e.1.pairs()))
}

/// The in-memory cache of one vnode.
pub struct Memcache {
    runs: Vec<(SeriesField, FieldRun)>,
    min_seq: u64,
    max_seq: u64,
    put_counter: u64,
    cache_size: u64,
}

impl Memcache {
    /// The runs, as an association sequence keyed by (series, field).
    pub closed spec fn view_runs(self) -> Seq<(SeriesField, Seq<(i64, u64)>)> {
        cache_runs_view(self.runs@)
    }

    /// The run of one (series, field), if any point of it was written.
    pub open spec fn spec_run(self, sf: SeriesField) -> Option<Seq<(i64, u64)>> {
        assoc_get(self.view_runs(), sf)
    }

    /// The value of one point, if present.
    pub open spec fn spec_get(self, sf: SeriesField, ts: i64) -> Option<u64> {
        match self.spec_run(sf) {
            None => None,
            Some(run) => run_lookup(run, ts),
        }
    }

    /// Smallest WAL sequence whose write may still live only here.
    pub closed spec fn spec_min_seq(self) -> u64 {
        self.min_seq
    }

    /// Largest WAL sequence applied to this cache.
    pub closed spec fn spec_max_seq(self) -> u64 {
        self.max_seq
    }

    /// How many points were ever written to this cache.
    pub closed spec fn spec_put_counter(self) -> u64 {
        self.put_counter
    }

    /// Approximate bytes held: one timestamp and one value word per point.
    pub closed spec fn spec_cache_size(self) -> u64 {
        self.cache_size
    }

    pub closed spec fn wf(self) -> bool {
        &&& unique_keys(self.view_runs())
        &&& forall|i: int|
            0 <= i < self.runs@.len() ==> (#[trigger] self.runs@[i].1).wf()
                && self.runs@[i].1.pairs().len() >= 1
    }

    /// A fresh cache; `seq_no` is the WAL sequence it starts at.
    pub fn new(seq_no: u64) -> (r: Memcache)
        ensures
            r.wf(),
            r.spec_min_seq() == seq_no,
            r.spec_max_seq() == seq_no,
            r.spec_put_counter() == 0,
            r.spec_cache_size() == 0,
            forall|sf: SeriesField| r.spec_run(sf) == None::<Seq<(i64, u64)>>,
    {
        let r = Memcache {
            runs: Vec::new(),
            min_seq: seq_no,
            max_seq: seq_no,
            put_counter: 0,
            cache_size: 0,
        };
        proof {
            assert(r.view_runs() =~= Seq::<(SeriesField, Seq<(i64, u64)>)>::empty());
        }
        r
    }

    pub fn min_seq(&self) -> (r: u64)
        ensures
            r == self.spec_min_seq(),
    {
        self.min_seq
    }

    pub fn max_seq(&self) -> (r: u64)
        ensures
            r == self.spec_max_seq(),
    {
        self.max_seq
    }

    pub fn put_counter(&self) -> (r: u64)
        ensures
            r == self.spec_put_counter(),
    {
        self.put_counter
    }

    pub fn cache_size(&self) -> (r: u64)
        ensures
            r == self.spec_cache_size(),
    {
        self.cache_size
    }

    /// Records that the cache now covers WAL sequences up to `seq`.
    pub fn mark_seq(&mut self, seq: u64)
        requires
            old(self).wf(),
        ensures
            final(self).wf(),
            final(self).spec_max_seq() == if seq > old(self).spec_max_seq() {
                seq
            } else {
                old(self).spec_max_seq()
            },
            final(self).spec_min_seq() == old(self).spec_min_seq(),
            forall|sf: SeriesField| final(self).spec_run(sf) == old(self).spec_run(sf),
            final(self).spec_put_counter() == old(self).spec_put_counter(),
            final(self).spec_cache_size() == old(self).spec_cache_size(),
    {
        if seq > self.max_seq {
            self.max_seq = seq;
        }
    }

    /// The position of the run of one (series, field), if present.
    fn find_run(&self, series_id: u64, field_id: u64) -> (r: Option<usize>)
        ensures
            match r {
                Some(i) => i < self.runs@.len() && self.runs@[i as int].0
                    == (SeriesField { series_id, field_id }),
                None => forall|j: int|
                    0 <= j < self.runs@.len() ==> (#[trigger] self.runs@[j]).0
                        != (SeriesField { series_id, field_id }),
            },
    {
        let sf = SeriesField { series_id, field_id };
        let n = self.runs.len();
        let mut idx: usize = 0;
        while idx < n
            invariant
                idx <= n,
                n == self.runs@.len(),
                sf == (SeriesField { series_id, field_id }),
                forall|j: int| 0 <= j < idx ==> (#[trigger] self.runs@[j]).0 != sf,
            decreases n - idx,
        {
            let key = self.runs[idx].0;
            assert(key == self.runs@[idx as int].0);
            if key.series_id == series_id && key.field_id == field_id {
                assert(key == sf);
                return Some(idx);
            }
            assert(key != sf);
            idx = idx + 1;
        }
        None
    }

    /// Writes one point. On a duplicate (series, field, timestamp) the new
    /// value replaces the old one: the later write wins.
    pub fn write_point(&mut self, series_id: u64, field_id: u64, ts: i64, val: u64)
        requires
            old(self).wf(),
        ensures
            final(self).wf(),
            final(self).spec_run(SeriesField { series_id, field_id })
                == Some(run_insert_spec(
                    match old(self).spec_run(SeriesField { series_id, field_id }) {
                        Some(run) => run,
                        None => Seq::empty(),
                    },
                    ts,
                    val,
                )),
            forall|sf: SeriesField|
                sf != (SeriesField { series_id, field_id }) ==> final(self).spec_run(sf)
                    == old(self).spec_run(sf),
            final(self).spec_min_seq() == old(self).spec_min_seq(),
            final(self).spec_max_seq() == old(self).spec_max_seq(),
            final(self).spec_put_counter() == if old(self).spec_put_counter() < u64::MAX {
                old(self).spec_put_counter() + 1
            } else {
                old(self).spec_put_counter() as int
            },
            final(self).spec_cache_size() == if old(self).spec_cache_size() <= u64::MAX - 16 {
                old(self).spec_cache_size() + 16
            } else {
                old(self).spec_cache_size() as int
            },
    {
        let sf = SeriesField { series_id, field_id };
        let ghost rv = self.view_runs();
        proof {
            assert(forall|j: int|
                0 <= j < rv.len() ==> rv[j] == ((#[trigger] self.runs@[j]).0,
                self.runs@[j].1.pairs()));
        }
        match self.find_run(series_id, field_id) {
            Some(idx) => {
                proof {
                    assert(rv[idx as int].0 == sf);
                    assert(rv[idx as int].1 == self.runs@[idx as int].1.pairs());
                    lemma_assoc_get_present(rv, sf, idx as int);
                    lemma_assoc_update(rv, idx as int, run_insert_spec(rv[idx as int].1, ts, val));
                }
                let entry = self.runs.remove(idx);
                let key = entry.0;
                let mut run = entry.1;
                proof {
                    lemma_run_insert_sorted(run.pairs(), ts, val);
                }
                run.insert(ts, val);
                self.runs.push((key, run));
                proof {
                    assert(self.view_runs() =~= rv.remove(idx as int).push(
                        (sf, run_insert_spec(rv[idx as int].1, ts, val))));
                }
            },
            None => {
                proof {
                    assert(!has_key(rv, sf)) by {
                        if has_key(rv, sf) {
                            let j = choose|j: int| 0 <= j < rv.len() && rv[j].0 == sf;
                            assert(self.runs@[j].0 == sf);
                        }
                    }
                    lemma_assoc_get_absent(rv, sf);
                    lemma_assoc_insert(rv, sf, run_insert_spec(Seq::empty(), ts, val));
                }
                let mut run = FieldRun::new();
                proof {
                    lemma_run_insert_sorted(Seq::empty(), ts, val);
                }
                run.insert(ts, val);
                self.runs.push((sf, run));
                proof {
                    assert(self.view_runs() =~= rv.push(
                        (sf, run_insert_spec(Seq::empty(), ts, val))));
                }
            },
        }
        if self.put_counter < u64::MAX {
            self.put_counter = self.put_counter + 1;
        }
        if self.cache_size <= u64::MAX - 16 {
            self.cache_size = self.cache_size + 16;
        }
    }

    /// Reads one point back.
    pub fn get(&self, series_id: u64, field_id: u64, ts: i64) -> (r: Option<u64>)
        requires
            self.wf(),
        ensures
            r == self.spec_get(SeriesField { series_id, field_id }, ts),
    {
        let sf = SeriesField { series_id, field_id };
        let ghost rv = self.view_runs();
        proof {
            assert(forall|j: int|
                0 <= j < rv.len() ==> rv[j] == ((#[trigger] self.runs@[j]).0,
                self.runs@[j].1.pairs()));
        }
        match self.find_run(series_id, field_id) {
            Some(idx) => {
                proof {
                    assert(rv[idx as int].0 == sf);
                    lemma_assoc_get_present(rv, sf, idx as int);
                }
                self.runs[idx].1.get(ts)
            },
            None => {
                proof {
                    assert(!has_key(rv, sf)) by {
                        if has_key(rv, sf) {
                            let j = choose|j: int| 0 <= j < rv.len() && rv[j].0 == sf;
                            assert(self.runs@[j].0 == sf);
                        }
                    }
                    lemma_assoc_get_absent(rv, sf);
                }
                None
            },
        }
    }

    /// The cache frozen into column-file blocks: one block per run, in run
    /// order, each sorted; the association view carries over unchanged.
    pub fn to_blocks(&self) -> (r: Vec<(SeriesField, DataBlock)>)
        requires
            self.wf(),
        ensures
            r@.map_values(|e: (SeriesField, DataBlock)| (e.0, e.1.pairs())) == self.view_runs(),
            unique_keys(r@.map_values(|e: (SeriesField, DataBlock)| (e.0, e.1.pairs()))),
            forall|i: int|
                0 <= i < r@.len() ==> (#[trigger] r@[i]).1.wf() && r@[i].1.pairs().len() >= 1,
    {
        let n = self.runs.len();
        let mut out: Vec<(SeriesField, DataBlock)> = Vec::new();
        let mut i: usize = 0;
        while i < n
            invariant
                i <= n,
                n == self.runs@.len(),
                self.wf(),
                out@.len() == i,
                forall|k: int|
                    0 <= k < i ==> (#[trigger] out@[k]).0 == self.runs@[k].0
                        && out@[k].1.pairs() == self.runs@[k].1.pairs(),
                forall|k: int|
                    0 <= k < i ==> (#[trigger] out@[k]).1.wf() && out@[k].1.pairs().len() >= 1,
            decreases n - i,
        {
            let ghost run_pairs = self.runs@[i as int].1.pairs();
            let m = self.runs[i].1.len();
            let mut block = DataBlock::new(0);
            let mut j: usize = 0;
            while j < m
                invariant
                    j <= m,
                    i < self.runs@.len(),
                    self.wf(),
                    run_pairs == self.runs@[i as int].1.pairs(),
                    m == run_pairs.len(),
                    block.wf(),
                    block.pairs() == run_pairs.take(j as int),
                decreases m - j,
            {
                let p = self.runs[i].1.pair_at(j);
                proof {
                    assert(run_sorted(run_pairs));
                    assert(forall|q: int|
                        0 <= q < j ==> (#[trigger] run_pairs.take(j as int)[q]).0
                            == run_pairs[q].0);
                    assert(forall|q: int| 0 <= q < j ==> run_pairs[q].0 < run_pairs[j as int].0);
                    assert(block.pairs() == run_pairs.take(j as int));
                    assert(run_pairs.take(j as int).len() == j);
                    assert(block.pairs().len() == block.ts@.len());
                    assert(block.ts@.len() == j);
                    assert(forall|q: int|
                        0 <= q < j ==> (#[trigger] block.ts@[q]) == block.pairs()[q].0);
                    assert(forall|q: int|
                        0 <= q < j ==> (#[trigger] block.ts@[q]) < p.0);
                }
                block.push(p.0, p.1);
                proof {
                    assert(block.pairs() =~= run_pairs.take(j + 1));
                }
                j = j + 1;
            }
            proof {
                assert(run_pairs.take(m as int) =~= run_pairs);
            }
            let key = self.runs[i].0;
            out.push((key, block));
            i = i + 1;
        }
        proof {
            assert(out@.map_values(|e: (SeriesField, DataBlock)| (e.0, e.1.pairs()))
                =~= self.view_runs());
        }
        out
    }

    /// How many runs the cache holds.
    pub fn run_count(&self) -> (r: usize)
        ensures
            r == self.view_runs().len(),
    {
        let r = self.runs.len();
        proof {
            assert(self.view_runs().len() == self.runs@.len());
        }
        r
    }

    /// The key and pair count of the run at one position.
    pub fn run_at(&self, i: usize) -> (r: (SeriesField, usize))
        requires
            self.wf(),
            i < self.view_runs().len(),
        ensures
            r.0 == self.view_runs()[i as int].0,
            r.1 == self.view_runs()[i as int].1.len(),
    {
        proof {
            assert(self.view_runs().len() == self.runs@.len());
        }
        let key = self.runs[i].0;
        let len = self.runs[i].1.len();
        (key, len)
    }

    /// One pair of the run at one position.
    pub fn run_pair_at(&self, i: usize, j: usize) -> (r: (i64, u64))
        requires
            self.wf(),
            i < self.view_runs().len(),
            j < self.view_runs()[i as int].1.len(),
        ensures
            r == self.view_runs()[i as int].1[j as int],
    {
        proof {
            assert(self.view_runs().len() == self.runs@.len());
        }
        self.runs[i].1.pair_at(j)
    }
}

} // verus!
