//! The vnode controller: one writer coordinating the write-ahead log, the
//! memcache, the column files and the summary of one vnode.
//!
//! Durability ordering on flush: the column file is made durable before the
//! version edit is appended to the summary, and the summary append is made
//! durable before the write-ahead log is truncated. A crash between the
//! file write and the summary append leaves an orphan file, which recovery
//! reclaims by holding the directory against the summary.

use vstd::prelude::*;
use crate::assoc::{assoc_get, has_key, lemma_assoc_get_absent, lemma_assoc_get_present,
    lemma_assoc_insert, unique_keys};
use crate::compaction::{blocks_pairs, compact_blocks, fold_run, lemma_blocks_pairs_concat};
use crate::memcache::{Memcache, SeriesField, run_insert_spec};
use crate::tombstone::{Tombstone, TsmTombstone, spec_covered};
use crate::tsm::DataBlock;
use crate::summary::{Summary, lemma_replay_push, replay_files, replay_seq};
use crate::tsm::{TsmFile, file_blocks_view};
use crate::version::{CompactMeta, Version, VersionEdit};
use crate::wal::{Point, Wal, replay_points};

verus! {

/// Bytes the memcache may hold before writers are pushed back: over this
/// bound a write fails fast with a resource-exhausted signal and the
/// caller must flush or back off.
pub const MEMCACHE_SIZE_LIMIT: u64 = 0x4000000;

/// The memcache content as a map from (series, field) to its sorted run.
pub open spec fn mc_map(mc: Memcache) -> Map<SeriesField, Seq<(i64, u64)>> {
    Map::new(
        |sf: SeriesField| mc.spec_run(sf) is Some,
        |sf: SeriesField| mc.spec_run(sf).unwrap(),
    )
}

/// One point applied to a cache map: the run of its (series, field) gains
/// the point, the later write winning on an equal timestamp.
pub open spec fn apply_point(m: Map<SeriesField, Seq<(i64, u64)>>, p: Point) -> Map<
    SeriesField,
    Seq<(i64, u64)>,
> {
    let sf = SeriesField { series_id: p.series_id, field_id: p.field_id };
    let run = if m.dom().contains(sf) {
        m[sf]
    } else {
        Seq::empty()
    };
    m.insert(sf, run_insert_spec(run, p.ts, p.val))
}

/// A run of points applied in order.
pub open spec fn fold_points(m: Map<SeriesField, Seq<(i64, u64)>>, ps: Seq<Point>) -> Map<
    SeriesField,
    Seq<(i64, u64)>,
>
    decreases ps.len(),
{
    if ps.len() == 0 {
        m
    } else {
        fold_points(apply_point(m, ps[0]), ps.drop_first())
    }
}

/// Applying a concatenation applies the parts in order.
pub proof fn lemma_fold_points_concat(
    m: Map<SeriesField, Seq<(i64, u64)>>,
    a: Seq<Point>,
    b: Seq<Point>,
)
    ensures
        fold_points(m, a + b) == fold_points(fold_points(m, a), b),
    decreases a.len(),
{
    if a.len() == 0 {
        assert(a + b =~= b);
    } else {
        assert((a + b)[0] == a[0]);
        assert((a + b).drop_first() =~= a.drop_first() + b);
        lemma_fold_points_concat(apply_point(m, a[0]), a.drop_first(), b);
    }
}

/// Appending a record to the log extends the replayed points with the
/// record's batch when its sequence lies above the threshold.
pub proof fn lemma_replay_points_push(
    s: Seq<crate::wal::WalRecord>,
    r: crate::wal::WalRecord,
    after: u64,
)
    ensures
        replay_points(s.push(r), after) == replay_points(s, after) + if r.seq > after {
            r.points@
        } else {
            Seq::<Point>::empty()
        },
    decreases s.len(),
{
    let p = s.push(r);
    assert(replay_points(Seq::<crate::wal::WalRecord>::empty(), after) == Seq::<Point>::empty());
    if s.len() == 0 {
        assert(p[0] == r);
        assert(p.drop_first() =~= Seq::<crate::wal::WalRecord>::empty());
        assert(s =~= Seq::<crate::wal::WalRecord>::empty());
        if r.seq > after {
            assert(replay_points(p, after) == r.points@ + replay_points(
                p.drop_first(), after));
            assert(replay_points(p, after) =~= replay_points(s, after) + r.points@);
        } else {
            assert(replay_points(p, after) == replay_points(p.drop_first(), after));
            assert(replay_points(p, after) =~= replay_points(s, after));
        }
    } else {
        assert(p[0] == s[0]);
        assert(p.drop_first() =~= s.drop_first().push(r));
        lemma_replay_points_push(s.drop_first(), r, after);
        if s[0].seq > after {
            assert(replay_points(p, after) =~= s[0].points@ + replay_points(
                s.drop_first().push(r), after));
            if r.seq > after {
                assert(replay_points(p, after) =~= (s[0].points@ + replay_points(
                    s.drop_first(), after)) + r.points@);
            } else {
                assert(replay_points(p, after) =~= s[0].points@ + replay_points(
                    s.drop_first(), after));
            }
        }
        if r.seq > after {
            assert(replay_points(s, after) + r.points@ =~= replay_points(p, after));
        } else {
            assert(replay_points(s, after) + Seq::<Point>::empty() =~= replay_points(s, after));
            assert(replay_points(s, after) =~= replay_points(p, after));
        }
    }
}

/// What a cache map holds at one key, shaped as the memcache lookup.
pub open spec fn run_before_of(m: Map<SeriesField, Seq<(i64, u64)>>, sf: SeriesField) -> Option<
    Seq<(i64, u64)>,
> {
    if m.dom().contains(sf) {
        Some(m[sf])
    } else {
        None
    }
}

/// The directory of column files as an association sequence keyed by file
/// ID.
pub open spec fn files_assoc(dir: Seq<TsmFile>) -> Seq<(u64, TsmFile)> {
    dir.map_values(|f: TsmFile| (f.meta.file_id, f))
}

/// What a read finds in the live files: the newest file with a hit decides,
/// newest last in the version's file list.
pub open spec fn files_read(
    metas: Seq<CompactMeta>,
    dir: Seq<TsmFile>,
    sf: SeriesField,
    ts: i64,
) -> Option<u64>
    decreases metas.len(),
{
    if metas.len() == 0 {
        None
    } else {
        let hit = match assoc_get(files_assoc(dir), metas.last().file_id) {
            None => None,
            Some(f) => f.spec_lookup(sf, ts),
        };
        match hit {
            Some(v) => Some(v),
            None => files_read(metas.drop_last(), dir, sf, ts),
        }
    }
}

/// Reading through directories that agree on every referenced file agrees.
pub proof fn lemma_files_read_congruent(
    metas: Seq<CompactMeta>,
    dir_a: Seq<TsmFile>,
    dir_b: Seq<TsmFile>,
    sf: SeriesField,
    ts: i64,
)
    requires
        forall|i: int|
            0 <= i < metas.len() ==> assoc_get(files_assoc(dir_a), (#[trigger] metas[i]).file_id)
                == assoc_get(files_assoc(dir_b), metas[i].file_id),
    ensures
        files_read(metas, dir_a, sf, ts) == files_read(metas, dir_b, sf, ts),
    decreases metas.len(),
{
    if metas.len() > 0 {
        assert(forall|i: int| 0 <= i < metas.drop_last().len() ==> metas.drop_last()[i]
            == metas[i]);
        lemma_files_read_congruent(metas.drop_last(), dir_a, dir_b, sf, ts);
    }
}

/// The durable state of one vnode: what survives a crash.
pub struct VnodeDurable {
    pub tf_id: u32,
    pub wal: Wal,
    pub files: Vec<TsmFile>,
    pub summary: Summary,
}

impl VnodeDurable {
    pub open spec fn wf(self) -> bool {
        &&& self.wal.wf()
        &&& self.summary.wf()
        &&& self.wal.spec_next_seq() >= 1
        &&& replay_seq(0, self.summary.spec_edits()) < self.wal.spec_next_seq()
        &&& self.wal.spec_next_seq() - self.wal.spec_records().len() <= replay_seq(
            0,
            self.summary.spec_edits(),
        ) + 1
        &&& unique_keys(files_assoc(self.files@))
        &&& forall|i: int| 0 <= i < self.files@.len() ==> (#[trigger] self.files@[i]).wf()
        &&& forall|i: int|
            0 <= i < self.files@.len() ==> (#[trigger] self.files@[i]).meta.file_id
                < self.summary.spec_next_file_id()
        &&& forall|i: int|
            0 <= i < replay_files(Seq::empty(), self.summary.spec_edits()).len() ==> has_key(
                files_assoc(self.files@),
                (#[trigger] replay_files(Seq::empty(), self.summary.spec_edits())[i]).file_id,
            )
    }
}

/// One vnode: its durable state plus the in-memory tier a crash loses.
pub struct VnodeStorage {
    pub durable: VnodeDurable,
    pub mc: Memcache,
    pub version: Version,
}

impl VnodeStorage {
    /// The controller invariant.
    pub open spec fn wf(self) -> bool {
        &&& self.durable.wf()
        &&& self.mc.wf()
        &&& self.version.tf_id == self.durable.tf_id
        &&& self.version.files@ == replay_files(Seq::empty(), self.durable.summary.spec_edits())
        &&& self.version.last_seq == replay_seq(0, self.durable.summary.spec_edits())
        &&& self.mc.spec_max_seq() + 1 == self.durable.wal.spec_next_seq()
        &&& self.version.last_seq <= self.mc.spec_max_seq()
        &&& self.durable.wal.spec_next_seq() - self.durable.wal.spec_records().len()
            <= self.version.last_seq + 1
        &&& mc_map(self.mc) == fold_points(
            Map::empty(),
            replay_points(self.durable.wal.spec_records(), self.version.last_seq),
        )
        &&& forall|i: int|
            0 <= i < self.version.files@.len() ==> (#[trigger] self.version.files@[i]).file_id
                < self.durable.summary.spec_next_file_id()
    }

    /// What a read returns: the memcache first, then the live files, newest
    /// first.
    pub open spec fn spec_read(self, sf: SeriesField, ts: i64) -> Option<u64> {
        match self.mc.spec_get(sf, ts) {
            Some(v) => Some(v),
            None => files_read(self.version.files@, self.durable.files@, sf, ts),
        }
    }

    /// Opens a fresh vnode with no durable state.
    pub fn open(tf_id: u32) -> (r: VnodeStorage)
        ensures
            r.wf(),
            r.durable.tf_id == tf_id,
            r.version.last_seq == 0,
            r.durable.wal.spec_next_seq() == 1,
            forall|sf: SeriesField, ts: i64| r.spec_read(sf, ts) == None::<u64>,
    {
        let r = VnodeStorage {
            durable: VnodeDurable {
                tf_id,
                wal: Wal::new(1),
                files: Vec::new(),
                summary: Summary::new(1),
            },
            mc: Memcache::new(0),
            version: Version::new(tf_id),
        };
        proof {
            assert(mc_map(r.mc) =~= Map::<SeriesField, Seq<(i64, u64)>>::empty());
            assert(files_assoc(r.durable.files@) =~= Seq::<(u64, TsmFile)>::empty());
        }
        r
    }

    /// The position in the directory of the file with one ID, if present.
    fn find_file(dir: &Vec<TsmFile>, file_id: u64) -> (r: Option<usize>)
        ensures
            match r {
                Some(i) => i < dir@.len() && dir@[i as int].meta.file_id == file_id,
                None => forall|j: int|
                    0 <= j < dir@.len() ==> (#[trigger] dir@[j]).meta.file_id != file_id,
            },
    {
        let n = dir.len();
        let mut i: usize = 0;
        while i < n
            invariant
                i <= n,
                n == dir@.len(),
                forall|j: int| 0 <= j < i ==> (#[trigger] dir@[j]).meta.file_id != file_id,
            decreases n - i,
        {
            if dir[i].meta.file_id == file_id {
                return Some(i);
            }
            i = i + 1;
        }
        None
    }

    /// Reads one point: the memcache answers first, then the live column
    /// files, newest first.
    pub fn read(&self, series_id: u64, field_id: u64, ts: i64) -> (r: Option<u64>)
        requires
            self.wf(),
        ensures
            r == self.spec_read(SeriesField { series_id, field_id }, ts),
    {
        let sf = SeriesField { series_id, field_id };
        match self.mc.get(series_id, field_id, ts) {
            Some(v) => Some(v),
            None => {
                let ghost metas = self.version.files@;
                let ghost dir = self.durable.files@;
                let ghost fa = files_assoc(dir);
                proof {
                    assert(forall|j: int|
                        0 <= j < fa.len() ==> fa[j] == ((#[trigger] dir[j]).meta.file_id,
                        dir[j]));
                }
                let mut k = self.version.files.len();
                proof {
                    assert(metas.take(k as int) =~= metas);
                }
                while k > 0
                    invariant
                        k <= self.version.files@.len(),
                        self.wf(),
                        metas == self.version.files@,
                        dir == self.durable.files@,
                        fa == files_assoc(dir),
                        sf == (SeriesField { series_id, field_id }),
                        self.mc.spec_get(sf, ts) is None,
                        files_read(metas, dir, sf, ts) == files_read(
                            metas.take(k as int), dir, sf, ts),
                    decreases k,
                {
                    let ghost sub = metas.take(k as int);
                    proof {
                        assert(sub.last() == metas[k - 1]);
                        assert(sub.drop_last() =~= metas.take(k - 1));
                    }
                    let meta = self.version.files[k - 1];
                    match Self::find_file(&self.durable.files, meta.file_id) {
                        Some(i) => {
                            proof {
                                assert(fa[i as int].0 == meta.file_id);
                                lemma_assoc_get_present(fa, meta.file_id, i as int);
                            }
                            let hv = self.durable.files[i].lookup(sf, ts);
                            proof {
                                assert(assoc_get(fa, sub.last().file_id)
                                    == Some(dir[i as int]));
                            }
                            match hv {
                                Some(v) => {
                                    proof {
                                        assert(files_read(sub, dir, sf, ts) == Some(v));
                                    }
                                    return Some(v);
                                },
                                None => {
                                    proof {
                                        assert(files_read(sub, dir, sf, ts) == files_read(
                                            metas.take(k - 1), dir, sf, ts));
                                    }
                                },
                            }
                        },
                        None => {
                            proof {
                                assert(!has_key(fa, meta.file_id)) by {
                                    if has_key(fa, meta.file_id) {
                                        let j = choose|j: int|
                                            0 <= j < fa.len() && fa[j].0 == meta.file_id;
                                        assert(dir[j].meta.file_id == meta.file_id);
                                    }
                                }
                                lemma_assoc_get_absent(fa, meta.file_id);
                                assert(files_read(sub, dir, sf, ts) == files_read(
                                    metas.take(k - 1), dir, sf, ts));
                            }
                        },
                    }
                    k = k - 1;
                }
                proof {
                    assert(metas.take(0) =~= Seq::<CompactMeta>::empty());
                    assert(files_read(metas.take(0), dir, sf, ts) == None::<u64>);
                }
                None
            },
        }
    }

    /// Applies a batch of points to the memcache, in order.
    fn apply_points(mc: &mut Memcache, points: &Vec<Point>)
        requires
            old(mc).wf(),
        ensures
            final(mc).wf(),
            mc_map(*final(mc)) == fold_points(mc_map(*old(mc)), points@),
            final(mc).spec_max_seq() == old(mc).spec_max_seq(),
            final(mc).spec_min_seq() == old(mc).spec_min_seq(),
    {
        let n = points.len();
        let mut i: usize = 0;
        proof {
            assert(points@.skip(0) =~= points@);
        }
        while i < n
            invariant
                i <= n,
                n == points@.len(),
                mc.wf(),
                mc.spec_max_seq() == old(mc).spec_max_seq(),
                mc.spec_min_seq() == old(mc).spec_min_seq(),
                fold_points(mc_map(*old(mc)), points@) == fold_points(
                    mc_map(*mc), points@.skip(i as int)),
            decreases n - i,
        {
            let ghost tail = points@.skip(i as int);
            let ghost before = mc_map(*mc);
            proof {
                assert(tail[0] == points@[i as int]);
                assert(tail.drop_first() =~= points@.skip(i + 1));
            }
            let p = points[i];
            mc.write_point(p.series_id, p.field_id, p.ts, p.val);
            proof {
                let sf = SeriesField { series_id: p.series_id, field_id: p.field_id };
                let after_map = mc_map(*mc);
                let target = apply_point(before, p);
                assert forall|sf2: SeriesField| after_map.dom().contains(sf2)
                    <==> target.dom().contains(sf2) by {
                    if sf2 != sf {
                        assert(mc.spec_run(sf2) == run_before_of(before, sf2));
                    }
                }
                assert forall|sf2: SeriesField| #[trigger] target.dom().contains(sf2)
                    implies after_map[sf2] == target[sf2] by {
                    if sf2 == sf {
                        if before.dom().contains(sf) {
                            assert(target[sf] == run_insert_spec(before[sf], p.ts, p.val));
                        } else {
                            assert(target[sf] == run_insert_spec(Seq::empty(), p.ts, p.val));
                        }
                    } else {
                        assert(mc.spec_run(sf2) == run_before_of(before, sf2));
                    }
                }
                assert(after_map =~= target);
            }
            i = i + 1;
        }
        proof {
            assert(points@.skip(n as int) =~= Seq::<Point>::empty());
        }
    }

    /// Accepts one write batch: appends it to the write-ahead log (that
    /// append is what makes the write durable and acknowledgeable), then
    /// applies it to the memcache. Returns the batch's sequence number.
    pub fn write(
        &mut self,
        tenant: String,
        database: String,
        precision: u8,
        points: Vec<Point>,
    ) -> (seq: u64)
        requires
            old(self).wf(),
            old(self).durable.wal.spec_next_seq() < u64::MAX,
        ensures
            final(self).wf(),
            seq == old(self).durable.wal.spec_next_seq(),
            final(self).durable.wal.spec_next_seq() == seq + 1,
            final(self).version == old(self).version,
            final(self).durable.files@ == old(self).durable.files@,
            final(self).durable.summary.spec_edits() == old(self).durable.summary.spec_edits(),
            mc_map(final(self).mc) == fold_points(mc_map(old(self).mc), points@),
    {
        let mut batch: Vec<Point> = Vec::new();
        let n = points.len();
        let mut i: usize = 0;
        while i < n
            invariant
                i <= n,
                n == points@.len(),
                batch@ == points@.subrange(0, i as int),
            decreases n - i,
        {
            batch.push(points[i]);
            proof {
                assert(batch@ =~= points@.subrange(0, i + 1));
            }
            i = i + 1;
        }
        proof {
            assert(points@.subrange(0, n as int) =~= points@);
        }
        let seq = self.durable.wal.append(tenant, database, precision, batch);
        Self::apply_points(&mut self.mc, &points);
        self.mc.mark_seq(seq);
        proof {
            let ghost old_recs = old(self).durable.wal.spec_records();
            let ghost new_recs = self.durable.wal.spec_records();
            let ghost last = self.version.last_seq;
            assert(new_recs =~= old_recs.push(new_recs.last()));
            lemma_replay_points_push(old_recs, new_recs.last(), last);
            assert(new_recs.last().seq == seq && seq > last);
            assert(replay_points(new_recs, last) == replay_points(old_recs, last)
                + new_recs.last().points@);
            assert(new_recs.last().points@ == points@);
            lemma_fold_points_concat(
                Map::empty(),
                replay_points(old_recs, last),
                points@,
            );
            assert(mc_map(self.mc) =~= fold_points(mc_map(old(self).mc), points@));
            assert(mc_map(self.mc) =~= fold_points(
                Map::empty(),
                replay_points(new_recs, last),
            ));
        }
        seq
    }

    /// Accepts one write batch under back-pressure: when the memcache is
    /// over its size bound the write fails fast with a resource-exhausted
    /// signal, leaving every tier untouched, so callers back off; below the
    /// bound it is accepted exactly as by `write`.
    pub fn write_checked(
        &mut self,
        tenant: String,
        database: String,
        precision: u8,
        points: Vec<Point>,
    ) -> (r: Result<u64, crate::error::Error>)
        requires
            old(self).wf(),
            old(self).durable.wal.spec_next_seq() < u64::MAX,
        ensures
            final(self).wf(),
            old(self).mc.spec_cache_size() >= MEMCACHE_SIZE_LIMIT ==> r == Err::<
                u64,
                crate::error::Error,
            >(crate::error::Error::ResourceExhausted) && *final(self) == *old(self),
            old(self).mc.spec_cache_size() < MEMCACHE_SIZE_LIMIT ==> {
                &&& r == Ok::<u64, crate::error::Error>(old(self).durable.wal.spec_next_seq())
                &&& final(self).durable.wal.spec_next_seq() == old(
                    self).durable.wal.spec_next_seq() + 1
                &&& final(self).version == old(self).version
                &&& mc_map(final(self).mc) == fold_points(mc_map(old(self).mc), points@)
            },
    {
        if self.mc.cache_size() >= MEMCACHE_SIZE_LIMIT {
            return Err(crate::error::Error::ResourceExhausted);
        }
        Ok(self.write(tenant, database, precision, points))
    }

    /// Flushes the memcache into a new level-0 column file. The file is
    /// made durable first, the version edit is appended to the summary
    /// next, the write-ahead log is truncated last, and only then is the
    /// new version published and a fresh memcache installed. An empty cache
    /// flushes to nothing.
    pub fn flush(&mut self)
        requires
            old(self).wf(),
            old(self).durable.summary.spec_next_file_id() < u64::MAX,
        ensures
            final(self).wf(),
            final(self).durable.wal.spec_next_seq() == old(self).durable.wal.spec_next_seq(),
            final(self).version.last_seq == old(self).mc.spec_max_seq() || (old(
                self).mc.view_runs().len() == 0 && *final(self) == *old(self)),
            old(self).mc.view_runs().len() > 0 ==> {
                &&& final(self).durable.files@.len() == old(self).durable.files@.len() + 1
                &&& file_blocks_view(final(self).durable.files@.last()) == old(
                    self).mc.view_runs()
                &&& final(self).version.files@.len() == old(self).version.files@.len() + 1
                &&& final(self).durable.wal.spec_records() == Seq::<crate::wal::WalRecord>::empty()
                &&& forall|sf: SeriesField| final(self).mc.spec_run(sf)
                    == None::<Seq<(i64, u64)>>
            },
    {
        if self.mc.run_count() == 0 {
            return;
        }
        let seq_no = self.mc.max_seq();
        let blocks = self.mc.to_blocks();
        let mut bloom = crate::bloom::BloomFilter::new();
        let nb = blocks.len();
        let mut i: usize = 0;
        while i < nb
            invariant
                i <= nb,
                nb == blocks@.len(),
                bloom.wf(),
                forall|j: int|
                    0 <= j < i ==> bloom.spec_contains((#[trigger] blocks@[j]).0.field_id),
            decreases nb - i,
        {
            bloom.insert(blocks[i].0.field_id);
            i = i + 1;
        }
        let mut min_ts: i64 = i64::MAX;
        let mut max_ts: i64 = i64::MIN;
        let mut bi: usize = 0;
        while bi < nb
            invariant
                bi <= nb,
                nb == blocks@.len(),
                forall|j: int| 0 <= j < nb ==> (#[trigger] blocks@[j]).1.wf(),
            decreases nb - bi,
        {
            match blocks[bi].1.time_range() {
                Some(tr) => {
                    if tr.min_ts < min_ts {
                        min_ts = tr.min_ts;
                    }
                    if tr.max_ts > max_ts {
                        max_ts = tr.max_ts;
                    }
                },
                None => {},
            }
            bi = bi + 1;
        }
        let file_id = self.durable.summary.new_file_id();
        let meta = CompactMeta {
            file_id,
            file_size: self.mc.cache_size(),
            tsf_id: self.durable.tf_id,
            level: 0,
            min_ts,
            max_ts,
        };
        let file = TsmFile { meta, bloom, blocks };
        proof {
            assert(file.wf()) by {
                assert(file_blocks_view(file) == self.mc.view_runs()) by {
                    assert(file.blocks@.map_values(
                        |e: (SeriesField, crate::tsm::DataBlock)| (e.0, e.1.pairs()))
                        == self.mc.view_runs());
                }
                assert(forall|j: int|
                    0 <= j < file.blocks@.len() ==> (#[trigger] file.blocks@[j]).1.wf()
                        && file.bloom.spec_contains(file.blocks@[j].0.field_id));
            }
        }
        let ghost old_edits = self.durable.summary.spec_edits();
        let mut add_a: Vec<CompactMeta> = Vec::new();
        add_a.push(meta);
        let edit_a = VersionEdit {
            add_files: add_a,
            del_file_ids: Vec::new(),
            max_level: 0,
            seq_no,
            tsf_id: self.durable.tf_id,
        };
        let mut add_b: Vec<CompactMeta> = Vec::new();
        add_b.push(meta);
        let edit_b = VersionEdit {
            add_files: add_b,
            del_file_ids: Vec::new(),
            max_level: 0,
            seq_no,
            tsf_id: self.durable.tf_id,
        };
        let ghost e = edit_a;
        proof {
            assert(edit_a.add_files@ =~= seq![meta]);
            assert(edit_b.add_files@ =~= edit_a.add_files@);
            assert(edit_b.del_file_ids@ =~= edit_a.del_file_ids@);
        }
        self.durable.summary.append_edit(edit_a);
        proof {
            lemma_replay_push(Seq::empty(), 0, old_edits, e);
        }
        self.version.apply_edit(&edit_b);
        proof {
            let dels = edit_b.del_file_ids@;
            assert(old(self).version.files@.filter(
                |m: CompactMeta| !crate::version::id_in(dels, m.file_id))
                =~= old(self).version.files@) by {
                crate::version::lemma_filter_keeps_all(old(self).version.files@, dels);
            }
            assert(crate::version::apply_edit_spec(old(self).version.files@, edit_b)
                == crate::version::apply_edit_spec(old(self).version.files@, e)) by {
                assert(dels =~= e.del_file_ids@);
            }
        }
        self.durable.files.push(file);
        self.durable.wal.truncate(seq_no);
        proof {
            assert(self.durable.wal.spec_records().len() == 0) by {
                if self.durable.wal.spec_records().len() > 0 {
                    assert(self.durable.wal.spec_records()[0].seq > seq_no);
                    assert(self.durable.wal.spec_records()[0].seq
                        == self.durable.wal.spec_next_seq()
                            - self.durable.wal.spec_records().len());
                    assert(self.durable.wal.spec_next_seq()
                        == old(self).durable.wal.spec_next_seq());
                    assert(seq_no == old(self).mc.spec_max_seq());
                }
            }
        }
        self.mc = Memcache::new(seq_no);
        proof {
            assert(mc_map(self.mc) =~= Map::<SeriesField, Seq<(i64, u64)>>::empty());
            assert(replay_points(self.durable.wal.spec_records(), self.version.last_seq)
                =~= Seq::<Point>::empty());
            assert(files_assoc(self.durable.files@)
                =~= files_assoc(old(self).durable.files@).push((file_id, file)));
            assert(!has_key(files_assoc(old(self).durable.files@), file_id)) by {
                if has_key(files_assoc(old(self).durable.files@), file_id) {
                    let j = choose|j: int|
                        0 <= j < files_assoc(old(self).durable.files@).len() && files_assoc(
                            old(self).durable.files@)[j].0 == file_id;
                    assert(old(self).durable.files@[j].meta.file_id == file_id);
                }
            }
            lemma_assoc_insert(files_assoc(old(self).durable.files@), file_id, file);
            assert forall|i2: int| 0 <= i2 < self.version.files@.len() implies has_key(
                files_assoc(self.durable.files@),
                (#[trigger] self.version.files@[i2]).file_id,
            ) by {
                if i2 < self.version.files@.len() - 1 {
                    assert(self.version.files@[i2] == old(self).version.files@[i2]);
                    assert(has_key(files_assoc(old(self).durable.files@),
                        self.version.files@[i2].file_id));
                    let j = choose|j: int|
                        0 <= j < files_assoc(old(self).durable.files@).len() && files_assoc(
                            old(self).durable.files@)[j].0 == self.version.files@[i2].file_id;
                    assert(files_assoc(self.durable.files@)[j].0
                        == self.version.files@[i2].file_id);
                } else {
                    assert(self.version.files@[i2] == meta);
                    let last = files_assoc(self.durable.files@).len() - 1;
                    assert(files_assoc(self.durable.files@)[last].0 == file_id);
                }
            }
        }
    }


    /// Whether a key was already collected.
    fn keys_contain(keys: &Vec<SeriesField>, sf: SeriesField) -> (r: bool)
        ensures
            r == keys@.contains(sf),
    {
        let n = keys.len();
        let mut i: usize = 0;
        while i < n
            invariant
                i <= n,
                n == keys@.len(),
                forall|j: int| 0 <= j < i ==> keys@[j] != sf,
            decreases n - i,
        {
            let k = keys[i];
            if k.series_id == sf.series_id && k.field_id == sf.field_id {
                assert(k == sf);
                assert(keys@[i as int] == sf);
                return true;
            }
            assert(k != sf);
            i = i + 1;
        }
        proof {
            if keys@.contains(sf) {
                let j = choose|j: int| 0 <= j < keys@.len() && keys@[j] == sf;
            }
        }
        false
    }

    /// Compacts the version's level-0 files into one level-1 file: their
    /// points merge per field with the newest file winning a duplicate
    /// timestamp, the given tombstones excise covered points, and the
    /// published edit removes the inputs and adds the output. Input files
    /// stay in the directory until restart reclaims the unreferenced ones.
    /// With no level-0 file there is nothing to do.
    pub fn compact(&mut self, tombstones: &TsmTombstone)
        requires
            old(self).wf(),
            old(self).durable.summary.spec_next_file_id() < u64::MAX,
        ensures
            final(self).wf(),
            final(self).durable.wal == old(self).durable.wal,
            final(self).mc == old(self).mc,
            final(self).version.last_seq == old(self).version.last_seq,
            level0_ids(old(self).version.files@).len() == 0 ==> *final(self) == *old(self),
            level0_ids(old(self).version.files@).len() > 0 ==> {
                &&& final(self).durable.files@.len() == old(self).durable.files@.len() + 1
                &&& forall|i: int|
                    0 <= i < old(self).durable.files@.len() ==> final(self).durable.files@[i]
                        == old(self).durable.files@[i]
                &&& final(self).durable.files@.last().meta.level == 1
                &&& final(self).durable.files@.last().meta.file_id == old(
                    self).durable.summary.spec_next_file_id()
                &&& final(self).version.files@ == old(self).version.files@.filter(
                    |m: CompactMeta| !crate::version::id_in(
                        level0_ids(old(self).version.files@),
                        m.file_id,
                    ),
                ).push(final(self).durable.files@.last().meta)
                &&& forall|sf: SeriesField|
                    #[trigger] assoc_get(
                        file_blocks_view(final(self).durable.files@.last()),
                        sf,
                    ) == if gather_blocks(
                        old(self).durable.files@,
                        level0_ids(old(self).version.files@),
                        sf,
                    ).len() > 0 {
                        Some(merged_pairs(
                            old(self).durable.files@,
                            level0_ids(old(self).version.files@),
                            sf,
                            tombstones.spec_entries(),
                        ))
                    } else {
                        None::<Seq<(i64, u64)>>
                    }
            },
    {
        let ghost old_files = self.version.files@;
        let ghost dir0 = self.durable.files@;
        let ghost fa0 = files_assoc(dir0);
        proof {
            assert(forall|j: int|
                0 <= j < fa0.len() ==> fa0[j] == ((#[trigger] dir0[j]).meta.file_id, dir0[j]));
        }
        let nv = self.version.files.len();
        let mut ids: Vec<u64> = Vec::new();
        let mut dels: Vec<u64> = Vec::new();
        let mut t: usize = 0;
        proof {
            assert(old_files.take(0) =~= Seq::<CompactMeta>::empty());
            reveal(Seq::filter);
            assert(ids@ =~= level0_ids(old_files.take(0)));
        }
        while t < nv
            invariant
                t <= nv,
                nv == self.version.files@.len(),
                old_files == self.version.files@,
                ids@ == level0_ids(old_files.take(t as int)),
                dels@ == ids@,
            decreases nv - t,
        {
            let m = self.version.files[t];
            proof {
                assert(old_files.take(t + 1) =~= old_files.take(t as int).push(m));
                lemma_level0_ids_push(old_files.take(t as int), m);
            }
            if m.level == 0 {
                ids.push(m.file_id);
                dels.push(m.file_id);
            }
            t = t + 1;
        }
        proof {
            assert(old_files.take(nv as int) =~= old_files);
        }
        if ids.len() == 0 {
            return;
        }
        let ghost idsv = ids@;

        // Collect the (series, field) keys the inputs hold, first sight first.
        let mut keys: Vec<SeriesField> = Vec::new();
        let ni = ids.len();
        let mut t2: usize = 0;
        proof {
            assert(idsv.take(0) =~= Seq::<u64>::empty());
            assert forall|sf: SeriesField| #[trigger] keys@.contains(sf)
                <==> gather_blocks(dir0, idsv.take(0), sf).len() > 0 by {
                if keys@.contains(sf) {
                    let j = choose|j: int| 0 <= j < keys@.len() && keys@[j] == sf;
                }
            }
        }
        while t2 < ni
            invariant
                t2 <= ni,
                ni == idsv.len(),
                ids@ == idsv,
                dir0 == self.durable.files@,
                fa0 == files_assoc(dir0),
                self.wf(),
                forall|a: int, b: int| 0 <= a < b < keys@.len() ==> keys@[a] != keys@[b],
                forall|sf: SeriesField| #[trigger] keys@.contains(sf)
                    <==> gather_blocks(dir0, idsv.take(t2 as int), sf).len() > 0,
            decreases ni - t2,
        {
            let ghost prefix = idsv.take(t2 as int);
            proof {
                assert(idsv.take(t2 + 1).drop_last() =~= prefix);
                assert(idsv.take(t2 + 1).last() == idsv[t2 as int]);
            }
            let id = ids[t2];
            match Self::find_file(&self.durable.files, id) {
                Some(fi) => {
                    proof {
                        assert(fa0[fi as int].0 == id);
                        lemma_assoc_get_present(fa0, id, fi as int);
                    }
                    let ghost fb = dir0[fi as int].blocks@;
                    let nb = self.durable.files[fi].blocks.len();
                    let mut b: usize = 0;
                    while b < nb
                        invariant
                            b <= nb,
                            fi < dir0.len(),
                            nb == fb.len(),
                            fb == dir0[fi as int].blocks@,
                            dir0 == self.durable.files@,
                            forall|a: int, c: int|
                                0 <= a < c < keys@.len() ==> keys@[a] != keys@[c],
                            forall|sf: SeriesField| #[trigger] keys@.contains(sf)
                                <==> gather_blocks(dir0, prefix, sf).len() > 0 || (exists|k: int|
                                    0 <= k < b && (#[trigger] fb[k]).0 == sf),
                        decreases nb - b,
                    {
                        let key = self.durable.files[fi].blocks[b].0;
                        proof {
                            assert(key == fb[b as int].0);
                        }
                        if !Self::keys_contain(&keys, key) {
                            let ghost keys_before = keys@;
                            keys.push(key);
                            proof {
                                assert forall|sf: SeriesField| #[trigger] keys@.contains(sf)
                                    <==> gather_blocks(dir0, prefix, sf).len() > 0 || (
                                exists|k: int| 0 <= k < b + 1 && (#[trigger] fb[k]).0 == sf) by {
                                    if keys@.contains(sf) {
                                        let j = choose|j: int|
                                            0 <= j < keys@.len() && keys@[j] == sf;
                                        if j < keys@.len() - 1 {
                                            assert(keys_before[j] == sf);
                                            assert(keys_before.contains(sf));
                                        } else {
                                            assert(sf == key);
                                            assert(fb[b as int].0 == sf);
                                        }
                                    }
                                    if gather_blocks(dir0, prefix, sf).len() > 0 {
                                        assert(keys_before.contains(sf));
                                        let j = choose|j: int|
                                            0 <= j < keys_before.len() && keys_before[j] == sf;
                                        assert(keys@[j] == sf);
                                        assert(keys@.contains(sf));
                                    }
                                    if exists|k: int|
                                        0 <= k < b + 1 && (#[trigger] fb[k]).0 == sf {
                                        let k = choose|k: int|
                                            0 <= k < b + 1 && fb[k].0 == sf;
                                        if k < b {
                                            assert(keys_before.contains(sf));
                                            let j = choose|j: int|
                                                0 <= j < keys_before.len() && keys_before[j]
                                                    == sf;
                                            assert(keys@[j] == sf);
                                        } else {
                                            assert(sf == key);
                                            assert(keys@[keys@.len() - 1] == sf);
                                        }
                                        assert(keys@.contains(sf));
                                    }
                                }
                            }
                        } else {
                            proof {
                                assert forall|sf: SeriesField| #[trigger] keys@.contains(sf)
                                    <==> gather_blocks(dir0, prefix, sf).len() > 0 || (
                                exists|k: int| 0 <= k < b + 1 && (#[trigger] fb[k]).0 == sf) by {
                                    if exists|k: int|
                                        0 <= k < b + 1 && (#[trigger] fb[k]).0 == sf {
                                        let k = choose|k: int|
                                            0 <= k < b + 1 && fb[k].0 == sf;
                                        if k == b {
                                            assert(sf == key);
                                            assert(keys@.contains(sf));
                                        }
                                    }
                                }
                            }
                        }
                        b = b + 1;
                    }
                    proof {
                        assert forall|sf: SeriesField| #[trigger] keys@.contains(sf)
                            <==> gather_blocks(dir0, idsv.take(t2 + 1), sf).len() > 0 by {
                            assert(gather_blocks(dir0, idsv.take(t2 + 1), sf)
                                == gather_blocks(dir0, prefix, sf) + file_contrib(
                                dir0, idsv[t2 as int], sf));
                            crate::assoc::lemma_assoc_get_has_key(fb, sf);
                            if exists|k: int| 0 <= k < nb && (#[trigger] fb[k]).0 == sf {
                                assert(has_key(fb, sf));
                                assert(file_contrib(dir0, idsv[t2 as int], sf).len() == 1);
                            } else {
                                assert(!has_key(fb, sf)) by {
                                    if has_key(fb, sf) {
                                        let k = choose|k: int|
                                            0 <= k < fb.len() && fb[k].0 == sf;
                                    }
                                }
                                assert(file_contrib(dir0, idsv[t2 as int], sf).len() == 0);
                            }
                        }
                    }
                },
                None => {
                    proof {
                        assert(!has_key(fa0, idsv[t2 as int])) by {
                            if has_key(fa0, idsv[t2 as int]) {
                                let j = choose|j: int|
                                    0 <= j < fa0.len() && fa0[j].0 == idsv[t2 as int];
                                assert(dir0[j].meta.file_id == idsv[t2 as int]);
                            }
                        }
                        lemma_assoc_get_absent(fa0, idsv[t2 as int]);
                        assert forall|sf: SeriesField| #[trigger] keys@.contains(sf)
                            <==> gather_blocks(dir0, idsv.take(t2 + 1), sf).len() > 0 by {
                            assert(gather_blocks(dir0, idsv.take(t2 + 1), sf)
                                == gather_blocks(dir0, prefix, sf) + file_contrib(
                                dir0, idsv[t2 as int], sf));
                            assert(file_contrib(dir0, idsv[t2 as int], sf).len() == 0);
                        }
                    }
                },
            }
            t2 = t2 + 1;
        }
        proof {
            assert(idsv.take(ni as int) =~= idsv);
        }

        // Merge each field's blocks, oldest file first.
        let mut blocks_out: Vec<(SeriesField, DataBlock)> = Vec::new();
        let mut bloom = crate::bloom::BloomFilter::new();
        let nk = keys.len();
        let mut ki: usize = 0;
        while ki < nk
            invariant
                ki <= nk,
                nk == keys@.len(),
                ni == idsv.len(),
                ids@ == idsv,
                dir0 == self.durable.files@,
                fa0 == files_assoc(dir0),
                self.wf(),
                forall|a: int, b: int| 0 <= a < b < keys@.len() ==> keys@[a] != keys@[b],
                bloom.wf(),
                blocks_out@.len() == ki,
                forall|j: int|
                    0 <= j < ki ==> (#[trigger] blocks_out@[j]).0 == keys@[j],
                forall|j: int|
                    0 <= j < ki ==> (#[trigger] blocks_out@[j]).1.wf()
                        && blocks_out@[j].1.pairs() == merged_pairs(
                        dir0, idsv, keys@[j], tombstones.spec_entries()),
                forall|j: int|
                    0 <= j < ki ==> bloom.spec_contains((#[trigger] keys@[j]).field_id),
            decreases nk - ki,
        {
            let sf = keys[ki];
            let mut inputs: Vec<DataBlock> = Vec::new();
            let mut t3: usize = 0;
            proof {
                assert(idsv.take(0) =~= Seq::<u64>::empty());
                assert(blocks_pairs(inputs@) =~= blocks_pairs(gather_blocks(
                    dir0, idsv.take(0), sf)));
            }
            while t3 < ni
                invariant
                    t3 <= ni,
                    ni == idsv.len(),
                    ids@ == idsv,
                    dir0 == self.durable.files@,
                    fa0 == files_assoc(dir0),
                    self.wf(),
                    sf == keys@[ki as int],
                    ki < keys@.len(),
                    forall|j: int| 0 <= j < inputs@.len() ==> (#[trigger] inputs@[j]).wf(),
                    blocks_pairs(inputs@) == blocks_pairs(gather_blocks(
                        dir0, idsv.take(t3 as int), sf)),
                decreases ni - t3,
            {
                let ghost prefix = idsv.take(t3 as int);
                proof {
                    assert(idsv.take(t3 + 1).drop_last() =~= prefix);
                    assert(idsv.take(t3 + 1).last() == idsv[t3 as int]);
                    assert(gather_blocks(dir0, idsv.take(t3 + 1), sf)
                        == gather_blocks(dir0, prefix, sf) + file_contrib(
                        dir0, idsv[t3 as int], sf));
                    lemma_blocks_pairs_concat(
                        gather_blocks(dir0, prefix, sf),
                        file_contrib(dir0, idsv[t3 as int], sf),
                    );
                }
                let id = ids[t3];
                match Self::find_file(&self.durable.files, id) {
                    Some(fi) => {
                        proof {
                            assert(fa0[fi as int].0 == id);
                            lemma_assoc_get_present(fa0, id, fi as int);
                            assert(dir0[fi as int].wf());
                        }
                        match self.durable.files[fi].find_block(sf) {
                            Some(block) => {
                                let copy = block.duplicate();
                                let ghost inputs_before = inputs@;
                                inputs.push(copy);
                                proof {
                                    assert(id == idsv[t3 as int]);
                                    assert(assoc_get(fa0, idsv[t3 as int])
                                        == Some(dir0[fi as int]));
                                    assert(self.durable.files@[fi as int] == dir0[fi as int]);
                                    assert(assoc_get(dir0[fi as int].blocks@, sf)
                                        == Some(*block));
                                    assert(file_contrib(dir0, idsv[t3 as int], sf)
                                        =~= seq![*block]);
                                    assert(seq![*block].drop_first()
                                        =~= Seq::<DataBlock>::empty());
                                    assert(blocks_pairs(Seq::<DataBlock>::empty())
                                        == Seq::<(i64, u64)>::empty());
                                    assert(blocks_pairs(seq![*block]) =~= block.pairs());
                                    assert(inputs@ =~= inputs_before + seq![copy]);
                                    lemma_blocks_pairs_concat(inputs_before, seq![copy]);
                                    assert(seq![copy].drop_first()
                                        =~= Seq::<DataBlock>::empty());
                                    assert(blocks_pairs(seq![copy]) =~= copy.pairs());
                                    assert(blocks_pairs(inputs@) =~= blocks_pairs(
                                        gather_blocks(dir0, idsv.take(t3 + 1), sf)));
                                }
                            },
                            None => {
                                proof {
                                    assert(file_contrib(dir0, idsv[t3 as int], sf)
                                        =~= Seq::<DataBlock>::empty());
                                    assert(blocks_pairs(inputs@) =~= blocks_pairs(
                                        gather_blocks(dir0, idsv.take(t3 + 1), sf)));
                                }
                            },
                        }
                    },
                    None => {
                        proof {
                            assert(!has_key(fa0, idsv[t3 as int])) by {
                                if has_key(fa0, idsv[t3 as int]) {
                                    let j = choose|j: int|
                                        0 <= j < fa0.len() && fa0[j].0 == idsv[t3 as int];
                                    assert(dir0[j].meta.file_id == idsv[t3 as int]);
                                }
                            }
                            lemma_assoc_get_absent(fa0, idsv[t3 as int]);
                            assert(file_contrib(dir0, idsv[t3 as int], sf)
                                =~= Seq::<DataBlock>::empty());
                            assert(blocks_pairs(inputs@) =~= blocks_pairs(gather_blocks(
                                dir0, idsv.take(t3 + 1), sf)));
                        }
                    },
                }
                t3 = t3 + 1;
            }
            proof {
                assert(idsv.take(ni as int) =~= idsv);
            }
            let merged = compact_blocks(&inputs, tombstones, sf.field_id, 0);
            proof {
                assert(merged.pairs() == merged_pairs(
                    dir0, idsv, sf, tombstones.spec_entries()));
            }
            bloom.insert(sf.field_id);
            blocks_out.push((sf, merged));
            ki = ki + 1;
        }

        // Publish: file durable first, summary next, version last.
        let mut min_ts: i64 = i64::MAX;
        let mut max_ts: i64 = i64::MIN;
        let mut fsize: u64 = 0;
        let nbo = blocks_out.len();
        let mut bi: usize = 0;
        while bi < nbo
            invariant
                bi <= nbo,
                nbo == blocks_out@.len(),
                forall|j: int| 0 <= j < nbo ==> (#[trigger] blocks_out@[j]).1.wf(),
            decreases nbo - bi,
        {
            match blocks_out[bi].1.time_range() {
                Some(tr) => {
                    if tr.min_ts < min_ts {
                        min_ts = tr.min_ts;
                    }
                    if tr.max_ts > max_ts {
                        max_ts = tr.max_ts;
                    }
                },
                None => {},
            }
            let c = blocks_out[bi].1.len();
            if c as u64 <= 0xffff_ffff {
                let bytes: u64 = 16 * (c as u64);
                if fsize <= u64::MAX - bytes {
                    fsize = fsize + bytes;
                }
            }
            bi = bi + 1;
        }
        let file_id = self.durable.summary.new_file_id();
        let seq_no = self.version.last_seq();
        let meta = CompactMeta {
            file_id,
            file_size: fsize,
            tsf_id: self.durable.tf_id,
            level: 1,
            min_ts,
            max_ts,
        };
        let file = TsmFile { meta, bloom, blocks: blocks_out };
        proof {
            assert(file.wf()) by {
                assert(unique_keys(file_blocks_view(file))) by {
                    assert forall|a: int, b: int|
                        0 <= a < b < file_blocks_view(file).len() implies (
                    #[trigger] file_blocks_view(file)[a]).0 != (#[trigger] file_blocks_view(
                        file)[b]).0 by {
                        assert(file_blocks_view(file)[a].0 == keys@[a]);
                        assert(file_blocks_view(file)[b].0 == keys@[b]);
                    }
                }
                assert(forall|j: int|
                    0 <= j < file.blocks@.len() ==> (#[trigger] file.blocks@[j]).1.wf()
                        && file.bloom.spec_contains(file.blocks@[j].0.field_id));
            }
        }
        let ghost old_edits = self.durable.summary.spec_edits();
        let mut add_a: Vec<CompactMeta> = Vec::new();
        add_a.push(meta);
        let edit_a = VersionEdit {
            add_files: add_a,
            del_file_ids: dels,
            max_level: 1,
            seq_no,
            tsf_id: self.durable.tf_id,
        };
        let mut add_b: Vec<CompactMeta> = Vec::new();
        add_b.push(meta);
        let mut dels_b: Vec<u64> = Vec::new();
        let ndl = edit_a.del_file_ids.len();
        let mut di: usize = 0;
        while di < ndl
            invariant
                di <= ndl,
                ndl == edit_a.del_file_ids@.len(),
                dels_b@ == edit_a.del_file_ids@.subrange(0, di as int),
            decreases ndl - di,
        {
            dels_b.push(edit_a.del_file_ids[di]);
            proof {
                assert(dels_b@ =~= edit_a.del_file_ids@.subrange(0, di + 1));
            }
            di = di + 1;
        }
        proof {
            assert(edit_a.del_file_ids@.subrange(0, ndl as int) =~= edit_a.del_file_ids@);
        }
        let edit_b = VersionEdit {
            add_files: add_b,
            del_file_ids: dels_b,
            max_level: 1,
            seq_no,
            tsf_id: self.durable.tf_id,
        };
        let ghost e = edit_a;
        proof {
            assert(edit_a.add_files@ =~= seq![meta]);
            assert(edit_b.add_files@ =~= edit_a.add_files@);
            assert(edit_b.del_file_ids@ =~= edit_a.del_file_ids@);
            assert(e.del_file_ids@ == level0_ids(old_files));
            // removed IDs are old version file IDs, so below the allocator
            crate::assoc::lemma_filter_members(
                old_files,
                |m: CompactMeta| m.level == 0,
            );
            assert forall|r: int| 0 <= r < e.del_file_ids@.len() implies (
            #[trigger] e.del_file_ids@[r]) < old(self).durable.summary.spec_next_file_id() by {
                let fm = old_files.filter(|m: CompactMeta| m.level == 0)[r];
                assert(e.del_file_ids@[r] == fm.file_id);
                assert(old_files.contains(fm));
                let k = choose|k: int| 0 <= k < old_files.len() && old_files[k] == fm;
                assert(old(self).version.files@[k].file_id < old(
                    self).durable.summary.spec_next_file_id());
            }
        }
        self.durable.summary.append_edit(edit_a);
        proof {
            lemma_replay_push(Seq::empty(), 0, old_edits, e);
        }
        self.version.apply_edit(&edit_b);
        proof {
            assert(crate::version::apply_edit_spec(old_files, edit_b)
                == crate::version::apply_edit_spec(old_files, e)) by {
                assert(edit_b.del_file_ids@ =~= e.del_file_ids@);
            }
        }
        self.durable.files.push(file);
        proof {
            assert(files_assoc(self.durable.files@) =~= fa0.push((file_id, file)));
            assert(!has_key(fa0, file_id)) by {
                if has_key(fa0, file_id) {
                    let j = choose|j: int| 0 <= j < fa0.len() && fa0[j].0 == file_id;
                    assert(dir0[j].meta.file_id == file_id);
                }
            }
            lemma_assoc_insert(fa0, file_id, file);
            let kept = old_files.filter(
                |m: CompactMeta| !crate::version::id_in(e.del_file_ids@, m.file_id));
            crate::assoc::lemma_filter_members(
                old_files,
                |m: CompactMeta| !crate::version::id_in(e.del_file_ids@, m.file_id),
            );
            assert forall|i2: int| 0 <= i2 < self.version.files@.len() implies has_key(
                files_assoc(self.durable.files@),
                (#[trigger] self.version.files@[i2]).file_id,
            ) && self.version.files@[i2].file_id < self.durable.summary.spec_next_file_id() by {
                if i2 < self.version.files@.len() - 1 {
                    assert(self.version.files@[i2] == kept[i2]);
                    assert(old_files.contains(kept[i2]));
                    let k = choose|k: int|
                        0 <= k < old_files.len() && old_files[k] == kept[i2];
                    assert(old(self).version.files@[k].file_id < old(
                        self).durable.summary.spec_next_file_id());
                    assert(has_key(fa0, kept[i2].file_id));
                    let j = choose|j: int|
                        0 <= j < fa0.len() && fa0[j].0 == kept[i2].file_id;
                    assert(files_assoc(self.durable.files@)[j].0 == kept[i2].file_id);
                } else {
                    assert(self.version.files@[i2] == meta);
                    let last = files_assoc(self.durable.files@).len() - 1;
                    assert(files_assoc(self.durable.files@)[last].0 == file_id);
                }
            }
            assert forall|sf: SeriesField|
                #[trigger] assoc_get(file_blocks_view(file), sf) == if gather_blocks(
                dir0, level0_ids(old_files), sf).len() > 0 {
                Some(merged_pairs(dir0, level0_ids(old_files), sf, tombstones.spec_entries()))
            } else {
                None::<Seq<(i64, u64)>>
            } by {
                assert(forall|j: int|
                    0 <= j < file_blocks_view(file).len() ==> (#[trigger] file_blocks_view(
                    file)[j]) == (keys@[j], file.blocks@[j].1.pairs()));
                if keys@.contains(sf) {
                    let j = choose|j: int| 0 <= j < keys@.len() && keys@[j] == sf;
                    assert(file_blocks_view(file)[j].0 == sf);
                    lemma_assoc_get_present(file_blocks_view(file), sf, j);
                    assert(file_blocks_view(file)[j].1 == merged_pairs(
                        dir0, idsv, sf, tombstones.spec_entries()));
                } else {
                    assert(!has_key(file_blocks_view(file), sf)) by {
                        if has_key(file_blocks_view(file), sf) {
                            let j = choose|j: int|
                                0 <= j < file_blocks_view(file).len() && file_blocks_view(
                                    file)[j].0 == sf;
                            assert(keys@[j] == sf);
                            assert(keys@.contains(sf));
                        }
                    }
                    lemma_assoc_get_absent(file_blocks_view(file), sf);
                }
            }
        }
    }

    /// Rebuilds a vnode from its durable state: the version is replayed
    /// from the summary, orphan files absent from the replayed version are
    /// reclaimed, and the memcache is rebuilt by re-applying, in order, the
    /// log records above the version's `last_seq` — idempotent because
    /// cache insertion is last-writer-wins.
    pub fn recover(d: VnodeDurable) -> (r: VnodeStorage)
        requires
            d.wf(),
        ensures
            r.wf(),
            r.durable.tf_id == d.tf_id,
            r.durable.wal == d.wal,
            r.durable.summary == d.summary,
            r.version.files@ == replay_files(Seq::empty(), d.summary.spec_edits()),
            r.version.last_seq == replay_seq(0, d.summary.spec_edits()),
            mc_map(r.mc) == fold_points(
                Map::empty(),
                replay_points(d.wal.spec_records(), r.version.last_seq),
            ),
            forall|i: int|
                0 <= i < r.version.files@.len() ==> assoc_get(
                    files_assoc(r.durable.files@),
                    (#[trigger] r.version.files@[i]).file_id,
                ) == assoc_get(files_assoc(d.files@), r.version.files@[i].file_id),
            forall|i: int|
                0 <= i < r.durable.files@.len() ==> r.version.references_spec(
                    (#[trigger] r.durable.files@[i]).meta.file_id,
                ),
    {
        let version = d.summary.replay(d.tf_id);
        let points = d.wal.tail_after(version.last_seq());
        let mut mc = Memcache::new(d.wal.next_seq() - 1);
        proof {
            assert(mc_map(mc) =~= Map::<SeriesField, Seq<(i64, u64)>>::empty());
        }
        Self::apply_points(&mut mc, &points);
        let ghost orig = d.files@;
        let ghost old_fa = files_assoc(orig);
        proof {
            assert(forall|j: int|
                0 <= j < old_fa.len() ==> old_fa[j] == ((#[trigger] orig[j]).meta.file_id,
                orig[j]));
        }
        let mut rest = d.files;
        let mut kept: Vec<TsmFile> = Vec::new();
        let ghost i: int = 0;
        proof {
            assert(rest@ =~= orig.skip(0));
        }
        loop
            invariant
                0 <= i <= orig.len(),
                rest@ == orig.skip(i),
                old_fa == files_assoc(orig),
                unique_keys(old_fa),
                forall|j: int| 0 <= j < orig.len() ==> (#[trigger] orig[j]).wf(),
                forall|j: int|
                    0 <= j < orig.len() ==> (#[trigger] orig[j]).meta.file_id
                        < d.summary.spec_next_file_id(),
                unique_keys(files_assoc(kept@)),
                forall|j: int|
                    0 <= j < kept@.len() ==> (#[trigger] kept@[j]).wf()
                        && kept@[j].meta.file_id < d.summary.spec_next_file_id(),
                forall|j: int| 0 <= j < kept@.len() ==> exists|q: int|
                    0 <= q < i && (#[trigger] kept@[j]) == orig[q],
                forall|j: int|
                    0 <= j < kept@.len() ==> version.references_spec(
                        (#[trigger] kept@[j]).meta.file_id),
                forall|f: u64|
                    has_key(files_assoc(kept@), f) ==> #[trigger] assoc_get(
                        files_assoc(kept@), f) == assoc_get(old_fa, f),
                forall|q: int|
                    0 <= q < i && version.references_spec((#[trigger] orig[q]).meta.file_id)
                        ==> has_key(files_assoc(kept@), orig[q].meta.file_id),
            ensures
                forall|j: int|
                    0 <= j < kept@.len() ==> version.references_spec(
                        (#[trigger] kept@[j]).meta.file_id),
                unique_keys(files_assoc(kept@)),
                forall|j: int|
                    0 <= j < kept@.len() ==> (#[trigger] kept@[j]).wf()
                        && kept@[j].meta.file_id < d.summary.spec_next_file_id(),
                forall|f: u64|
                    has_key(files_assoc(kept@), f) ==> #[trigger] assoc_get(
                        files_assoc(kept@), f) == assoc_get(old_fa, f),
                forall|q: int|
                    0 <= q < orig.len() && version.references_spec(
                        (#[trigger] orig[q]).meta.file_id) ==> has_key(
                        files_assoc(kept@), orig[q].meta.file_id),
            decreases rest@.len(),
        {
            if rest.len() == 0 {
                proof {
                    assert(i == orig.len());
                }
                break;
            }
            proof {
                assert(rest@[0] == orig[i]);
                assert(rest@.drop_first() =~= orig.skip(i + 1));
            }
            let f = rest.remove(0);
            let meta_id = f.meta.file_id;
            assert(f == orig[i]);
            if version.references(meta_id) {
                let ghost kept_fa = files_assoc(kept@);
                proof {
                    assert(!has_key(kept_fa, meta_id)) by {
                        if has_key(kept_fa, meta_id) {
                            let j = choose|j: int|
                                0 <= j < kept_fa.len() && kept_fa[j].0 == meta_id;
                            assert(kept@[j].meta.file_id == meta_id);
                            let q = choose|q: int| 0 <= q < i && kept@[j] == orig[q];
                            assert(old_fa[q].0 == meta_id);
                            assert(old_fa[i].0 == meta_id);
                        }
                    }
                    lemma_assoc_insert(kept_fa, meta_id, orig[i]);
                    assert(old_fa[i].0 == meta_id);
                    lemma_assoc_get_present(old_fa, meta_id, i);
                }
                let ghost kept_before = kept@;
                kept.push(f);
                proof {
                    assert(files_assoc(kept@) =~= kept_fa.push((meta_id, orig[i])));
                    assert(kept@[kept@.len() - 1] == orig[i]);
                    assert(orig[i].wf() && orig[i].meta.file_id < d.summary.spec_next_file_id());
                    assert forall|j: int| 0 <= j < kept@.len() implies exists|q: int|
                        0 <= q < i + 1 && (#[trigger] kept@[j]) == orig[q] by {
                        if j < kept@.len() - 1 {
                            assert(kept@[j] == kept_before[j]);
                            let q = choose|q: int| 0 <= q < i && kept_before[j] == orig[q];
                            assert(kept@[j] == orig[q]);
                        } else {
                            assert(kept@[j] == orig[i]);
                        }
                    }
                    assert forall|f2: u64| has_key(files_assoc(kept@), f2)
                        implies #[trigger] assoc_get(files_assoc(kept@), f2)
                            == assoc_get(old_fa, f2) by {
                        if f2 == meta_id {
                        } else {
                            assert(assoc_get(files_assoc(kept@), f2) == assoc_get(kept_fa, f2));
                            assert(has_key(kept_fa, f2)) by {
                                let j = choose|j: int|
                                    0 <= j < files_assoc(kept@).len() && files_assoc(
                                        kept@)[j].0 == f2;
                                assert(j < files_assoc(kept@).len() - 1);
                                assert(files_assoc(kept@)[j] == kept_fa[j]);
                            }
                        }
                    }
                    assert forall|q: int|
                        0 <= q < i + 1 && version.references_spec(
                            (#[trigger] orig[q]).meta.file_id) implies has_key(
                        files_assoc(kept@), orig[q].meta.file_id) by {
                        if q < i {
                            assert(has_key(kept_fa, orig[q].meta.file_id));
                            let j = choose|j: int|
                                0 <= j < kept_fa.len() && kept_fa[j].0 == orig[q].meta.file_id;
                            assert(files_assoc(kept@)[j].0 == orig[q].meta.file_id);
                        } else {
                            assert(files_assoc(kept@)[files_assoc(kept@).len() - 1].0
                                == meta_id);
                        }
                    }
                }
            } else {
                proof {
                    assert(!version.references_spec(meta_id));
                }
            }
            proof {
                i = i + 1;
            }
        }
        let r = VnodeStorage {
            durable: VnodeDurable { tf_id: d.tf_id, wal: d.wal, files: kept, summary: d.summary },
            mc,
            version,
        };
        proof {
            assert forall|i2: int| 0 <= i2 < r.version.files@.len() implies assoc_get(
                files_assoc(r.durable.files@),
                (#[trigger] r.version.files@[i2]).file_id,
            ) == assoc_get(files_assoc(d.files@), r.version.files@[i2].file_id) by {
                let fid = r.version.files@[i2].file_id;
                assert(has_key(old_fa, fid));
                let q = choose|q: int| 0 <= q < old_fa.len() && old_fa[q].0 == fid;
                assert(orig[q].meta.file_id == fid);
                assert(version.references_spec(fid)) by {
                    assert(version.files@[i2].file_id == fid);
                }
                assert(has_key(files_assoc(kept@), fid));
            }
        }
        r
    }
}


/// The big-endian byte encoding of a run of points, the content a digest
/// covers.
pub open spec fn pairs_bytes(ps: Seq<(i64, u64)>) -> Seq<u8>
    decreases ps.len(),
{
    if ps.len() == 0 {
        Seq::empty()
    } else {
        crate::codec::i64_be(ps[0].0) + crate::codec::u64_be(ps[0].1) + pairs_bytes(
            ps.drop_first(),
        )
    }
}

/// The digest of one run: the checksum of its encoded points. Equal run
/// contents give equal digests on every replica, which is what the
/// integrity check compares.
pub open spec fn run_digest(ps: Seq<(i64, u64)>) -> u32 {
    crate::codec::crc32_of(pairs_bytes(ps))
}

/// The IDs of a file list's level-0 files, in publication order: the
/// inputs one compaction merges.
pub open spec fn level0_ids(metas: Seq<CompactMeta>) -> Seq<u64> {
    metas.filter(|m: CompactMeta| m.level == 0).map_values(|m: CompactMeta| m.file_id)
}

/// Appending a file extends the level-0 IDs exactly when it is level 0.
pub proof fn lemma_level0_ids_push(s: Seq<CompactMeta>, m: CompactMeta)
    ensures
        level0_ids(s.push(m)) == if m.level == 0 {
            level0_ids(s).push(m.file_id)
        } else {
            level0_ids(s)
        },
{
    reveal(Seq::filter);
    let pred = |x: CompactMeta| x.level == 0;
    assert(s.push(m).drop_last() =~= s);
    assert(s.push(m).last() == m);
    if m.level == 0 {
        assert(s.push(m).filter(pred) == s.filter(pred).push(m));
        assert(level0_ids(s.push(m)) =~= level0_ids(s).push(m.file_id));
    } else {
        assert(s.push(m).filter(pred) == s.filter(pred));
        assert(level0_ids(s.push(m)) =~= level0_ids(s));
    }
}

/// What one input file contributes to a field's merge: its block for the
/// field, if the directory holds the file and the file holds a block.
pub open spec fn file_contrib(dir: Seq<TsmFile>, id: u64, sf: SeriesField) -> Seq<DataBlock> {
    match assoc_get(files_assoc(dir), id) {
        Some(f) => match assoc_get(f.blocks@, sf) {
            Some(b) => seq![b],
            None => Seq::empty(),
        },
        None => Seq::empty(),
    }
}

/// The blocks of one field across the input files, oldest file first.
pub open spec fn gather_blocks(dir: Seq<TsmFile>, ids: Seq<u64>, sf: SeriesField) -> Seq<
    DataBlock,
>
    decreases ids.len(),
{
    if ids.len() == 0 {
        Seq::empty()
    } else {
        gather_blocks(dir, ids.drop_last(), sf) + file_contrib(dir, ids.last(), sf)
    }
}

/// What a compaction writes for one field: the inputs' points merged
/// newest-file-wins, with every tombstone-covered point excised.
pub open spec fn merged_pairs(
    dir: Seq<TsmFile>,
    ids: Seq<u64>,
    sf: SeriesField,
    es: Seq<Tombstone>,
) -> Seq<(i64, u64)> {
    fold_run(Seq::empty(), blocks_pairs(gather_blocks(dir, ids, sf))).filter(
        |p: (i64, u64)| !spec_covered(es, sf.field_id, p.0),
    )
}

/// The digests of every block of a directory of column files, file order.
pub open spec fn file_digests(files: Seq<TsmFile>) -> Seq<(SeriesField, u32)>
    decreases files.len(),
{
    if files.len() == 0 {
        Seq::empty()
    } else {
        files[0].blocks@.map_values(
            |e: (SeriesField, crate::tsm::DataBlock)| (e.0, run_digest(e.1.pairs())),
        ) + file_digests(files.drop_first())
    }
}

impl VnodeStorage {
    /// Serializes this vnode's version for a physical copy: one aggregate
    /// edit carrying the live files and the flushed sequence.
    pub fn get_vnode_summary(&self) -> (r: VersionEdit)
        requires
            self.wf(),
        ensures
            r.add_files@ == self.version.files@,
            r.del_file_ids@ == Seq::<u64>::empty(),
            r.seq_no == self.version.last_seq,
            r.tsf_id == self.durable.tf_id,
    {
        let nf = self.version.files.len();
        let mut add_files: Vec<CompactMeta> = Vec::new();
        let mut q: usize = 0;
        while q < nf
            invariant
                q <= nf,
                nf == self.version.files@.len(),
                add_files@ == self.version.files@.subrange(0, q as int),
            decreases nf - q,
        {
            add_files.push(self.version.files[q]);
            proof {
                assert(add_files@ =~= self.version.files@.subrange(0, q + 1));
            }
            q = q + 1;
        }
        proof {
            assert(self.version.files@.subrange(0, nf as int) =~= self.version.files@);
        }
        VersionEdit {
            add_files,
            del_file_ids: Vec::new(),
            max_level: 0,
            seq_no: self.version.last_seq(),
            tsf_id: self.durable.tf_id,
        }
    }

    /// Builds a vnode from a summary received for a physical copy, together
    /// with the fetched column files the summary references. The write-ahead
    /// log starts fresh right above the summary's sequence.
    pub fn apply_vnode_summary(tf_id: u32, edit: VersionEdit, files: Vec<TsmFile>) -> (r:
        VnodeStorage)
        requires
            edit.del_file_ids@.len() == 0,
            edit.seq_no < u64::MAX,
            edit.tsf_id == tf_id,
            unique_keys(files_assoc(files@)),
            forall|i: int| 0 <= i < files@.len() ==> (#[trigger] files@[i]).wf(),
            forall|i: int|
                0 <= i < files@.len() ==> (#[trigger] files@[i]).meta.file_id < u64::MAX,
            forall|a: int|
                0 <= a < edit.add_files@.len() ==> (#[trigger] edit.add_files@[a]).file_id
                    < u64::MAX,
            forall|a: int|
                0 <= a < edit.add_files@.len() ==> has_key(
                    files_assoc(files@),
                    (#[trigger] edit.add_files@[a]).file_id,
                ),
        ensures
            r.wf(),
            r.durable.tf_id == tf_id,
            r.version.files@ == edit.add_files@,
            r.version.last_seq == edit.seq_no,
            forall|sf: SeriesField, ts: i64| r.mc.spec_get(sf, ts) == None::<u64>,
    {
        let seq_no = edit.seq_no;
        let mut max_id: u64 = 0;
        let na = edit.add_files.len();
        let mut a: usize = 0;
        while a < na
            invariant
                a <= na,
                na == edit.add_files@.len(),
                max_id < u64::MAX,
                forall|k: int|
                    0 <= k < na ==> (#[trigger] edit.add_files@[k]).file_id < u64::MAX,
                forall|k: int|
                    0 <= k < a ==> (#[trigger] edit.add_files@[k]).file_id <= max_id,
            decreases na - a,
        {
            if edit.add_files[a].file_id > max_id {
                max_id = edit.add_files[a].file_id;
            }
            a = a + 1;
        }
        let nd = files.len();
        let mut d: usize = 0;
        while d < nd
            invariant
                d <= nd,
                nd == files@.len(),
                max_id < u64::MAX,
                forall|k: int| 0 <= k < nd ==> (#[trigger] files@[k]).meta.file_id < u64::MAX,
                forall|k: int|
                    0 <= k < na ==> (#[trigger] edit.add_files@[k]).file_id <= max_id,
                forall|k: int| 0 <= k < d ==> (#[trigger] files@[k]).meta.file_id <= max_id,
                na == edit.add_files@.len(),
            decreases nd - d,
        {
            if files[d].meta.file_id > max_id {
                max_id = files[d].meta.file_id;
            }
            d = d + 1;
        }
        let mut summary = Summary::new(max_id + 1);
        let ghost e = edit;
        summary.append_edit(edit);
        proof {
            lemma_replay_push(Seq::empty(), 0u64, Seq::<VersionEdit>::empty(), e);
            assert(replay_files(Seq::empty(), Seq::<VersionEdit>::empty())
                == Seq::<CompactMeta>::empty());
            assert(replay_seq(0u64, Seq::<VersionEdit>::empty()) == 0u64);
            assert(Seq::<CompactMeta>::empty().filter(
                |m: CompactMeta| !crate::version::id_in(e.del_file_ids@, m.file_id))
                =~= Seq::<CompactMeta>::empty()) by {
                crate::version::lemma_filter_keeps_all(Seq::empty(), e.del_file_ids@);
            }
            assert(crate::version::apply_edit_spec(Seq::empty(), e) =~= e.add_files@);
            assert(summary.spec_edits() =~= Seq::<VersionEdit>::empty().push(e));
        }
        let durable = VnodeDurable { tf_id, wal: Wal::new(seq_no + 1), files, summary };
        proof {
            assert(durable.wf()) by {
                assert(replay_seq(0, durable.summary.spec_edits()) == e.seq_no);
                assert(replay_files(Seq::empty(), durable.summary.spec_edits())
                    == e.add_files@);
            }
        }
        let r = Self::recover(durable);
        proof {
            assert(replay_points(r.durable.wal.spec_records(), r.version.last_seq)
                =~= Seq::<Point>::empty());
            assert forall|sf: SeriesField, ts: i64| r.mc.spec_get(sf, ts)
                == None::<u64> by {
                assert(mc_map(r.mc) =~= Map::<SeriesField, Seq<(i64, u64)>>::empty());
                assert(!mc_map(r.mc).dom().contains(sf));
            }
        }
        r
    }

    /// The integrity digest of this vnode: for each (series, field) of the
    /// memcache and then of every block of every durable column file, the
    /// checksum of its sorted points. Replicas holding the same points in
    /// cache and files produce the same digests.
    pub fn get_vnode_hash_tree(&self) -> (r: Vec<(SeriesField, u32)>)
        requires
            self.wf(),
        ensures
            r@ == self.mc.view_runs().map_values(
                |e: (SeriesField, Seq<(i64, u64)>)| (e.0, run_digest(e.1)),
            ) + file_digests(self.durable.files@),
    {
        let ghost rv = self.mc.view_runs();
        let n = self.mc.run_count();
        let mut out: Vec<(SeriesField, u32)> = Vec::new();
        let mut i: usize = 0;
        while i < n
            invariant
                i <= n,
                self.wf(),
                rv == self.mc.view_runs(),
                n == rv.len(),
                out@ == rv.subrange(0, i as int).map_values(
                    |e: (SeriesField, Seq<(i64, u64)>)| (e.0, run_digest(e.1)),
                ),
            decreases n - i,
        {
            let (sf, m) = self.mc.run_at(i);
            let ghost ps = rv[i as int].1;
            let mut bytes: Vec<u8> = Vec::new();
            let mut j: usize = 0;
            proof {
                assert(ps.skip(0) =~= ps);
                assert(pairs_bytes(ps.skip(0)) == pairs_bytes(ps));
            }
            while j < m
                invariant
                    j <= m,
                    i < rv.len(),
                    self.wf(),
                    rv == self.mc.view_runs(),
                    ps == rv[i as int].1,
                    m == ps.len(),
                    pairs_bytes(ps) == bytes@ + pairs_bytes(ps.skip(j as int)),
                decreases m - j,
            {
                let ghost tail = ps.skip(j as int);
                proof {
                    assert(tail[0] == ps[j as int]);
                    assert(tail.drop_first() =~= ps.skip(j + 1));
                }
                let p = self.mc.run_pair_at(i, j);
                crate::codec::put_i64_be(&mut bytes, p.0);
                crate::codec::put_u64_be(&mut bytes, p.1);
                proof {
                    assert(pairs_bytes(tail) == crate::codec::i64_be(tail[0].0)
                        + crate::codec::u64_be(tail[0].1) + pairs_bytes(ps.skip(j + 1)));
                    assert(pairs_bytes(ps) =~= bytes@ + pairs_bytes(ps.skip(j + 1)));
                }
                j = j + 1;
            }
            proof {
                assert(ps.skip(m as int) =~= Seq::<(i64, u64)>::empty());
                assert(bytes@ =~= bytes@ + pairs_bytes(ps.skip(m as int)));
            }
            let digest = crate::codec::crc32(bytes.as_slice());
            out.push((sf, digest));
            proof {
                assert(out@ =~= rv.subrange(0, i + 1).map_values(
                    |e: (SeriesField, Seq<(i64, u64)>)| (e.0, run_digest(e.1))));
            }
            i = i + 1;
        }
        proof {
            assert(rv.subrange(0, n as int) =~= rv);
        }
        let ghost mc_part = out@;
        let ghost dir = self.durable.files@;
        let nf = self.durable.files.len();
        let mut f: usize = 0;
        proof {
            assert(dir.skip(0) =~= dir);
        }
        while f < nf
            invariant
                f <= nf,
                nf == dir.len(),
                self.wf(),
                dir == self.durable.files@,
                mc_part + file_digests(dir) == out@ + file_digests(dir.skip(f as int)),
            decreases nf - f,
        {
            let ghost dtail = dir.skip(f as int);
            proof {
                assert(dtail[0] == dir[f as int]);
                assert(dtail.drop_first() =~= dir.skip(f + 1));
            }
            let ghost bv = dir[f as int].blocks@;
            let ghost out_before = out@;
            let nb = self.durable.files[f].blocks.len();
            let mut q: usize = 0;
            proof {
                assert(out@ =~= out_before + bv.subrange(0, 0).map_values(
                    |e: (SeriesField, crate::tsm::DataBlock)| (e.0, run_digest(e.1.pairs()))));
            }
            while q < nb
                invariant
                    q <= nb,
                    f < dir.len(),
                    self.wf(),
                    dir == self.durable.files@,
                    bv == dir[f as int].blocks@,
                    nb == bv.len(),
                    out@ == out_before + bv.subrange(0, q as int).map_values(
                        |e: (SeriesField, crate::tsm::DataBlock)| (e.0, run_digest(e.1.pairs())),
                    ),
                decreases nb - q,
            {
                let key = self.durable.files[f].blocks[q].0;
                let block = &self.durable.files[f].blocks[q].1;
                let ghost ps = bv[q as int].1.pairs();
                proof {
                    assert(dir[f as int].wf());
                    assert(bv[q as int].1.wf());
                    assert(ps.skip(0) =~= ps);
                }
                let m = block.len();
                let mut bytes: Vec<u8> = Vec::new();
                let mut j: usize = 0;
                while j < m
                    invariant
                        j <= m,
                        f < dir.len(),
                        q < bv.len(),
                        dir == self.durable.files@,
                        bv == dir[f as int].blocks@,
                        bv[q as int].1.wf(),
                        ps == bv[q as int].1.pairs(),
                        m == ps.len(),
                        block == &bv[q as int].1,
                        pairs_bytes(ps) == bytes@ + pairs_bytes(ps.skip(j as int)),
                    decreases m - j,
                {
                    let ghost ptail = ps.skip(j as int);
                    proof {
                        assert(ptail[0] == ps[j as int]);
                        assert(ptail.drop_first() =~= ps.skip(j + 1));
                    }
                    let p = block.pair_at(j);
                    crate::codec::put_i64_be(&mut bytes, p.0);
                    crate::codec::put_u64_be(&mut bytes, p.1);
                    proof {
                        assert(pairs_bytes(ptail) == crate::codec::i64_be(ptail[0].0)
                            + crate::codec::u64_be(ptail[0].1) + pairs_bytes(ps.skip(j + 1)));
                        assert(pairs_bytes(ps) =~= bytes@ + pairs_bytes(ps.skip(j + 1)));
                    }
                    j = j + 1;
                }
                proof {
                    assert(ps.skip(m as int) =~= Seq::<(i64, u64)>::empty());
                    assert(bytes@ =~= bytes@ + pairs_bytes(ps.skip(m as int)));
                }
                let digest = crate::codec::crc32(bytes.as_slice());
                out.push((key, digest));
                proof {
                    assert(key == bv[q as int].0);
                    assert(out@ =~= out_before + bv.subrange(0, q + 1).map_values(
                        |e: (SeriesField, crate::tsm::DataBlock)| (e.0, run_digest(
                            e.1.pairs()))));
                }
                q = q + 1;
            }
            proof {
                assert(bv.subrange(0, nb as int) =~= bv);
                assert(file_digests(dtail) == bv.map_values(
                    |e: (SeriesField, crate::tsm::DataBlock)| (e.0, run_digest(e.1.pairs())),
                ) + file_digests(dir.skip(f + 1)));
                assert(out@ + file_digests(dir.skip(f + 1)) =~= out_before + file_digests(
                    dtail));
            }
            f = f + 1;
        }
        proof {
            assert(dir.skip(nf as int) =~= Seq::<TsmFile>::empty());
            assert(file_digests(dir.skip(nf as int)) =~= Seq::<(SeriesField, u32)>::empty());
            assert(out@ =~= out@ + file_digests(dir.skip(nf as int)));
            assert(mc_part + file_digests(dir) =~= out@);
        }
        out
    }
}

/// Durability: recovery preserves every read and the version's sequence
/// floor. For a write acknowledged at sequence `s`, the controller
/// invariant puts its point in the memcache or a column file, both of
/// which the recovered state reproduces, and `last_seq` is reproduced
/// exactly, so the recovered `last_seq` together with the retained log
/// covers `s`.
pub proof fn lemma_durability(pre: VnodeStorage, post: VnodeStorage)
    requires
        pre.wf(),
        post.wf(),
        post.durable.wal.spec_records() == pre.durable.wal.spec_records(),
        post.durable.summary.spec_edits() == pre.durable.summary.spec_edits(),
        forall|i: int|
            0 <= i < post.version.files@.len() ==> assoc_get(
                files_assoc(post.durable.files@),
                (#[trigger] post.version.files@[i]).file_id,
            ) == assoc_get(files_assoc(pre.durable.files@), post.version.files@[i].file_id),
    ensures
        post.version.last_seq == pre.version.last_seq,
        post.version.files@ == pre.version.files@,
        forall|sf: SeriesField, ts: i64| post.spec_read(sf, ts) == pre.spec_read(sf, ts),
{
    assert(post.version.last_seq == pre.version.last_seq);
    assert(post.version.files@ == pre.version.files@);
    assert(mc_map(post.mc) == mc_map(pre.mc));
    assert forall|sf: SeriesField, ts: i64| post.spec_read(sf, ts) == pre.spec_read(sf, ts) by {
        assert(post.mc.spec_run(sf) == pre.mc.spec_run(sf)) by {
            if post.mc.spec_run(sf) is Some || pre.mc.spec_run(sf) is Some {
                assert(mc_map(post.mc).dom() =~= mc_map(pre.mc).dom());
                if mc_map(pre.mc).dom().contains(sf) {
                    assert(mc_map(pre.mc)[sf] == mc_map(post.mc)[sf]);
                }
            }
        }
        lemma_files_read_congruent(
            post.version.files@,
            post.durable.files@,
            pre.durable.files@,
            sf,
            ts,
        );
    }
}

} // verus!
