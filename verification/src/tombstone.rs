//! Tombstone sidecar of a column file.
//!
//! A tombstone file is a record file whose records carry 24-byte entries:
//! `field_id: u64 BE | min_ts: i64 BE | max_ts: i64 BE`. An entry logically
//! deletes every point of that field whose timestamp falls into the closed
//! range. Entries are additive and are never rewritten in place; the
//! in-memory map is rebuilt on open from whatever records survive checksum
//! validation, so a partial write hurts nothing but the entries it clipped.

use vstd::prelude::*;
use crate::bloom::BloomFilter;
use crate::codec::{
    RECORD_TYPE_TOMBSTONE, RECORD_VERSION_V1, be_i64, be_u64, encode_record, i64_be,
    lemma_i64_be_round_trip, lemma_scan_record_prepend, lemma_u64_be_round_trip, push_bytes,
    put_i64_be, put_u64_be, record_bytes, scan_records, spec_scan, u64_be,
};
use crate::tsm::DataBlock;
use crate::types::TimeRange;

verus! {

/// Bytes of one persisted tombstone entry.
pub const TOMBSTONE_ENTRY_LEN: usize = 24;

/// One logical deletion: every point of `field_id` with a timestamp inside
/// `time_range` is deleted.
#[derive(PartialEq, Eq, Structural, Clone, Copy, Debug)]
pub struct Tombstone {
    pub field_id: u64,
    pub time_range: TimeRange,
}

/// The 24-byte payload of one tombstone record.
pub open spec fn tombstone_payload(t: Tombstone) -> Seq<u8> {
    u64_be(t.field_id) + i64_be(t.time_range.min_ts) + i64_be(t.time_range.max_ts)
}

/// The tombstone a record payload carries in its first 24 bytes.
pub open spec fn payload_tombstone(p: Seq<u8>) -> Tombstone {
    Tombstone {
        field_id: be_u64(p.subrange(0, 8)),
        time_range: TimeRange {
            min_ts: be_i64(p.subrange(8, 16)),
            max_ts: be_i64(p.subrange(16, 24)),
        },
    }
}

/// Decoding the payload of a tombstone gives the tombstone back.
pub proof fn lemma_tombstone_payload_round_trip(t: Tombstone)
    ensures
        payload_tombstone(tombstone_payload(t)) == t,
{
    let p = tombstone_payload(t);
    assert(p.subrange(0, 8) =~= u64_be(t.field_id));
    assert(p.subrange(8, 16) =~= i64_be(t.time_range.min_ts));
    assert(p.subrange(16, 24) =~= i64_be(t.time_range.max_ts));
    lemma_u64_be_round_trip(t.field_id);
    lemma_i64_be_round_trip(t.time_range.min_ts);
    lemma_i64_be_round_trip(t.time_range.max_ts);
}

/// The tombstones read from a scanned record stream: one per record, in
/// order, stopping at the first record whose payload is shorter than an
/// entry.
pub open spec fn load_tombstones(recs: Seq<(u8, u8, Seq<u8>)>) -> Seq<Tombstone>
    decreases recs.len(),
{
    if recs.len() == 0 {
        Seq::empty()
    } else if recs[0].2.len() < TOMBSTONE_ENTRY_LEN {
        Seq::empty()
    } else {
        seq![payload_tombstone(recs[0].2)] + load_tombstones(recs.drop_first())
    }
}

/// The record-file encoding of a run of tombstones, one record each.
pub open spec fn encode_tombstones(ts: Seq<Tombstone>) -> Seq<u8>
    decreases ts.len(),
{
    if ts.len() == 0 {
        Seq::empty()
    } else {
        record_bytes(RECORD_VERSION_V1, RECORD_TYPE_TOMBSTONE, tombstone_payload(ts[0]))
            + encode_tombstones(ts.drop_first())
    }
}

/// Reading an encoded run of tombstones followed by anything yields the run
/// followed by whatever the rest yields: persisted tombstones survive a
/// close and reopen.
pub proof fn lemma_tombstones_round_trip(ts: Seq<Tombstone>, rest: Seq<u8>)
    ensures
        load_tombstones(spec_scan(encode_tombstones(ts) + rest))
            == ts + load_tombstones(spec_scan(rest)),
    decreases ts.len(),
{
    if ts.len() == 0 {
        assert(encode_tombstones(ts) + rest =~= rest);
        assert(ts + load_tombstones(spec_scan(rest)) =~= load_tombstones(spec_scan(rest)));
    } else {
        let t = ts[0];
        let tail = ts.drop_first();
        let payload = tombstone_payload(t);
        assert(payload.len() == 24);
        assert(encode_tombstones(ts) + rest
            =~= record_bytes(RECORD_VERSION_V1, RECORD_TYPE_TOMBSTONE, payload)
                + (encode_tombstones(tail) + rest));
        lemma_scan_record_prepend(
            RECORD_VERSION_V1,
            RECORD_TYPE_TOMBSTONE,
            payload,
            encode_tombstones(tail) + rest,
        );
        lemma_tombstones_round_trip(tail, rest);
        let recs = spec_scan(encode_tombstones(ts) + rest);
        assert(recs[0] == (RECORD_VERSION_V1, RECORD_TYPE_TOMBSTONE, payload));
        assert(recs.drop_first() =~= spec_scan(encode_tombstones(tail) + rest));
        lemma_tombstone_payload_round_trip(t);
        assert(load_tombstones(recs) =~= ts + load_tombstones(spec_scan(rest)));
    }
}

/// Whether the bloom filter of the owning column file keeps a field ID:
/// with no filter every field ID is kept.
pub open spec fn bloom_keeps(bloom: Option<BloomFilter>, f: u64) -> bool {
    match bloom {
        None => true,
        Some(b) => b.spec_contains(f),
    }
}

/// The tombstones one `add_range` call appends: one per field ID the bloom
/// filter keeps, in argument order, all with the same range.
pub open spec fn spec_added(
    field_ids: Seq<u64>,
    tr: TimeRange,
    bloom: Option<BloomFilter>,
) -> Seq<Tombstone>
    decreases field_ids.len(),
{
    if field_ids.len() == 0 {
        Seq::empty()
    } else {
        let rest = spec_added(field_ids.drop_first(), tr, bloom);
        if bloom_keeps(bloom, field_ids[0]) {
            seq![Tombstone { field_id: field_ids[0], time_range: tr }] + rest
        } else {
            rest
        }
    }
}

/// Whether some tombstone of `f` overlaps the queried range.
pub open spec fn spec_overlaps_any(es: Seq<Tombstone>, f: u64, tr: TimeRange) -> bool {
    exists|i: int|
        0 <= i < es.len() && es[i].field_id == f && es[i].time_range.spec_overlaps(tr)
}

/// Whether some tombstone of `f` covers the timestamp: the point is
/// logically deleted.
pub open spec fn spec_covered(es: Seq<Tombstone>, f: u64, ts: i64) -> bool {
    exists|i: int|
        0 <= i < es.len() && es[i].field_id == f && es[i].time_range.spec_contains_ts(ts)
}

/// The ranges of all tombstones of `f` that overlap the queried range, in
/// entry order.
pub open spec fn spec_overlapped(es: Seq<Tombstone>, f: u64, tr: TimeRange) -> Seq<TimeRange>
    decreases es.len(),
{
    if es.len() == 0 {
        Seq::empty()
    } else {
        let rest = spec_overlapped(es.drop_first(), f, tr);
        if es[0].field_id == f && es[0].time_range.spec_overlaps(tr) {
            seq![es[0].time_range] + rest
        } else {
            rest
        }
    }
}

/// The ranges of all tombstones of `f`, in entry order.
pub open spec fn spec_ranges_of(es: Seq<Tombstone>, f: u64) -> Seq<TimeRange>
    decreases es.len(),
{
    if es.len() == 0 {
        Seq::empty()
    } else {
        let rest = spec_ranges_of(es.drop_first(), f);
        if es[0].field_id == f {
            seq![es[0].time_range] + rest
        } else {
            rest
        }
    }
}

/// The tombstones of one column file: the in-memory map rebuilt from the
/// file, plus the encoded records written since the last durability
/// barrier.
pub struct TsmTombstone {
    entries: Vec<Tombstone>,
    pending: Vec<u8>,
}

impl TsmTombstone {
    /// All live tombstone entries, in record order.
    pub closed spec fn spec_entries(self) -> Seq<Tombstone> {
        self.entries@
    }

    /// The encoded records awaiting the next durability barrier.
    pub closed spec fn spec_pending(self) -> Seq<u8> {
        self.pending@
    }

    /// A store for a column file that has no tombstone file yet.
    pub fn new() -> (r: TsmTombstone)
        ensures
            r.spec_entries() == Seq::<Tombstone>::empty(),
            r.spec_pending() == Seq::<u8>::empty(),
    {
        TsmTombstone { entries: Vec::new(), pending: Vec::new() }
    }

    /// Rebuilds the store from the bytes of an existing tombstone file.
    /// Records that fail checksum validation are skipped; loading stops at
    /// the first surviving record too short to hold an entry.
    pub fn open(file: &Vec<u8>) -> (r: TsmTombstone)
        ensures
            r.spec_entries() == load_tombstones(spec_scan(file@)),
            r.spec_pending() == Seq::<u8>::empty(),
    {
        let recs = scan_records(file);
        let ghost rv = recs@.map_values(|e: crate::codec::RecordEntry| e@);
        let n = recs.len();
        let mut entries: Vec<Tombstone> = Vec::new();
        let mut i: usize = 0;
        proof {
            assert(rv.skip(0) =~= rv);
        }
        loop
            invariant
                i <= n,
                n == recs@.len(),
                rv == recs@.map_values(|e: crate::codec::RecordEntry| e@),
                load_tombstones(rv) == entries@ + load_tombstones(rv.skip(i as int)),
            ensures
                entries@ == load_tombstones(rv),
            decreases n - i,
        {
            if i >= n {
                assert(rv.skip(i as int) =~= Seq::empty());
                assert(entries@ =~= entries@ + load_tombstones(rv.skip(i as int)));
                break;
            }
            let ghost tail = rv.skip(i as int);
            assert(tail[0] == rv[i as int]);
            let payload = &recs[i].payload;
            assert(rv[i as int].2 == recs@[i as int].payload@);
            if payload.len() < TOMBSTONE_ENTRY_LEN {
                assert(load_tombstones(tail) =~= Seq::empty());
                assert(entries@ =~= entries@ + load_tombstones(tail));
                break;
            }
            let field_id = crate::codec::get_u64_be(payload, 0);
            let min_ts = crate::codec::get_i64_be(payload, 8);
            let max_ts = crate::codec::get_i64_be(payload, 16);
            let t = Tombstone { field_id, time_range: TimeRange { min_ts, max_ts } };
            proof {
                assert(payload@.subrange(0, 8) == tail[0].2.subrange(0, 8));
                assert(payload@.subrange(8, 16) == tail[0].2.subrange(8, 16));
                assert(payload@.subrange(16, 24) == tail[0].2.subrange(16, 24));
                assert(t == payload_tombstone(tail[0].2));
                assert(tail.drop_first() =~= rv.skip(i + 1));
                assert(load_tombstones(tail) == seq![t] + load_tombstones(rv.skip(i + 1)));
                assert(entries@ + load_tombstones(tail)
                    =~= (entries@ + seq![t]) + load_tombstones(rv.skip(i + 1)));
            }
            entries.push(t);
            i = i + 1;
        }
        TsmTombstone { entries, pending: Vec::new() }
    }

    /// Whether the store holds no entries.
    pub fn is_empty(&self) -> (r: bool)
        ensures
            r == (self.spec_entries().len() == 0),
    {
        self.entries.len() == 0
    }

    /// Records the deletion of `time_range` for each of `field_ids`.
    ///
    /// When the bloom filter of the owning column file is supplied, field
    /// IDs the filter rules out are skipped: the file holds no block for
    /// them, so there is nothing to delete. One record per kept field ID is
    /// appended to the pending bytes; a crash may persist a prefix of them,
    /// which readers tolerate because the map is rebuilt from whatever
    /// records survive.
    pub fn add_range(
        &mut self,
        field_ids: &Vec<u64>,
        time_range: &TimeRange,
        bloom_filter: Option<&BloomFilter>,
    )
        requires
            match bloom_filter {
                Some(b) => b.wf(),
                None => true,
            },
        ensures
            final(self).spec_entries() == old(self).spec_entries() + spec_added(
                field_ids@,
                *time_range,
                match bloom_filter {
                    Some(b) => Some(*b),
                    None => None,
                },
            ),
            final(self).spec_pending() == old(self).spec_pending() + encode_tombstones(
                spec_added(
                    field_ids@,
                    *time_range,
                    match bloom_filter {
                        Some(b) => Some(*b),
                        None => None,
                    },
                ),
            ),
    {
        let ghost bl: Option<BloomFilter> = match bloom_filter {
            Some(b) => Some(*b),
            None => None,
        };
        let n = field_ids.len();
        let mut i: usize = 0;
        proof {
            assert(field_ids@.skip(0) =~= field_ids@);
        }
        while i < n
            invariant
                i <= n,
                n == field_ids@.len(),
                match bloom_filter {
                    Some(b) => b.wf() && bl == Some(*b),
                    None => bl == None::<BloomFilter>,
                },
                old(self).spec_entries() + spec_added(field_ids@, *time_range, bl)
                    == self.entries@ + spec_added(field_ids@.skip(i as int), *time_range, bl),
                old(self).spec_pending() + encode_tombstones(
                    spec_added(field_ids@, *time_range, bl),
                ) == self.pending@ + encode_tombstones(
                    spec_added(field_ids@.skip(i as int), *time_range, bl),
                ),
            decreases n - i,
        {
            let ghost tail = field_ids@.skip(i as int);
            assert(tail[0] == field_ids@[i as int]);
            assert(tail.drop_first() =~= field_ids@.skip(i + 1));
            let f = field_ids[i];
            let keep = match bloom_filter {
                Some(filter) => filter.contains(f),
                None => true,
            };
            assert(keep == bloom_keeps(bl, f));
            if keep {
                let t = Tombstone { field_id: f, time_range: *time_range };
                let ghost added_tail = spec_added(tail, *time_range, bl);
                assert(added_tail == seq![t] + spec_added(field_ids@.skip(i + 1), *time_range, bl));
                let mut payload: Vec<u8> = Vec::new();
                put_u64_be(&mut payload, f);
                put_i64_be(&mut payload, time_range.min_ts);
                put_i64_be(&mut payload, time_range.max_ts);
                assert(payload@ =~= tombstone_payload(t));
                let record = encode_record(RECORD_VERSION_V1, RECORD_TYPE_TOMBSTONE, &payload);
                let rlen = record.len();
                push_bytes(&mut self.pending, &record, 0, rlen);
                assert(record@.subrange(0, rlen as int) =~= record@);
                self.entries.push(t);
                proof {
                    assert(encode_tombstones(added_tail) == record@ + encode_tombstones(
                        spec_added(field_ids@.skip(i + 1), *time_range, bl),
                    )) by {
                        assert(added_tail[0] == t);
                        assert(added_tail.drop_first() =~= spec_added(
                            field_ids@.skip(i + 1), *time_range, bl));
                    }
                    assert(self.entries@ + spec_added(field_ids@.skip(i + 1), *time_range, bl)
                        =~= old(self).spec_entries() + spec_added(field_ids@, *time_range, bl));
                    assert(self.pending@ + encode_tombstones(
                        spec_added(field_ids@.skip(i + 1), *time_range, bl))
                        =~= old(self).spec_pending() + encode_tombstones(
                            spec_added(field_ids@, *time_range, bl)));
                }
            } else {
                assert(spec_added(tail, *time_range, bl) == spec_added(
                    field_ids@.skip(i + 1), *time_range, bl));
            }
            i = i + 1;
        }
        proof {
            assert(field_ids@.skip(n as int) =~= Seq::<u64>::empty());
            assert(self.entries@ =~= self.entries@ + spec_added(
                field_ids@.skip(n as int), *time_range, bl));
            assert(encode_tombstones(spec_added(field_ids@.skip(n as int), *time_range, bl))
                =~= Seq::<u8>::empty());
            assert(self.pending@ =~= self.pending@ + encode_tombstones(
                spec_added(field_ids@.skip(n as int), *time_range, bl)));
        }
    }

    /// Hands out the records written since the last barrier, in write
    /// order, and forgets them. The caller must append them to the
    /// tombstone file and issue a filesystem durability barrier before
    /// reporting the deletions durable.
    pub fn flush(&mut self) -> (bytes: Vec<u8>)
        ensures
            bytes@ == old(self).spec_pending(),
            final(self).spec_pending() == Seq::<u8>::empty(),
            final(self).spec_entries() == old(self).spec_entries(),
    {
        let len = self.pending.len();
        let mut bytes: Vec<u8> = Vec::new();
        push_bytes(&mut bytes, &self.pending, 0, len);
        assert(self.pending@.subrange(0, len as int) =~= self.pending@);
        self.pending.clear();
        bytes
    }

    /// All ranges recorded for a field, or `None` when there are none.
    pub fn get_cloned_time_ranges(&self, field_id: u64) -> (r: Option<Vec<TimeRange>>)
        ensures
            match r {
                Some(v) => v@ == spec_ranges_of(self.spec_entries(), field_id) && v@.len() > 0,
                None => spec_ranges_of(self.spec_entries(), field_id).len() == 0,
            },
    {
        let n = self.entries.len();
        let mut out: Vec<TimeRange> = Vec::new();
        let mut i: usize = 0;
        proof {
            assert(self.entries@.skip(0) =~= self.entries@);
        }
        while i < n
            invariant
                i <= n,
                n == self.entries@.len(),
                spec_ranges_of(self.entries@, field_id) == out@ + spec_ranges_of(
                    self.entries@.skip(i as int),
                    field_id,
                ),
            decreases n - i,
        {
            let ghost tail = self.entries@.skip(i as int);
            assert(tail[0] == self.entries@[i as int]);
            assert(tail.drop_first() =~= self.entries@.skip(i + 1));
            if self.entries[i].field_id == field_id {
                out.push(self.entries[i].time_range);
                assert(out@ + spec_ranges_of(self.entries@.skip(i + 1), field_id)
                    =~= spec_ranges_of(self.entries@, field_id));
            }
            i = i + 1;
        }
        proof {
            assert(self.entries@.skip(n as int) =~= Seq::<Tombstone>::empty());
            assert(out@ =~= out@ + spec_ranges_of(self.entries@.skip(n as int), field_id));
        }
        if out.len() == 0 {
            None
        } else {
            Some(out)
        }
    }

    /// Whether some recorded deletion of the field overlaps the range.
    pub fn overlaps(&self, field_id: u64, time_range: &TimeRange) -> (r: bool)
        ensures
            r == spec_overlaps_any(self.spec_entries(), field_id, *time_range),
    {
        let n = self.entries.len();
        let mut i: usize = 0;
        while i < n
            invariant
                i <= n,
                n == self.entries@.len(),
                forall|k: int| 0 <= k < i ==> !(#[trigger] self.entries@[k].field_id == field_id
                    && self.entries@[k].time_range.spec_overlaps(*time_range)),
            decreases n - i,
        {
            if self.entries[i].field_id == field_id
                && self.entries[i].time_range.overlaps(time_range) {
                return true;
            }
            i = i + 1;
        }
        false
    }

    /// All recorded ranges of the field that overlap the queried range, in
    /// entry order, or `None` when there is none.
    pub fn get_overlapped_time_ranges(
        &self,
        field_id: u64,
        time_range: &TimeRange,
    ) -> (r: Option<Vec<TimeRange>>)
        ensures
            match r {
                Some(v) => v@ == spec_overlapped(self.spec_entries(), field_id, *time_range)
                    && v@.len() > 0,
                None => spec_overlapped(self.spec_entries(), field_id, *time_range).len() == 0,
            },
    {
        let n = self.entries.len();
        let mut out: Vec<TimeRange> = Vec::new();
        let mut i: usize = 0;
        proof {
            assert(self.entries@.skip(0) =~= self.entries@);
        }
        while i < n
            invariant
                i <= n,
                n == self.entries@.len(),
                spec_overlapped(self.entries@, field_id, *time_range) == out@ + spec_overlapped(
                    self.entries@.skip(i as int),
                    field_id,
                    *time_range,
                ),
            decreases n - i,
        {
            let ghost tail = self.entries@.skip(i as int);
            assert(tail[0] == self.entries@[i as int]);
            assert(tail.drop_first() =~= self.entries@.skip(i + 1));
            if self.entries[i].field_id == field_id
                && self.entries[i].time_range.overlaps(time_range) {
                out.push(self.entries[i].time_range);
                assert(out@ + spec_overlapped(self.entries@.skip(i + 1), field_id, *time_range)
                    =~= spec_overlapped(self.entries@, field_id, *time_range));
            }
            i = i + 1;
        }
        proof {
            assert(self.entries@.skip(n as int) =~= Seq::<Tombstone>::empty());
            assert(out@ =~= out@ + spec_overlapped(
                self.entries@.skip(n as int), field_id, *time_range));
        }
        if out.len() == 0 {
            None
        } else {
            Some(out)
        }
    }

    /// Excises from the block, in place, every point a tombstone of the
    /// field covers.
    pub fn data_block_exclude_tombstones(&self, field_id: u64, data_block: &mut DataBlock)
        requires
            old(data_block).wf(),
        ensures
            final(data_block).wf(),
            final(data_block).codec_tag == old(data_block).codec_tag,
            final(data_block).pairs() == old(data_block).pairs().filter(
                |p: (i64, u64)| !spec_covered(self.spec_entries(), field_id, p.0),
            ),
    {
        let ranges = match self.get_cloned_time_ranges(field_id) {
            Some(v) => v,
            None => Vec::new(),
        };
        proof {
            if spec_ranges_of(self.entries@, field_id).len() == 0 {
                assert(ranges@ =~= spec_ranges_of(self.entries@, field_id));
            }
        }
        let out = data_block.exclude_time_ranges(&ranges);
        proof {
            let es = self.entries@;
            let pred1 = |p: (i64, u64)|
                !(exists|k: int| 0 <= k < ranges@.len() && ranges@[k].spec_contains_ts(p.0));
            let pred2 = |p: (i64, u64)| !spec_covered(es, field_id, p.0);
            assert forall|p: (i64, u64)| #[trigger] pred1(p) == pred2(p) by {
                lemma_ranges_of_covered(es, field_id, p.0);
            }
            crate::tsm::lemma_filter_same_pred(old(data_block).pairs(), pred1, pred2);
        }
        *data_block = out;
    }

    /// Returns the block with every covered point excised, or `None` when
    /// the block is empty or no recorded range of the field overlaps the
    /// block's own time range (so nothing would be excised).
    pub fn data_block_exclude_tombstones_new(
        &self,
        field_id: u64,
        data_block: &DataBlock,
    ) -> (r: Option<DataBlock>)
        requires
            data_block.wf(),
        ensures
            match r {
                Some(b) => {
                    &&& data_block.pairs().len() > 0
                    &&& b.wf()
                    &&& b.codec_tag == data_block.codec_tag
                    &&& b.pairs() == data_block.pairs().filter(
                        |p: (i64, u64)| !spec_covered(self.spec_entries(), field_id, p.0),
                    )
                },
                None => data_block.pairs().len() == 0 || spec_overlapped(
                    self.spec_entries(),
                    field_id,
                    TimeRange {
                        min_ts: data_block.ts@[0],
                        max_ts: data_block.ts@[data_block.ts@.len() - 1],
                    },
                ).len() == 0,
            },
    {
        let block_tr = match data_block.time_range() {
            Some(tr) => tr,
            None => {
                return None;
            },
        };
        let ranges = match self.get_overlapped_time_ranges(field_id, &block_tr) {
            Some(v) => v,
            None => {
                return None;
            },
        };
        let out = data_block.exclude_time_ranges(&ranges);
        proof {
            let es = self.entries@;
            let pred1 = |p: (i64, u64)|
                !(exists|k: int| 0 <= k < ranges@.len() && ranges@[k].spec_contains_ts(p.0));
            let pred2 = |p: (i64, u64)| !spec_covered(es, field_id, p.0);
            assert forall|i: int| 0 <= i < data_block.pairs().len()
                implies #[trigger] pred1(data_block.pairs()[i]) == pred2(data_block.pairs()[i]) by {
                let p = data_block.pairs()[i];
                assert(p.0 == data_block.ts@[i]);
                assert(block_tr.spec_contains_ts(p.0)) by {
                    assert(data_block.ts@[0] <= data_block.ts@[i]);
                    assert(data_block.ts@[i] <= data_block.ts@[data_block.ts@.len() - 1]);
                }
                lemma_overlapped_covered(es, field_id, block_tr, p.0);
            }
            lemma_filter_same_on_members(data_block.pairs(), pred1, pred2);
        }
        Some(out)
    }
}

/// A timestamp is covered by some tombstone of a field exactly when some
/// range in the field's range list contains it.
pub proof fn lemma_ranges_of_covered(es: Seq<Tombstone>, f: u64, ts: i64)
    ensures
        (exists|k: int|
            0 <= k < spec_ranges_of(es, f).len() && spec_ranges_of(es, f)[k].spec_contains_ts(ts))
            == spec_covered(es, f, ts),
    decreases es.len(),
{
    let rs = spec_ranges_of(es, f);
    if es.len() == 0 {
    } else {
        let tail = es.drop_first();
        lemma_ranges_of_covered(tail, f, ts);
        let rs_tail = spec_ranges_of(tail, f);
        if exists|k: int| 0 <= k < rs.len() && rs[k].spec_contains_ts(ts) {
            let k = choose|k: int| 0 <= k < rs.len() && rs[k].spec_contains_ts(ts);
            if es[0].field_id == f {
                if k == 0 {
                    assert(es[0].time_range.spec_contains_ts(ts));
                    assert(spec_covered(es, f, ts));
                } else {
                    assert(rs_tail[k - 1] == rs[k]);
                    assert(spec_covered(tail, f, ts));
                    let i = choose|i: int|
                        0 <= i < tail.len() && tail[i].field_id == f
                            && tail[i].time_range.spec_contains_ts(ts);
                    assert(es[i + 1] == tail[i]);
                    assert(spec_covered(es, f, ts));
                }
            } else {
                assert(rs_tail[k] == rs[k]);
                assert(spec_covered(tail, f, ts));
                let i = choose|i: int|
                    0 <= i < tail.len() && tail[i].field_id == f
                        && tail[i].time_range.spec_contains_ts(ts);
                assert(es[i + 1] == tail[i]);
                assert(spec_covered(es, f, ts));
            }
        }
        if spec_covered(es, f, ts) {
            let i = choose|i: int|
                0 <= i < es.len() && es[i].field_id == f && es[i].time_range.spec_contains_ts(ts);
            if i == 0 {
                assert(rs[0] == es[0].time_range);
                assert(rs[0].spec_contains_ts(ts));
            } else {
                assert(tail[i - 1] == es[i]);
                assert(spec_covered(tail, f, ts));
                let k = choose|k: int| 0 <= k < rs_tail.len() && rs_tail[k].spec_contains_ts(ts);
                if es[0].field_id == f {
                    assert(rs[k + 1] == rs_tail[k]);
                } else {
                    assert(rs[k] == rs_tail[k]);
                }
            }
        }
    }
}

/// For a timestamp inside the queried range, coverage by a range in the
/// overlap list is the same as coverage by any tombstone of the field: a
/// range that contains the timestamp overlaps the query.
pub proof fn lemma_overlapped_covered(es: Seq<Tombstone>, f: u64, query: TimeRange, ts: i64)
    requires
        query.spec_contains_ts(ts),
    ensures
        (exists|k: int|
            0 <= k < spec_overlapped(es, f, query).len() && spec_overlapped(es, f, query)[
                k].spec_contains_ts(ts)) == spec_covered(es, f, ts),
    decreases es.len(),
{
    let rs = spec_overlapped(es, f, query);
    if es.len() == 0 {
    } else {
        let tail = es.drop_first();
        lemma_overlapped_covered(tail, f, query, ts);
        let rs_tail = spec_overlapped(tail, f, query);
        let head_kept = es[0].field_id == f && es[0].time_range.spec_overlaps(query);
        if exists|k: int| 0 <= k < rs.len() && rs[k].spec_contains_ts(ts) {
            let k = choose|k: int| 0 <= k < rs.len() && rs[k].spec_contains_ts(ts);
            if head_kept && k == 0 {
                assert(spec_covered(es, f, ts));
            } else {
                let k2: int = if head_kept { k - 1 } else { k };
                assert(rs_tail[k2] == rs[k]);
                assert(spec_covered(tail, f, ts));
                let i = choose|i: int|
                    0 <= i < tail.len() && tail[i].field_id == f
                        && tail[i].time_range.spec_contains_ts(ts);
                assert(es[i + 1] == tail[i]);
                assert(spec_covered(es, f, ts));
            }
        }
        if spec_covered(es, f, ts) {
            let i = choose|i: int|
                0 <= i < es.len() && es[i].field_id == f && es[i].time_range.spec_contains_ts(ts);
            if i == 0 {
                assert(es[0].time_range.spec_overlaps(query)) by {
                    assert(es[0].time_range.min_ts <= ts <= es[0].time_range.max_ts);
                    assert(query.min_ts <= ts <= query.max_ts);
                }
                assert(rs[0] == es[0].time_range);
                assert(rs[0].spec_contains_ts(ts));
            } else {
                assert(tail[i - 1] == es[i]);
                assert(spec_covered(tail, f, ts));
                let k = choose|k: int| 0 <= k < rs_tail.len() && rs_tail[k].spec_contains_ts(ts);
                if head_kept {
                    assert(rs[k + 1] == rs_tail[k]);
                } else {
                    assert(rs[k] == rs_tail[k]);
                }
            }
        }
    }
}

/// Filtering with predicates that agree on every element of the sequence
/// gives the same sequence.
pub proof fn lemma_filter_same_on_members(
    s: Seq<(i64, u64)>,
    p1: spec_fn((i64, u64)) -> bool,
    p2: spec_fn((i64, u64)) -> bool,
)
    requires
        forall|i: int| 0 <= i < s.len() ==> #[trigger] p1(s[i]) == p2(s[i]),
    ensures
        s.filter(p1) == s.filter(p2),
    decreases s.len(),
{
    reveal(Seq::filter);
    if s.len() > 0 {
        assert(forall|i: int| 0 <= i < s.drop_last().len() ==> s.drop_last()[i] == s[i]);
        lemma_filter_same_on_members(s.drop_last(), p1, p2);
    }
}

/// Applying the same deletion twice changes no overlap answer and no
/// coverage answer: tombstone addition is idempotent for every read.
pub proof fn lemma_add_range_idempotent(
    es: Seq<Tombstone>,
    added: Seq<Tombstone>,
    f: u64,
    tr: TimeRange,
    ts: i64,
)
    ensures
        spec_overlaps_any(es + added + added, f, tr) == spec_overlaps_any(es + added, f, tr),
        spec_covered(es + added + added, f, ts) == spec_covered(es + added, f, ts),
{
    let once = es + added;
    let twice = es + added + added;
    assert forall|i: int| 0 <= i < twice.len() implies exists|j: int|
        0 <= j < once.len() && #[trigger] twice[i] == #[trigger] once[j] by {
        if i < once.len() {
            assert(twice[i] == once[i]);
        } else {
            let j = i - added.len();
            assert(es.len() <= j < once.len());
            assert(twice[i] == added[i - once.len()]);
            assert(once[j] == added[j - es.len()]);
            assert(twice[i] == once[j]);
        }
    }
    assert(forall|i: int| 0 <= i < once.len() ==> #[trigger] twice[i] == once[i]);
    if spec_overlaps_any(twice, f, tr) {
        let i = choose|i: int|
            0 <= i < twice.len() && twice[i].field_id == f && twice[i].time_range.spec_overlaps(tr);
        let j = choose|j: int| 0 <= j < once.len() && twice[i] == once[j];
        assert(spec_overlaps_any(once, f, tr));
    }
    if spec_overlaps_any(once, f, tr) {
        let i = choose|i: int|
            0 <= i < once.len() && once[i].field_id == f && once[i].time_range.spec_overlaps(tr);
        assert(twice[i] == once[i]);
        assert(spec_overlaps_any(twice, f, tr));
    }
    if spec_covered(twice, f, ts) {
        let i = choose|i: int|
            0 <= i < twice.len() && twice[i].field_id == f
                && twice[i].time_range.spec_contains_ts(ts);
        let j = choose|j: int| 0 <= j < once.len() && twice[i] == once[j];
        assert(spec_covered(once, f, ts));
    }
    if spec_covered(once, f, ts) {
        let i = choose|i: int|
            0 <= i < once.len() && once[i].field_id == f
                && once[i].time_range.spec_contains_ts(ts);
        assert(twice[i] == once[i]);
        assert(spec_covered(twice, f, ts));
    }
}

/// No lost tombstone: once an entry deleting `(f, tr)` stands in the store,
/// every point of `f` that survives coverage filtering lies outside `tr`;
/// since block excision keeps exactly the uncovered points, a read after
/// the delete returns no point of the deleted range.
pub proof fn lemma_delete_excises(
    es: Seq<Tombstone>,
    f: u64,
    tr: TimeRange,
    pairs: Seq<(i64, u64)>,
)
    requires
        exists|i: int|
            0 <= i < es.len() && es[i] == (Tombstone { field_id: f, time_range: tr }),
    ensures
        forall|j: int|
            0 <= j < pairs.len() && !spec_covered(es, f, (#[trigger] pairs[j]).0)
                ==> !tr.spec_contains_ts(pairs[j].0),
{
    assert forall|j: int|
        0 <= j < pairs.len() && !spec_covered(es, f, (#[trigger] pairs[j]).0)
            implies !tr.spec_contains_ts(pairs[j].0) by {
        if tr.spec_contains_ts(pairs[j].0) {
            let i = choose|i: int|
                0 <= i < es.len() && es[i] == (Tombstone { field_id: f, time_range: tr });
            assert(es[i].field_id == f && es[i].time_range.spec_contains_ts(pairs[j].0));
            assert(spec_covered(es, f, pairs[j].0));
        }
    }
}

} // verus!
