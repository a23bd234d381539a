//! Per-vnode write-ahead log: a durable log of write batches, truncated by
//! flush checkpoints.
//!
//! Sequence numbers are per vnode, strictly increasing and gap-free; a
//! batch must be persisted here before the write is acknowledged.

use vstd::prelude::*;

verus! {

/// One point of a write batch.
#[derive(PartialEq, Eq, Structural, Clone, Copy, Debug)]
pub struct Point {
    pub series_id: u64,
    pub field_id: u64,
    pub ts: i64,
    pub val: u64,
}

/// One write-ahead-log record: a write batch under one sequence number.
pub struct WalRecord {
    pub seq: u64,
    pub tenant: String,
    pub database: String,
    pub precision: u8,
    pub points: Vec<Point>,
}

/// How many leading records a truncation at `up_to` drops: the records
/// whose sequence is at most `up_to`.
pub open spec fn trunc_count(s: Seq<WalRecord>, up_to: u64) -> int
    decreases s.len(),
{
    if s.len() == 0 {
        0
    } else if s[0].seq <= up_to {
        1 + trunc_count(s.drop_first(), up_to)
    } else {
        0
    }
}

/// The write-ahead log of one vnode.
pub struct Wal {
    records: Vec<WalRecord>,
    next_seq: u64,
}

impl Wal {
    /// The retained records, oldest first.
    pub closed spec fn spec_records(self) -> Seq<WalRecord> {
        self.records@
    }

    /// The sequence number the next append will get.
    pub closed spec fn spec_next_seq(self) -> u64 {
        self.next_seq
    }

    /// Sequences are contiguous and end right below `next_seq`: the record
    /// at position `i` carries sequence `next_seq - len + i`.
    pub open spec fn wf(self) -> bool {
        &&& self.spec_records().len() <= self.spec_next_seq()
        &&& forall|i: int|
            0 <= i < self.spec_records().len() ==> (#[trigger] self.spec_records()[i]).seq
                == self.spec_next_seq() - self.spec_records().len() + i
    }

    /// An empty log that will assign `start_seq` first.
    pub fn new(start_seq: u64) -> (r: Wal)
        ensures
            r.wf(),
            r.spec_records() == Seq::<WalRecord>::empty(),
            r.spec_next_seq() == start_seq,
    {
        Wal { records: Vec::new(), next_seq: start_seq }
    }

    pub fn next_seq(&self) -> (r: u64)
        ensures
            r == self.spec_next_seq(),
    {
        self.next_seq
    }

    pub fn len(&self) -> (r: usize)
        ensures
            r == self.spec_records().len(),
    {
        self.records.len()
    }

    /// Appends a batch and allocates its sequence number, in caller's
    /// order. The batch must be persisted before the write is acknowledged;
    /// the caller obtains the bytes to persist from the record itself.
    pub fn append(
        &mut self,
        tenant: String,
        database: String,
        precision: u8,
        points: Vec<Point>,
    ) -> (seq: u64)
        requires
            old(self).wf(),
            old(self).spec_next_seq() < u64::MAX,
        ensures
            final(self).wf(),
            seq == old(self).spec_next_seq(),
            final(self).spec_next_seq() == seq + 1,
            final(self).spec_records().len() == old(self).spec_records().len() + 1,
            forall|i: int|
                0 <= i < old(self).spec_records().len() ==> final(self).spec_records()[i]
                    == old(self).spec_records()[i],
            final(self).spec_records().last().seq == seq,
            final(self).spec_records().last().tenant@ == tenant@,
            final(self).spec_records().last().database@ == database@,
            final(self).spec_records().last().precision == precision,
            final(self).spec_records().last().points@ == points@,
    {
        let seq = self.next_seq;
        let rec = WalRecord { seq, tenant, database, precision, points };
        self.records.push(rec);
        self.next_seq = seq + 1;
        seq
    }

    /// Drops every leading record whose sequence is at most `up_to`. The
    /// caller must only pass an `up_to` covered by a durable summary
    /// checkpoint: truncation happens-after the summary append that records
    /// `last_seq >= up_to`.
    pub fn truncate(&mut self, up_to: u64)
        requires
            old(self).wf(),
        ensures
            final(self).wf(),
            final(self).spec_next_seq() == old(self).spec_next_seq(),
            final(self).spec_records() == old(self).spec_records().skip(
                trunc_count(old(self).spec_records(), up_to),
            ),
            forall|i: int|
                0 <= i < final(self).spec_records().len()
                    ==> (#[trigger] final(self).spec_records()[i]).seq > up_to,
    {
        let ghost orig = self.records@;
        let ghost dropped: int = 0;
        proof {
            assert(orig.skip(0) =~= orig);
        }
        loop
            invariant
                self.wf(),
                self.next_seq == old(self).spec_next_seq(),
                0 <= dropped <= orig.len(),
                self.records@ == orig.skip(dropped),
                trunc_count(orig, up_to) == dropped + trunc_count(self.records@, up_to),
            ensures
                self.records@ == orig.skip(trunc_count(orig, up_to)),
                self.records@.len() == 0 || self.records@[0].seq > up_to,
                self.next_seq == old(self).spec_next_seq(),
                self.wf(),
            decreases self.records@.len(),
        {
            if self.records.len() == 0 {
                break;
            }
            let head_seq = self.records[0].seq;
            if head_seq > up_to {
                break;
            }
            proof {
                assert(self.records@.drop_first() =~= orig.skip(dropped + 1));
            }
            let _ = self.records.remove(0);
            proof {
                dropped = dropped + 1;
            }
        }
        proof {
            assert forall|i: int| 0 <= i < self.records@.len()
                implies (#[trigger] self.records@[i]).seq > up_to by {
                assert(self.records@[0].seq > up_to);
                assert(self.records@[i].seq >= self.records@[0].seq);
            }
        }
    }

    /// Hands back the records with sequence above `after`, oldest first:
    /// what replay re-applies to a fresh memcache on open. The records
    /// themselves stay in the log.
    pub fn tail_after(&self, after: u64) -> (r: Vec<Point>)
        requires
            self.wf(),
        ensures
            r@ == replay_points(self.spec_records(), after),
    {
        let n = self.records.len();
        let mut out: Vec<Point> = Vec::new();
        let mut i: usize = 0;
        proof {
            assert(self.records@.skip(0) =~= self.records@);
        }
        while i < n
            invariant
                i <= n,
                n == self.records@.len(),
                self.wf(),
                replay_points(self.records@, after) == out@ + replay_points(
                    self.records@.skip(i as int),
                    after,
                ),
            decreases n - i,
        {
            let ghost tail = self.records@.skip(i as int);
            proof {
                assert(tail[0] == self.records@[i as int]);
                assert(tail.drop_first() =~= self.records@.skip(i + 1));
            }
            if self.records[i].seq > after {
                let m = self.records[i].points.len();
                let ghost base = out@;
                let mut k: usize = 0;
                while k < m
                    invariant
                        k <= m,
                        i < self.records@.len(),
                        m == self.records@[i as int].points@.len(),
                        out@ == base + self.records@[i as int].points@.subrange(0, k as int),
                    decreases m - k,
                {
                    out.push(self.records[i].points[k]);
                    proof {
                        assert(out@ =~= base + self.records@[i as int].points@.subrange(
                            0, k + 1));
                    }
                    k = k + 1;
                }
                proof {
                    assert(self.records@[i as int].points@.subrange(
                        0, self.records@[i as int].points@.len() as int)
                        =~= self.records@[i as int].points@);
                    assert(replay_points(tail, after) == tail[0].points@ + replay_points(
                        self.records@.skip(i + 1), after));
                    assert(out@ =~= base + self.records@[i as int].points@);
                }
            } else {
                proof {
                    assert(replay_points(tail, after) == replay_points(
                        self.records@.skip(i + 1), after));
                }
            }
            i = i + 1;
        }
        proof {
            assert(self.records@.skip(n as int) =~= Seq::<WalRecord>::empty());
            assert(out@ =~= out@ + replay_points(self.records@.skip(n as int), after));
        }
        out
    }
}

/// The points of every record with sequence above `after`, in log order:
/// what replay applies, in order, to a fresh memcache.
pub open spec fn replay_points(s: Seq<WalRecord>, after: u64) -> Seq<Point>
    decreases s.len(),
{
    if s.len() == 0 {
        Seq::empty()
    } else if s[0].seq > after {
        s[0].points@ + replay_points(s.drop_first(), after)
    } else {
        replay_points(s.drop_first(), after)
    }
}

/// Monotone sequence numbers: in a well-formed log the sequences are
/// strictly increasing and gap-free.
pub proof fn lemma_wal_monotone(w: Wal)
    requires
        w.wf(),
    ensures
        forall|i: int, j: int|
            0 <= i < j < w.spec_records().len() ==> (#[trigger] w.spec_records()[i]).seq
                < (#[trigger] w.spec_records()[j]).seq,
        forall|i: int, j: int|
            0 <= i < j < w.spec_records().len() ==> (#[trigger] w.spec_records()[j]).seq
                - (#[trigger] w.spec_records()[i]).seq == j - i,
{
}

} // verus!
