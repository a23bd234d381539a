//! Compaction: merging the blocks of one field from several column files
//! into one block, honoring tombstones and keeping, for each timestamp,
//! the point from the newest file.
//!
//! Inputs arrive oldest file first; merging inserts their points in that
//! order with last-writer-wins, so the newest file decides a duplicate
//! timestamp. Tombstoned points are excised and need not be carried
//! forward.

use vstd::prelude::*;
use crate::memcache::{FieldRun, run_insert_spec, run_lookup, run_sorted,
    lemma_run_insert_lookup, lemma_run_insert_sorted};
use crate::tombstone::{Tombstone, TsmTombstone, spec_covered};
use crate::tsm::DataBlock;

verus! {

/// The points of a list of blocks, file order: oldest file's pairs first.
pub open spec fn blocks_pairs(blocks: Seq<DataBlock>) -> Seq<(i64, u64)>
    decreases blocks.len(),
{
    if blocks.len() == 0 {
        Seq::empty()
    } else {
        blocks[0].pairs() + blocks_pairs(blocks.drop_first())
    }
}

/// The points of concatenated block lists concatenate.
pub proof fn lemma_blocks_pairs_concat(a: Seq<DataBlock>, b: Seq<DataBlock>)
    ensures
        blocks_pairs(a + b) == blocks_pairs(a) + blocks_pairs(b),
    decreases a.len(),
{
    if a.len() == 0 {
        assert(a + b =~= b);
        assert(blocks_pairs(a) + blocks_pairs(b) =~= blocks_pairs(b));
    } else {
        assert((a + b)[0] == a[0]);
        assert((a + b).drop_first() =~= a.drop_first() + b);
        lemma_blocks_pairs_concat(a.drop_first(), b);
        assert(blocks_pairs(a + b) =~= blocks_pairs(a) + blocks_pairs(b));
    }
}

/// A stream of points inserted, in order, into a sorted run: the later
/// point wins a duplicate timestamp.
pub open spec fn fold_run(acc: Seq<(i64, u64)>, ps: Seq<(i64, u64)>) -> Seq<(i64, u64)>
    decreases ps.len(),
{
    if ps.len() == 0 {
        acc
    } else {
        fold_run(run_insert_spec(acc, ps[0].0, ps[0].1), ps.drop_first())
    }
}

/// The value of the last point of a stream with one timestamp, if any:
/// what last-writer-wins keeps.
pub open spec fn last_lookup(ps: Seq<(i64, u64)>, q: i64) -> Option<u64>
    decreases ps.len(),
{
    if ps.len() == 0 {
        None
    } else if ps.last().0 == q {
        Some(ps.last().1)
    } else {
        last_lookup(ps.drop_last(), q)
    }
}

/// Inserting a concatenation inserts the parts in order.
pub proof fn lemma_fold_run_concat(acc: Seq<(i64, u64)>, a: Seq<(i64, u64)>, b: Seq<(i64, u64)>)
    ensures
        fold_run(acc, a + b) == fold_run(fold_run(acc, a), b),
    decreases a.len(),
{
    if a.len() == 0 {
        assert(a + b =~= b);
    } else {
        assert((a + b)[0] == a[0]);
        assert((a + b).drop_first() =~= a.drop_first() + b);
        lemma_fold_run_concat(run_insert_spec(acc, a[0].0, a[0].1), a.drop_first(), b);
    }
}

/// Inserting a single point.
pub proof fn lemma_fold_run_single(acc: Seq<(i64, u64)>, p: (i64, u64))
    ensures
        fold_run(acc, seq![p]) == run_insert_spec(acc, p.0, p.1),
{
    let s = seq![p];
    assert(s[0] == p);
    assert(s.drop_first() =~= Seq::<(i64, u64)>::empty());
    assert(fold_run(acc, s) == fold_run(run_insert_spec(acc, p.0, p.1), s.drop_first()));
    assert(fold_run(run_insert_spec(acc, p.0, p.1), Seq::<(i64, u64)>::empty())
        == run_insert_spec(acc, p.0, p.1));
}

/// Folding keeps a run sorted.
pub proof fn lemma_fold_run_sorted(acc: Seq<(i64, u64)>, ps: Seq<(i64, u64)>)
    requires
        run_sorted(acc),
    ensures
        run_sorted(fold_run(acc, ps)),
    decreases ps.len(),
{
    if ps.len() > 0 {
        lemma_run_insert_sorted(acc, ps[0].0, ps[0].1);
        lemma_fold_run_sorted(run_insert_spec(acc, ps[0].0, ps[0].1), ps.drop_first());
    }
}

/// What the fold stores at a timestamp: the stream's last point with that
/// timestamp, or what the accumulator already stored.
pub proof fn lemma_fold_run_lookup(acc: Seq<(i64, u64)>, ps: Seq<(i64, u64)>, q: i64)
    ensures
        run_lookup(fold_run(acc, ps), q) == match last_lookup(ps, q) {
            Some(v) => Some(v),
            None => run_lookup(acc, q),
        },
    decreases ps.len(),
{
    if ps.len() > 0 {
        let dl = ps.drop_last();
        let last = ps.last();
        assert(ps =~= dl + seq![last]);
        lemma_fold_run_concat(acc, dl, seq![last]);
        lemma_fold_run_single(fold_run(acc, dl), last);
        lemma_run_insert_lookup(fold_run(acc, dl), last.0, last.1, q);
        lemma_fold_run_lookup(acc, dl, q);
    }
}

/// In a sorted run the lookup answers by membership.
pub proof fn lemma_sorted_lookup_contains(s: Seq<(i64, u64)>, q: i64)
    requires
        run_sorted(s),
    ensures
        match run_lookup(s, q) {
            Some(v) => s.contains((q, v)),
            None => forall|i: int| 0 <= i < s.len() ==> (#[trigger] s[i]).0 != q,
        },
    decreases s.len(),
{
    if s.len() > 0 {
        assert(forall|i: int| 0 <= i < s.drop_first().len() ==> s.drop_first()[i] == s[i + 1]);
        lemma_sorted_lookup_contains(s.drop_first(), q);
        if s[0].0 == q {
            assert(s.contains((q, s[0].1))) by {
                assert(s[0] == (q, s[0].1));
            }
        } else {
            match run_lookup(s.drop_first(), q) {
                Some(v) => {
                    let i = choose|i: int|
                        0 <= i < s.drop_first().len() && s.drop_first()[i] == (q, v);
                    assert(s[i + 1] == (q, v));
                    assert(s.contains((q, v)));
                },
                None => {
                    assert forall|i: int| 0 <= i < s.len() implies (#[trigger] s[i]).0
                        != q by {
                        if i > 0 {
                            assert(s.drop_first()[i - 1] == s[i]);
                        }
                    }
                },
            }
        }
    }
}

/// In a sorted run a contained pair is what the lookup answers.
pub proof fn lemma_contains_lookup(s: Seq<(i64, u64)>, q: i64, v: u64)
    requires
        run_sorted(s),
        s.contains((q, v)),
    ensures
        run_lookup(s, q) == Some(v),
    decreases s.len(),
{
    let i = choose|i: int| 0 <= i < s.len() && s[i] == (q, v);
    if s[0].0 == q {
        assert(i == 0) by {
            if i > 0 {
                assert(s[0].0 < s[i].0);
            }
        }
        assert(s[0] == (q, v));
    } else {
        assert(i > 0);
        assert(forall|j: int| 0 <= j < s.drop_first().len() ==> s.drop_first()[j] == s[j + 1]);
        assert(s.drop_first()[i - 1] == (q, v));
        assert(s.drop_first().contains((q, v)));
        lemma_contains_lookup(s.drop_first(), q, v);
    }
}

/// Every element of a filtered run stands in the run.
pub proof fn lemma_filter_subset(s: Seq<(i64, u64)>, pred: spec_fn((i64, u64)) -> bool)
    ensures
        forall|i: int|
            0 <= i < s.filter(pred).len() ==> s.contains(#[trigger] s.filter(pred)[i]),
    decreases s.len(),
{
    reveal(Seq::filter);
    if s.len() > 0 {
        let dl = s.drop_last();
        let f = s.filter(pred);
        lemma_filter_subset(dl, pred);
        assert forall|i: int| 0 <= i < f.len() implies s.contains(#[trigger] f[i]) by {
            if pred(s.last()) {
                if i < f.len() - 1 {
                    assert(f[i] == dl.filter(pred)[i]);
                    assert(dl.contains(f[i]));
                    let k = choose|k: int| 0 <= k < dl.len() && dl[k] == f[i];
                    assert(s[k] == f[i]);
                } else {
                    assert(f[i] == s[s.len() - 1]);
                }
            } else {
                assert(f[i] == dl.filter(pred)[i]);
                assert(dl.contains(f[i]));
                let k = choose|k: int| 0 <= k < dl.len() && dl[k] == f[i];
                assert(s[k] == f[i]);
            }
        }
    }
}

/// Filtering keeps a run sorted.
pub proof fn lemma_filter_run_sorted(s: Seq<(i64, u64)>, pred: spec_fn((i64, u64)) -> bool)
    requires
        run_sorted(s),
    ensures
        run_sorted(s.filter(pred)),
    decreases s.len(),
{
    reveal(Seq::filter);
    if s.len() > 0 {
        let dl = s.drop_last();
        assert(forall|i: int| 0 <= i < dl.len() ==> dl[i] == s[i]);
        lemma_filter_run_sorted(dl, pred);
        if pred(s.last()) {
            let f = dl.filter(pred);
            let g = f.push(s.last());
            assert(s.filter(pred) == g);
            assert forall|i: int, j: int| 0 <= i < j < g.len() implies g[i].0 < g[j].0 by {
                if j < f.len() {
                    assert(g[i] == f[i] && g[j] == f[j]);
                } else {
                    assert(j == f.len());
                    assert(i < f.len());
                    assert(g[i] == f[i]);
                    assert(g[j] == s.last());
                    lemma_filter_subset(dl, pred);
                    assert(dl.contains(f[i]));
                    let k = choose|k: int| 0 <= k < dl.len() && dl[k] == f[i];
                    assert(s[k] == f[i]);
                    assert(s[k].0 < s[s.len() - 1].0);
                }
            }
        }
    }
}

/// Looking a timestamp up in a coverage-filtered sorted run: a covered
/// timestamp is gone, any other answers as before.
pub proof fn lemma_filter_lookup(s: Seq<(i64, u64)>, es: Seq<Tombstone>, f: u64, q: i64)
    requires
        run_sorted(s),
    ensures
        run_lookup(s.filter(|p: (i64, u64)| !spec_covered(es, f, p.0)), q) == if spec_covered(
            es,
            f,
            q,
        ) {
            None::<u64>
        } else {
            run_lookup(s, q)
        },
{
    let pred = |p: (i64, u64)| !spec_covered(es, f, p.0);
    let kept = s.filter(pred);
    lemma_filter_run_sorted(s, pred);
    if spec_covered(es, f, q) {
        lemma_sorted_lookup_contains(kept, q);
        match run_lookup(kept, q) {
            Some(v) => {
                let i = choose|i: int| 0 <= i < kept.len() && kept[i] == (q, v);
                s.lemma_filter_pred(pred, i);
                assert(pred((q, v)));
                assert(false);
            },
            None => {},
        }
    } else {
        lemma_sorted_lookup_contains(s, q);
        match run_lookup(s, q) {
            Some(v) => {
                assert(s.contains((q, v)));
                let k = choose|k: int| 0 <= k < s.len() && s[k] == (q, v);
                assert(pred(s[k]));
                s.lemma_filter_contains(pred, k);
                assert(kept.contains(s[k]));
                lemma_contains_lookup(kept, q, v);
            },
            None => {
                lemma_sorted_lookup_contains(kept, q);
                match run_lookup(kept, q) {
                    Some(v) => {
                        let i = choose|i: int| 0 <= i < kept.len() && kept[i] == (q, v);
                        lemma_filter_subset(s, pred);
                        assert(s.contains(kept[i]));
                        let k = choose|k: int| 0 <= k < s.len() && s[k] == (q, v);
                        assert(s[k].0 == q);
                        assert(false);
                    },
                    None => {},
                }
            },
        }
    }
}

/// Merges the blocks of one field, oldest file first, honoring the file's
/// tombstones: the result holds, for each timestamp, the newest surviving
/// point.
pub fn compact_blocks(
    inputs: &Vec<DataBlock>,
    tombstones: &TsmTombstone,
    field_id: u64,
    codec_tag: u8,
) -> (out: DataBlock)
    requires
        forall|i: int| 0 <= i < inputs@.len() ==> (#[trigger] inputs@[i]).wf(),
    ensures
        out.wf(),
        out.codec_tag == codec_tag,
        out.pairs() == fold_run(Seq::empty(), blocks_pairs(inputs@)).filter(
            |p: (i64, u64)| !spec_covered(tombstones.spec_entries(), field_id, p.0),
        ),
{
    let mut run = FieldRun::new();
    let n = inputs.len();
    let mut i: usize = 0;
    proof {
        assert(inputs@.skip(0) =~= inputs@);
    }
    while i < n
        invariant
            i <= n,
            n == inputs@.len(),
            forall|k: int| 0 <= k < inputs@.len() ==> (#[trigger] inputs@[k]).wf(),
            run.wf(),
            fold_run(Seq::empty(), blocks_pairs(inputs@)) == fold_run(
                run.pairs(),
                blocks_pairs(inputs@.skip(i as int)),
            ),
        decreases n - i,
    {
        let ghost tail = inputs@.skip(i as int);
        proof {
            assert(tail[0] == inputs@[i as int]);
            assert(tail.drop_first() =~= inputs@.skip(i + 1));
            assert(blocks_pairs(tail) == inputs@[i as int].pairs() + blocks_pairs(
                inputs@.skip(i + 1)));
            lemma_fold_run_concat(
                run.pairs(),
                inputs@[i as int].pairs(),
                blocks_pairs(inputs@.skip(i + 1)),
            );
        }
        let ghost bp = inputs@[i as int].pairs();
        let m = inputs[i].len();
        let mut j: usize = 0;
        proof {
            assert(bp.skip(0) =~= bp);
        }
        while j < m
            invariant
                j <= m,
                i < inputs@.len(),
                forall|k: int| 0 <= k < inputs@.len() ==> (#[trigger] inputs@[k]).wf(),
                bp == inputs@[i as int].pairs(),
                m == bp.len(),
                run.wf(),
                fold_run(Seq::empty(), blocks_pairs(inputs@)) == fold_run(
                    fold_run(run.pairs(), bp.skip(j as int)),
                    blocks_pairs(inputs@.skip(i + 1)),
                ),
            decreases m - j,
        {
            let ghost ptail = bp.skip(j as int);
            proof {
                assert(ptail[0] == bp[j as int]);
                assert(ptail.drop_first() =~= bp.skip(j + 1));
            }
            let p = inputs[i].pair_at(j);
            run.insert(p.0, p.1);
            j = j + 1;
        }
        proof {
            assert(bp.skip(m as int) =~= Seq::<(i64, u64)>::empty());
        }
        i = i + 1;
    }
    proof {
        assert(inputs@.skip(n as int) =~= Seq::<DataBlock>::empty());
        assert(blocks_pairs(inputs@.skip(n as int)) =~= Seq::<(i64, u64)>::empty());
    }
    let mut out = run.to_block(codec_tag);
    tombstones.data_block_exclude_tombstones(field_id, &mut out);
    out
}

/// Compaction correctness: for every timestamp, the merged block holds the
/// newest input point unless a tombstone of the field covers the
/// timestamp; the live points of inputs and output are the same.
pub proof fn lemma_compaction_preserves_live(
    inputs: Seq<DataBlock>,
    es: Seq<Tombstone>,
    field_id: u64,
    out: Seq<(i64, u64)>,
    q: i64,
)
    requires
        out == fold_run(Seq::empty(), blocks_pairs(inputs)).filter(
            |p: (i64, u64)| !spec_covered(es, field_id, p.0),
        ),
    ensures
        run_lookup(out, q) == if spec_covered(es, field_id, q) {
            None::<u64>
        } else {
            last_lookup(blocks_pairs(inputs), q)
        },
{
    let merged = fold_run(Seq::empty(), blocks_pairs(inputs));
    lemma_fold_run_sorted(Seq::empty(), blocks_pairs(inputs));
    lemma_fold_run_lookup(Seq::empty(), blocks_pairs(inputs), q);
    lemma_filter_lookup(merged, es, field_id, q);
}

} // verus!
