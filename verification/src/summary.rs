//! The summary: a durable log of version edits. Replaying it from the last
//! checkpoint reconstructs each vnode's version.
//!
//! The log allocates every column-file ID it ever admits, so an ID removed
//! by one edit can never be added again by a later one.

use vstd::prelude::*;
use crate::codec::{be_i64, be_u32, be_u64, get_i64_be, get_u32_be, get_u64_be, i64_be,
    lemma_i64_be_round_trip, lemma_u32_be_round_trip, lemma_u64_be_round_trip, put_i64_be,
    put_u32_be, put_u64_be, u32_be, u64_be};
use crate::version::{CompactMeta, Version, VersionEdit, apply_edit_spec, id_in};

verus! {


/// Bytes of one encoded file meta.
pub const EDIT_META_LEN: usize = 40;

/// Bytes of an encoded edit before its metas and removed IDs.
pub const EDIT_HEADER_LEN: usize = 24;

/// The encoding of one file meta.
pub open spec fn meta_bytes(m: CompactMeta) -> Seq<u8> {
    u64_be(m.file_id) + u64_be(m.file_size) + u32_be(m.tsf_id) + u32_be(m.level) + i64_be(
        m.min_ts,
    ) + i64_be(m.max_ts)
}

/// The meta read at one offset.
pub open spec fn parse_meta(data: Seq<u8>, off: int) -> CompactMeta {
    CompactMeta {
        file_id: be_u64(data.subrange(off, off + 8)),
        file_size: be_u64(data.subrange(off + 8, off + 16)),
        tsf_id: be_u32(data.subrange(off + 16, off + 20)),
        level: be_u32(data.subrange(off + 20, off + 24)),
        min_ts: be_i64(data.subrange(off + 24, off + 32)),
        max_ts: be_i64(data.subrange(off + 32, off + 40)),
    }
}

/// The encodings of a run of file metas, in order.
pub open spec fn metas_bytes(s: Seq<CompactMeta>) -> Seq<u8>
    decreases s.len(),
{
    if s.len() == 0 {
        Seq::empty()
    } else {
        meta_bytes(s[0]) + metas_bytes(s.drop_first())
    }
}

/// The encodings of a run of file IDs, in order.
pub open spec fn ids_bytes(s: Seq<u64>) -> Seq<u8>
    decreases s.len(),
{
    if s.len() == 0 {
        Seq::empty()
    } else {
        u64_be(s[0]) + ids_bytes(s.drop_first())
    }
}

/// The record payload of one version edit: family, level and sequence
/// marks, the two counts, the added metas, the removed IDs.
pub open spec fn edit_payload(e: VersionEdit) -> Seq<u8> {
    u32_be(e.tsf_id) + u32_be(e.max_level) + u64_be(e.seq_no) + u32_be(
        e.add_files@.len() as u32,
    ) + u32_be(e.del_file_ids@.len() as u32) + metas_bytes(e.add_files@) + ids_bytes(
        e.del_file_ids@,
    )
}

/// Decoding an encoded meta gives the meta back.
pub proof fn lemma_meta_round_trip(m: CompactMeta, data: Seq<u8>, off: int)
    requires
        0 <= off,
        off + EDIT_META_LEN <= data.len(),
        data.subrange(off, off + EDIT_META_LEN) == meta_bytes(m),
    ensures
        parse_meta(data, off) == m,
{
    let sub = data.subrange(off, off + EDIT_META_LEN);
    assert(data.subrange(off, off + 8) =~= sub.subrange(0, 8));
    assert(data.subrange(off + 8, off + 16) =~= sub.subrange(8, 16));
    assert(data.subrange(off + 16, off + 20) =~= sub.subrange(16, 20));
    assert(data.subrange(off + 20, off + 24) =~= sub.subrange(20, 24));
    assert(data.subrange(off + 24, off + 32) =~= sub.subrange(24, 32));
    assert(data.subrange(off + 32, off + 40) =~= sub.subrange(32, 40));
    assert(sub.subrange(0, 8) =~= u64_be(m.file_id));
    assert(sub.subrange(8, 16) =~= u64_be(m.file_size));
    assert(sub.subrange(16, 20) =~= u32_be(m.tsf_id));
    assert(sub.subrange(20, 24) =~= u32_be(m.level));
    assert(sub.subrange(24, 32) =~= i64_be(m.min_ts));
    assert(sub.subrange(32, 40) =~= i64_be(m.max_ts));
    lemma_u64_be_round_trip(m.file_id);
    lemma_u64_be_round_trip(m.file_size);
    lemma_u32_be_round_trip(m.tsf_id);
    lemma_u32_be_round_trip(m.level);
    lemma_i64_be_round_trip(m.min_ts);
    lemma_i64_be_round_trip(m.max_ts);
}

/// The k-th meta sits 40k bytes into the encoded run.
pub proof fn lemma_metas_bytes_at(s: Seq<CompactMeta>, k: int)
    requires
        0 <= k < s.len(),
    ensures
        metas_bytes(s).len() == EDIT_META_LEN * s.len(),
        metas_bytes(s).subrange(EDIT_META_LEN * k, EDIT_META_LEN * (k + 1)) == meta_bytes(s[k]),
    decreases s.len(),
{
    lemma_metas_bytes_len(s);
    if k == 0 {
        assert(metas_bytes(s).subrange(0, EDIT_META_LEN as int) =~= meta_bytes(s[0]));
    } else {
        lemma_metas_bytes_at(s.drop_first(), k - 1);
        assert(s.drop_first()[k - 1] == s[k]);
        assert(metas_bytes(s).subrange(EDIT_META_LEN * k, EDIT_META_LEN * (k + 1))
            =~= metas_bytes(s.drop_first()).subrange(
            EDIT_META_LEN * (k - 1), EDIT_META_LEN * k));
    }
}

/// An encoded meta run is 40 bytes per meta.
pub proof fn lemma_metas_bytes_len(s: Seq<CompactMeta>)
    ensures
        metas_bytes(s).len() == EDIT_META_LEN * s.len(),
    decreases s.len(),
{
    if s.len() > 0 {
        lemma_metas_bytes_len(s.drop_first());
    }
}

/// The k-th ID sits 8k bytes into the encoded run.
pub proof fn lemma_ids_bytes_at(s: Seq<u64>, k: int)
    requires
        0 <= k < s.len(),
    ensures
        ids_bytes(s).len() == 8 * s.len(),
        ids_bytes(s).subrange(8 * k, 8 * (k + 1)) == u64_be(s[k]),
    decreases s.len(),
{
    lemma_ids_bytes_len(s);
    if k == 0 {
        assert(ids_bytes(s).subrange(0, 8) =~= u64_be(s[0]));
    } else {
        lemma_ids_bytes_at(s.drop_first(), k - 1);
        assert(s.drop_first()[k - 1] == s[k]);
        assert(ids_bytes(s).subrange(8 * k, 8 * (k + 1)) =~= ids_bytes(
            s.drop_first()).subrange(8 * (k - 1), 8 * k));
    }
}

/// An encoded ID run is 8 bytes per ID.
pub proof fn lemma_ids_bytes_len(s: Seq<u64>)
    ensures
        ids_bytes(s).len() == 8 * s.len(),
    decreases s.len(),
{
    if s.len() > 0 {
        lemma_ids_bytes_len(s.drop_first());
    }
}

/// Encodes one version edit as a record payload.
pub fn encode_version_edit(e: &VersionEdit) -> (out: Vec<u8>)
    requires
        e.add_files@.len() <= u32::MAX,
        e.del_file_ids@.len() <= u32::MAX,
    ensures
        out@ == edit_payload(*e),
{
    let mut out: Vec<u8> = Vec::new();
    put_u32_be(&mut out, e.tsf_id);
    put_u32_be(&mut out, e.max_level);
    put_u64_be(&mut out, e.seq_no);
    put_u32_be(&mut out, e.add_files.len() as u32);
    put_u32_be(&mut out, e.del_file_ids.len() as u32);
    let ghost header = out@;
    let na = e.add_files.len();
    let mut i: usize = 0;
    proof {
        assert(e.add_files@.skip(0) =~= e.add_files@);
    }
    while i < na
        invariant
            i <= na,
            na == e.add_files@.len(),
            header + metas_bytes(e.add_files@) == out@ + metas_bytes(
                e.add_files@.skip(i as int)),
        decreases na - i,
    {
        let ghost tail = e.add_files@.skip(i as int);
        proof {
            assert(tail[0] == e.add_files@[i as int]);
            assert(tail.drop_first() =~= e.add_files@.skip(i + 1));
        }
        let m = e.add_files[i];
        put_u64_be(&mut out, m.file_id);
        put_u64_be(&mut out, m.file_size);
        put_u32_be(&mut out, m.tsf_id);
        put_u32_be(&mut out, m.level);
        put_i64_be(&mut out, m.min_ts);
        put_i64_be(&mut out, m.max_ts);
        proof {
            assert(header + metas_bytes(e.add_files@) =~= out@ + metas_bytes(
                e.add_files@.skip(i + 1)));
        }
        i = i + 1;
    }
    proof {
        assert(e.add_files@.skip(na as int) =~= Seq::<CompactMeta>::empty());
        assert(out@ =~= header + metas_bytes(e.add_files@));
    }
    let ghost with_metas = out@;
    let nd = e.del_file_ids.len();
    let mut k: usize = 0;
    proof {
        assert(e.del_file_ids@.skip(0) =~= e.del_file_ids@);
    }
    while k < nd
        invariant
            k <= nd,
            nd == e.del_file_ids@.len(),
            with_metas + ids_bytes(e.del_file_ids@) == out@ + ids_bytes(
                e.del_file_ids@.skip(k as int)),
        decreases nd - k,
    {
        let ghost tail = e.del_file_ids@.skip(k as int);
        proof {
            assert(tail[0] == e.del_file_ids@[k as int]);
            assert(tail.drop_first() =~= e.del_file_ids@.skip(k + 1));
        }
        put_u64_be(&mut out, e.del_file_ids[k]);
        proof {
            assert(with_metas + ids_bytes(e.del_file_ids@) =~= out@ + ids_bytes(
                e.del_file_ids@.skip(k + 1)));
        }
        k = k + 1;
    }
    proof {
        assert(e.del_file_ids@.skip(nd as int) =~= Seq::<u64>::empty());
        assert(out@ =~= with_metas + ids_bytes(e.del_file_ids@));
        assert(out@ =~= edit_payload(*e));
    }
    out
}

/// A product below a bound stays at or below the bound's quotient:
/// `k * n <= m` forces `n <= m / k`.
pub proof fn lemma_div_bound(n: int, k: int, m: int)
    requires
        k > 0,
        0 <= n,
        0 <= m,
        k * n <= m,
    ensures
        n <= m / k,
{
    assert(m == k * (m / k) + m % k && 0 <= m % k < k) by (nonlinear_arith)
        requires k > 0 && m >= 0;
    assert(n <= m / k) by (nonlinear_arith)
        requires k > 0 && k * n <= m && m == k * (m / k) + m % k && 0 <= m % k < k;
}

/// Decodes a record payload back into a version edit. `None` comes only
/// on a payload that is no encoding of an edit: on any encoded edit the
/// decode succeeds.
pub fn decode_version_edit(data: &Vec<u8>) -> (r: Option<VersionEdit>)
    ensures
        forall|e: VersionEdit|
            data@ == #[trigger] edit_payload(e) && e.add_files@.len() <= u32::MAX
                && e.del_file_ids@.len() <= u32::MAX ==> r is Some,
        match r {
            Some(e) => {
                &&& data@.len() == EDIT_HEADER_LEN + EDIT_META_LEN * e.add_files@.len() + 8
                    * e.del_file_ids@.len()
                &&& e.tsf_id == be_u32(data@.subrange(0, 4))
                &&& e.max_level == be_u32(data@.subrange(4, 8))
                &&& e.seq_no == be_u64(data@.subrange(8, 16))
                &&& e.add_files@.len() == be_u32(data@.subrange(16, 20))
                &&& e.del_file_ids@.len() == be_u32(data@.subrange(20, 24))
                &&& forall|j: int|
                    0 <= j < e.add_files@.len() ==> (#[trigger] e.add_files@[j]) == parse_meta(
                        data@,
                        EDIT_HEADER_LEN + EDIT_META_LEN * j,
                    )
                &&& forall|j: int|
                    0 <= j < e.del_file_ids@.len() ==> (#[trigger] e.del_file_ids@[j]) == be_u64(
                        data@.subrange(
                            EDIT_HEADER_LEN + EDIT_META_LEN * e.add_files@.len() + 8 * j,
                            EDIT_HEADER_LEN + EDIT_META_LEN * e.add_files@.len() + 8 * j + 8,
                        ),
                    )
            },
            None => true,
        },
{
    let total = data.len();
    if total < EDIT_HEADER_LEN {
        proof {
            assert forall|e: VersionEdit|
                data@ == #[trigger] edit_payload(e) && e.add_files@.len() <= u32::MAX
                    && e.del_file_ids@.len() <= u32::MAX implies false by {
                lemma_metas_bytes_len(e.add_files@);
                lemma_ids_bytes_len(e.del_file_ids@);
                assert(data@.len() >= EDIT_HEADER_LEN);
            }
        }
        return None;
    }
    let tsf_id = get_u32_be(data, 0);
    let max_level = get_u32_be(data, 4);
    let seq_no = get_u64_be(data, 8);
    let na = get_u32_be(data, 16) as usize;
    let nd = get_u32_be(data, 20) as usize;
    if na > (usize::MAX - EDIT_HEADER_LEN) / EDIT_META_LEN {
        proof {
            assert forall|e: VersionEdit|
                data@ == #[trigger] edit_payload(e) && e.add_files@.len() <= u32::MAX
                    && e.del_file_ids@.len() <= u32::MAX implies false by {
                lemma_edit_round_trip(e, data@);
                assert(na == e.add_files@.len());
                assert(EDIT_META_LEN * na <= usize::MAX - EDIT_HEADER_LEN);
                lemma_div_bound(na as int, EDIT_META_LEN as int,
                    (usize::MAX - EDIT_HEADER_LEN) as int);
            }
        }
        return None;
    }
    let metas_end = EDIT_HEADER_LEN + na * EDIT_META_LEN;
    if nd > (usize::MAX - metas_end) / 8 {
        proof {
            assert forall|e: VersionEdit|
                data@ == #[trigger] edit_payload(e) && e.add_files@.len() <= u32::MAX
                    && e.del_file_ids@.len() <= u32::MAX implies false by {
                lemma_edit_round_trip(e, data@);
                assert(na == e.add_files@.len() && nd == e.del_file_ids@.len());
                assert(8 * nd <= usize::MAX - metas_end);
                lemma_div_bound(nd as int, 8, (usize::MAX - metas_end) as int);
            }
        }
        return None;
    }
    if total != metas_end + nd * 8 {
        proof {
            assert forall|e: VersionEdit|
                data@ == #[trigger] edit_payload(e) && e.add_files@.len() <= u32::MAX
                    && e.del_file_ids@.len() <= u32::MAX implies false by {
                lemma_edit_round_trip(e, data@);
                assert(na == e.add_files@.len() && nd == e.del_file_ids@.len());
                assert(total == metas_end + nd * 8);
            }
        }
        return None;
    }
    let mut add_files: Vec<CompactMeta> = Vec::new();
    let mut j: usize = 0;
    while j < na
        invariant
            j <= na,
            total == data@.len(),
            EDIT_HEADER_LEN + na * EDIT_META_LEN <= total,
            add_files@.len() == j,
            forall|q: int|
                0 <= q < j ==> (#[trigger] add_files@[q]) == parse_meta(
                    data@,
                    EDIT_HEADER_LEN + EDIT_META_LEN * q,
                ),
        decreases na - j,
    {
        let off = EDIT_HEADER_LEN + j * EDIT_META_LEN;
        let m = CompactMeta {
            file_id: get_u64_be(data, off),
            file_size: get_u64_be(data, off + 8),
            tsf_id: get_u32_be(data, off + 16),
            level: get_u32_be(data, off + 20),
            min_ts: get_i64_be(data, off + 24),
            max_ts: get_i64_be(data, off + 32),
        };
        add_files.push(m);
        j = j + 1;
    }
    let mut del_file_ids: Vec<u64> = Vec::new();
    let mut k: usize = 0;
    while k < nd
        invariant
            k <= nd,
            total == data@.len(),
            metas_end == EDIT_HEADER_LEN + na * EDIT_META_LEN,
            metas_end + nd * 8 <= total,
            del_file_ids@.len() == k,
            forall|q: int|
                0 <= q < k ==> (#[trigger] del_file_ids@[q]) == be_u64(
                    data@.subrange(metas_end + 8 * q, metas_end + 8 * q + 8),
                ),
        decreases nd - k,
    {
        let id = get_u64_be(data, metas_end + k * 8);
        del_file_ids.push(id);
        k = k + 1;
    }
    Some(VersionEdit { add_files, del_file_ids, max_level, seq_no, tsf_id })
}

/// Decoding an encoded edit gives the edit back, field for field: summary
/// records survive a close and reopen.
pub proof fn lemma_edit_round_trip(e: VersionEdit, data: Seq<u8>)
    requires
        e.add_files@.len() <= u32::MAX,
        e.del_file_ids@.len() <= u32::MAX,
        data == edit_payload(e),
    ensures
        data.len() == EDIT_HEADER_LEN + EDIT_META_LEN * e.add_files@.len() + 8
            * e.del_file_ids@.len(),
        be_u32(data.subrange(0, 4)) == e.tsf_id,
        be_u32(data.subrange(4, 8)) == e.max_level,
        be_u64(data.subrange(8, 16)) == e.seq_no,
        be_u32(data.subrange(16, 20)) == e.add_files@.len(),
        be_u32(data.subrange(20, 24)) == e.del_file_ids@.len(),
        forall|j: int|
            0 <= j < e.add_files@.len() ==> parse_meta(
                data,
                EDIT_HEADER_LEN + EDIT_META_LEN * j,
            ) == (#[trigger] e.add_files@[j]),
        forall|j: int|
            0 <= j < e.del_file_ids@.len() ==> be_u64(
                data.subrange(
                    EDIT_HEADER_LEN + EDIT_META_LEN * e.add_files@.len() + 8 * j,
                    EDIT_HEADER_LEN + EDIT_META_LEN * e.add_files@.len() + 8 * j + 8,
                ),
            ) == (#[trigger] e.del_file_ids@[j]),
{
    lemma_metas_bytes_len(e.add_files@);
    lemma_ids_bytes_len(e.del_file_ids@);
    let na = e.add_files@.len() as int;
    let nd = e.del_file_ids@.len() as int;
    assert(data.subrange(0, 4) =~= u32_be(e.tsf_id));
    assert(data.subrange(4, 8) =~= u32_be(e.max_level));
    assert(data.subrange(8, 16) =~= u64_be(e.seq_no));
    assert(data.subrange(16, 20) =~= u32_be(e.add_files@.len() as u32));
    assert(data.subrange(20, 24) =~= u32_be(e.del_file_ids@.len() as u32));
    lemma_u32_be_round_trip(e.tsf_id);
    lemma_u32_be_round_trip(e.max_level);
    lemma_u64_be_round_trip(e.seq_no);
    lemma_u32_be_round_trip(e.add_files@.len() as u32);
    lemma_u32_be_round_trip(e.del_file_ids@.len() as u32);
    assert forall|j: int| 0 <= j < na implies parse_meta(
        data,
        EDIT_HEADER_LEN + EDIT_META_LEN * j,
    ) == (#[trigger] e.add_files@[j]) by {
        lemma_metas_bytes_at(e.add_files@, j);
        assert(data.subrange(
            EDIT_HEADER_LEN + EDIT_META_LEN * j,
            EDIT_HEADER_LEN + EDIT_META_LEN * (j + 1),
        ) =~= metas_bytes(e.add_files@).subrange(
            EDIT_META_LEN * j,
            EDIT_META_LEN * (j + 1),
        ));
        lemma_meta_round_trip(e.add_files@[j], data, EDIT_HEADER_LEN + EDIT_META_LEN * j);
    }
    assert forall|j: int| 0 <= j < nd implies be_u64(
        data.subrange(
            EDIT_HEADER_LEN + EDIT_META_LEN * na + 8 * j,
            EDIT_HEADER_LEN + EDIT_META_LEN * na + 8 * j + 8,
        ),
    ) == (#[trigger] e.del_file_ids@[j]) by {
        lemma_ids_bytes_at(e.del_file_ids@, j);
        assert(data.subrange(
            EDIT_HEADER_LEN + EDIT_META_LEN * na + 8 * j,
            EDIT_HEADER_LEN + EDIT_META_LEN * na + 8 * j + 8,
        ) =~= ids_bytes(e.del_file_ids@).subrange(8 * j, 8 * (j + 1)));
        lemma_u64_be_round_trip(e.del_file_ids@[j]);
    }
}

/// The files live after replaying a sequence of edits onto a file list.
pub open spec fn replay_files(files: Seq<CompactMeta>, edits: Seq<VersionEdit>) -> Seq<CompactMeta>
    decreases edits.len(),
{
    if edits.len() == 0 {
        files
    } else {
        replay_files(apply_edit_spec(files, edits[0]), edits.drop_first())
    }
}

/// The `last_seq` after replaying a sequence of edits: each edit advances
/// it to its own `seq_no` when that is larger.
pub open spec fn replay_seq(acc: u64, edits: Seq<VersionEdit>) -> u64
    decreases edits.len(),
{
    if edits.len() == 0 {
        acc
    } else {
        replay_seq(
            if edits[0].seq_no > acc {
                edits[0].seq_no
            } else {
                acc
            },
            edits.drop_first(),
        )
    }
}

/// Appending one edit replays as applying it after the rest.
pub proof fn lemma_replay_push(files: Seq<CompactMeta>, acc: u64, edits: Seq<VersionEdit>, e: VersionEdit)
    ensures
        replay_files(files, edits.push(e)) == apply_edit_spec(replay_files(files, edits), e),
        replay_seq(acc, edits.push(e)) == if e.seq_no > replay_seq(acc, edits) {
            e.seq_no
        } else {
            replay_seq(acc, edits)
        },
    decreases edits.len(),
{
    if edits.len() == 0 {
        let p = edits.push(e);
        assert(p.drop_first() =~= Seq::<VersionEdit>::empty());
        assert(p[0] == e);
        assert(replay_files(apply_edit_spec(files, e), Seq::<VersionEdit>::empty())
            == apply_edit_spec(files, e));
        assert(replay_files(files, p) == replay_files(apply_edit_spec(files, p[0]), p.drop_first()));
        let acc2: u64 = if e.seq_no > acc { e.seq_no } else { acc };
        assert(replay_seq(acc2, Seq::<VersionEdit>::empty()) == acc2);
        assert(replay_seq(acc, p) == replay_seq(acc2, p.drop_first()));
        assert(replay_seq(acc, edits) == acc);
    } else {
        let p = edits.push(e);
        assert(p[0] == edits[0]);
        assert(p.drop_first() =~= edits.drop_first().push(e));
        assert(replay_files(files, p) == replay_files(apply_edit_spec(files, p[0]), p.drop_first()));
        let acc2: u64 = if edits[0].seq_no > acc { edits[0].seq_no } else { acc };
        assert(replay_seq(acc, p) == replay_seq(acc2, p.drop_first()));
        assert(replay_files(files, edits) == replay_files(
            apply_edit_spec(files, edits[0]), edits.drop_first()));
        assert(replay_seq(acc, edits) == replay_seq(acc2, edits.drop_first()));
        lemma_replay_push(
            apply_edit_spec(files, edits[0]),
            if edits[0].seq_no > acc {
                edits[0].seq_no
            } else {
                acc
            },
            edits.drop_first(),
            e,
        );
    }
}

/// The edit log of one storage instance, with its file-ID allocator.
pub struct Summary {
    edits: Vec<VersionEdit>,
    next_file_id: u64,
}

impl Summary {
    /// The edits, oldest first.
    pub closed spec fn spec_edits(self) -> Seq<VersionEdit> {
        self.edits@
    }

    /// The next column-file ID the allocator will hand out.
    pub closed spec fn spec_next_file_id(self) -> u64 {
        self.next_file_id
    }

    /// Every admitted file ID lies below the allocator; added IDs grow
    /// strictly across edits; an ID added later is larger than any ID an
    /// earlier edit removed.
    pub open spec fn wf(self) -> bool {
        &&& forall|k: int, a: int|
            0 <= k < self.spec_edits().len() && 0 <= a < (#[trigger] self.spec_edits()[k]).add_files@.len()
                ==> (#[trigger] self.spec_edits()[k].add_files@[a]).file_id < self.spec_next_file_id()
        &&& forall|k: int, r: int|
            0 <= k < self.spec_edits().len() && 0 <= r < (#[trigger] self.spec_edits()[k]).del_file_ids@.len()
                ==> (#[trigger] self.spec_edits()[k].del_file_ids@[r]) < self.spec_next_file_id()
        &&& forall|k1: int, a1: int, k2: int, a2: int|
            0 <= k1 < k2 < self.spec_edits().len() && 0 <= a1
                < (#[trigger] self.spec_edits()[k1]).add_files@.len() && 0 <= a2
                < (#[trigger] self.spec_edits()[k2]).add_files@.len()
                ==> (#[trigger] self.spec_edits()[k1].add_files@[a1]).file_id
                < (#[trigger] self.spec_edits()[k2].add_files@[a2]).file_id
        &&& forall|k1: int, r1: int, k2: int, a2: int|
            0 <= k1 < k2 < self.spec_edits().len() && 0 <= r1
                < (#[trigger] self.spec_edits()[k1]).del_file_ids@.len() && 0 <= a2
                < (#[trigger] self.spec_edits()[k2]).add_files@.len()
                ==> (#[trigger] self.spec_edits()[k2].add_files@[a2]).file_id
                > (#[trigger] self.spec_edits()[k1].del_file_ids@[r1])
    }

    /// An empty log whose allocator starts at `next_file_id`.
    pub fn new(next_file_id: u64) -> (r: Summary)
        ensures
            r.wf(),
            r.spec_edits() == Seq::<VersionEdit>::empty(),
            r.spec_next_file_id() == next_file_id,
    {
        Summary { edits: Vec::new(), next_file_id }
    }

    pub fn edit_count(&self) -> (r: usize)
        ensures
            r == self.spec_edits().len(),
    {
        self.edits.len()
    }

    /// Allocates a fresh column-file ID; IDs are never reused.
    pub fn new_file_id(&mut self) -> (r: u64)
        requires
            old(self).wf(),
            old(self).spec_next_file_id() < u64::MAX,
        ensures
            final(self).wf(),
            r == old(self).spec_next_file_id(),
            final(self).spec_next_file_id() == r + 1,
            final(self).spec_edits() == old(self).spec_edits(),
    {
        let r = self.next_file_id;
        self.next_file_id = r + 1;
        proof {
            assert(self.spec_edits() == old(self).spec_edits());
            assert(self.spec_next_file_id() == r + 1);
            assert(self.wf()) by {
                assert forall|k: int, a: int|
                    0 <= k < self.spec_edits().len() && 0 <= a
                        < (#[trigger] self.spec_edits()[k]).add_files@.len() implies (
                    #[trigger] self.spec_edits()[k].add_files@[a]).file_id
                    < self.spec_next_file_id() by {
                    assert(old(self).spec_edits()[k].add_files@[a].file_id
                        < old(self).spec_next_file_id());
                }
                assert forall|k: int, q: int|
                    0 <= k < self.spec_edits().len() && 0 <= q
                        < (#[trigger] self.spec_edits()[k]).del_file_ids@.len() implies (
                    #[trigger] self.spec_edits()[k].del_file_ids@[q])
                    < self.spec_next_file_id() by {
                    assert(old(self).spec_edits()[k].del_file_ids@[q]
                        < old(self).spec_next_file_id());
                }
            }
        }
        r
    }

    /// Appends one edit. Every added file must carry an ID the allocator
    /// handed out since the last append (at or above every ID the log has
    /// seen), and every removed ID must be one the log admitted earlier.
    /// The caller must make the appended record durable before publishing
    /// the version it describes.
    pub fn append_edit(&mut self, edit: VersionEdit)
        requires
            old(self).wf(),
            forall|a: int|
                0 <= a < edit.add_files@.len() ==> (#[trigger] edit.add_files@[a]).file_id
                    < old(self).spec_next_file_id(),
            forall|k: int, a0: int, a: int|
                0 <= k < old(self).spec_edits().len() && 0 <= a0
                    < (#[trigger] old(self).spec_edits()[k]).add_files@.len() && 0 <= a
                    < edit.add_files@.len()
                    ==> (#[trigger] edit.add_files@[a]).file_id
                    > (#[trigger] old(self).spec_edits()[k].add_files@[a0]).file_id,
            forall|k: int, r0: int, a: int|
                0 <= k < old(self).spec_edits().len() && 0 <= r0
                    < (#[trigger] old(self).spec_edits()[k]).del_file_ids@.len() && 0 <= a
                    < edit.add_files@.len()
                    ==> (#[trigger] edit.add_files@[a]).file_id
                    > (#[trigger] old(self).spec_edits()[k].del_file_ids@[r0]),
            forall|r: int|
                0 <= r < edit.del_file_ids@.len() ==> (#[trigger] edit.del_file_ids@[r])
                    < old(self).spec_next_file_id(),
        ensures
            final(self).wf(),
            final(self).spec_edits() == old(self).spec_edits().push(edit),
            final(self).spec_next_file_id() == old(self).spec_next_file_id(),
    {
        self.edits.push(edit);
        proof {
            let es = self.edits@;
            let n = es.len() - 1;
            assert(forall|k: int| 0 <= k < n ==> es[k] == old(self).spec_edits()[k]);
            assert(es[n] == edit);
        }
    }

    /// Rebuilds a vnode's version by replaying the whole log onto an empty
    /// file set.
    pub fn replay(&self, tf_id: u32) -> (v: Version)
        ensures
            v.tf_id == tf_id,
            v.files@ == replay_files(Seq::empty(), self.spec_edits()),
            v.last_seq == replay_seq(0, self.spec_edits()),
    {
        let mut v = Version::new(tf_id);
        let n = self.edits.len();
        let mut i: usize = 0;
        proof {
            assert(self.edits@.skip(0) =~= self.edits@);
        }
        while i < n
            invariant
                i <= n,
                n == self.spec_edits().len(),
                v.tf_id == tf_id,
                replay_files(Seq::empty(), self.edits@) == replay_files(
                    v.files@,
                    self.edits@.skip(i as int),
                ),
                replay_seq(0, self.edits@) == replay_seq(v.last_seq, self.edits@.skip(i as int)),
            decreases n - i,
        {
            let ghost tail = self.edits@.skip(i as int);
            proof {
                assert(tail[0] == self.edits@[i as int]);
                assert(tail.drop_first() =~= self.edits@.skip(i + 1));
            }
            v.apply_edit(&self.edits[i]);
            i = i + 1;
        }
        proof {
            assert(self.edits@.skip(n as int) =~= Seq::<VersionEdit>::empty());
        }
        v
    }
}

/// Version acyclicity: a file ID that one edit of the summary removed is
/// never added again by a later edit.
pub proof fn lemma_no_file_reuse(s: Summary, k1: int, r1: int, k2: int, a2: int)
    requires
        s.wf(),
        0 <= k1 < k2 < s.spec_edits().len(),
        0 <= r1 < s.spec_edits()[k1].del_file_ids@.len(),
        0 <= a2 < s.spec_edits()[k2].add_files@.len(),
    ensures
        s.spec_edits()[k2].add_files@[a2].file_id != s.spec_edits()[k1].del_file_ids@[r1],
{
}

} // verus!
