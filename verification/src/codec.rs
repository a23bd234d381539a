//! Record-file codec: the length-prefixed, CRC-checked append-only format
//! shared by the write-ahead log, tombstone and summary files.
//!
//! One record is laid out as
//! `magic(4) | version(1) | type(1) | payload_len(4) | payload | crc32(4)`,
//! where the checksum covers everything between the magic and the checksum
//! itself. Readers validate the checksum; a record that fails validation is
//! skipped and scanning continues, so one corrupt record does not poison the
//! records after it.

use vstd::prelude::*;

verus! {

/// Magic bytes standing at the head of every record.
pub const RECORD_MAGIC_0: u8 = 0x54;
pub const RECORD_MAGIC_1: u8 = 0x53;
pub const RECORD_MAGIC_2: u8 = 0x4b;
pub const RECORD_MAGIC_3: u8 = 0x56;

/// Bytes of one record besides its payload: magic (4), version (1),
/// type (1), payload length (4) and checksum (4).
pub const RECORD_OVERHEAD: usize = 14;

/// Record data version written by this engine.
pub const RECORD_VERSION_V1: u8 = 1;

/// Record type of a write-ahead-log batch.
pub const RECORD_TYPE_WAL: u8 = 1;

/// Record type of a tombstone entry.
pub const RECORD_TYPE_TOMBSTONE: u8 = 2;

/// Record type of a summary version edit.
pub const RECORD_TYPE_SUMMARY: u8 = 3;

/// What `crc32fast::hash` returns for a byte string.
pub uninterp spec fn crc32_of(data: Seq<u8>) -> u32;

/// Relies on `crc32fast::hash`: the CRC-32 checksum of a byte slice,
/// a function of the bytes alone.
#[verifier::external_body]
pub fn crc32(data: &[u8]) -> (r: u32)
    ensures
        r == crc32_of(data@),
{
    crc32fast::hash(data)
}

/// The big-endian byte at position `k` (0 = most significant) of a `u64`.
pub open spec fn u64_byte(x: u64, k: int) -> u8 {
    (((x >> (8 * (7 - k)) as u64) & 0xff) as u8)
}

/// Big-endian encoding of a `u64`.
pub open spec fn u64_be(x: u64) -> Seq<u8> {
    Seq::new(8, |k: int| u64_byte(x, k))
}

/// The `u64` read big-endian from 8 bytes.
pub open spec fn be_u64(s: Seq<u8>) -> u64
    recommends
        s.len() == 8,
{
    ((s[0] as u64) << 56u64) | ((s[1] as u64) << 48u64) | ((s[2] as u64) << 40u64)
        | ((s[3] as u64) << 32u64) | ((s[4] as u64) << 24u64) | ((s[5] as u64) << 16u64)
        | ((s[6] as u64) << 8u64) | (s[7] as u64)
}

/// The big-endian byte at position `k` (0 = most significant) of a `u32`.
pub open spec fn u32_byte(x: u32, k: int) -> u8 {
    (((x >> (8 * (3 - k)) as u32) & 0xff) as u8)
}

/// Big-endian encoding of a `u32`.
pub open spec fn u32_be(x: u32) -> Seq<u8> {
    Seq::new(4, |k: int| u32_byte(x, k))
}

/// The `u32` read big-endian from 4 bytes.
pub open spec fn be_u32(s: Seq<u8>) -> u32
    recommends
        s.len() == 4,
{
    ((s[0] as u32) << 24u32) | ((s[1] as u32) << 16u32) | ((s[2] as u32) << 8u32) | (s[3] as u32)
}

/// Big-endian encoding of an `i64`, through its two's-complement bits.
pub open spec fn i64_be(x: i64) -> Seq<u8> {
    u64_be(x as u64)
}

/// The `i64` read big-endian from 8 bytes.
pub open spec fn be_i64(s: Seq<u8>) -> i64
    recommends
        s.len() == 8,
{
    be_u64(s) as i64
}

/// Reading back the 8 bytes of a `u64` gives the `u64` itself.
pub proof fn lemma_u64_be_round_trip(x: u64)
    ensures
        be_u64(u64_be(x)) == x,
{
    assert(
        (((((x >> 56u64) & 0xff) as u8) as u64) << 56u64
            | ((((x >> 48u64) & 0xff) as u8) as u64) << 48u64
            | ((((x >> 40u64) & 0xff) as u8) as u64) << 40u64
            | ((((x >> 32u64) & 0xff) as u8) as u64) << 32u64
            | ((((x >> 24u64) & 0xff) as u8) as u64) << 24u64
            | ((((x >> 16u64) & 0xff) as u8) as u64) << 16u64
            | ((((x >> 8u64) & 0xff) as u8) as u64) << 8u64
            | ((((x >> 0u64) & 0xff) as u8) as u64)) == x) by (bit_vector);
    assert(u64_be(x)[0] == u64_byte(x, 0));
    assert(be_u64(u64_be(x)) == x);
}

/// Reading back the 4 bytes of a `u32` gives the `u32` itself.
pub proof fn lemma_u32_be_round_trip(x: u32)
    ensures
        be_u32(u32_be(x)) == x,
{
    assert(
        (((((x >> 24u32) & 0xff) as u8) as u32) << 24u32
            | ((((x >> 16u32) & 0xff) as u8) as u32) << 16u32
            | ((((x >> 8u32) & 0xff) as u8) as u32) << 8u32
            | ((((x >> 0u32) & 0xff) as u8) as u32)) == x) by (bit_vector);
    assert(u32_be(x)[0] == u32_byte(x, 0));
    assert(be_u32(u32_be(x)) == x);
}

/// Reading back the 8 bytes of an `i64` gives the `i64` itself.
pub proof fn lemma_i64_be_round_trip(x: i64)
    ensures
        be_i64(i64_be(x)) == x,
{
    lemma_u64_be_round_trip(x as u64);
    assert(((x as u64) as i64) == x) by (bit_vector);
}

/// The low byte of a machine word.
fn low_byte(x: u64) -> (r: u8)
    ensures
        r == ((x & 0xff) as u8),
{
    assert((x & 0xff) < 256) by (bit_vector);
    (x & 0xff) as u8
}

/// Appends the big-endian bytes of a `u64` to a buffer.
pub fn put_u64_be(out: &mut Vec<u8>, x: u64)
    ensures
        final(out)@ == old(out)@ + u64_be(x),
{
    out.push(low_byte(x >> 56u64));
    out.push(low_byte(x >> 48u64));
    out.push(low_byte(x >> 40u64));
    out.push(low_byte(x >> 32u64));
    out.push(low_byte(x >> 24u64));
    out.push(low_byte(x >> 16u64));
    out.push(low_byte(x >> 8u64));
    out.push(low_byte(x));
    assert(((x >> 0u64) & 0xff) == (x & 0xff)) by (bit_vector);
    assert(out@ =~= old(out)@ + u64_be(x));
}

/// Appends the big-endian bytes of a `u32` to a buffer.
pub fn put_u32_be(out: &mut Vec<u8>, x: u32)
    ensures
        final(out)@ == old(out)@ + u32_be(x),
{
    let w: u64 = x as u64;
    assert(((w >> 24u64) & 0xff) as u8 == ((x >> 24u32) & 0xff) as u8) by (bit_vector)
        requires w == x as u64;
    assert(((w >> 16u64) & 0xff) as u8 == ((x >> 16u32) & 0xff) as u8) by (bit_vector)
        requires w == x as u64;
    assert(((w >> 8u64) & 0xff) as u8 == ((x >> 8u32) & 0xff) as u8) by (bit_vector)
        requires w == x as u64;
    assert((w & 0xff) as u8 == ((x >> 0u32) & 0xff) as u8) by (bit_vector)
        requires w == x as u64;
    out.push(low_byte(w >> 24u64));
    out.push(low_byte(w >> 16u64));
    out.push(low_byte(w >> 8u64));
    out.push(low_byte(w));
    assert(out@ =~= old(out)@ + u32_be(x));
}

/// Appends the big-endian bytes of an `i64` to a buffer.
pub fn put_i64_be(out: &mut Vec<u8>, x: i64)
    ensures
        final(out)@ == old(out)@ + i64_be(x),
{
    put_u64_be(out, x as u64);
}

/// Reads a big-endian `u64` at `pos`.
pub fn get_u64_be(data: &Vec<u8>, pos: usize) -> (r: u64)
    requires
        pos + 8 <= data@.len(),
    ensures
        r == be_u64(data@.subrange(pos as int, pos + 8)),
{
    let n: usize = data.len();
    let r: u64 = ((data[pos] as u64) << 56u64) | ((data[pos + 1] as u64) << 48u64)
        | ((data[pos + 2] as u64) << 40u64) | ((data[pos + 3] as u64) << 32u64)
        | ((data[pos + 4] as u64) << 24u64) | ((data[pos + 5] as u64) << 16u64)
        | ((data[pos + 6] as u64) << 8u64) | (data[pos + 7] as u64);
    assert(data@.subrange(pos as int, pos + 8)[0] == data@[pos as int]);
    r
}

/// Reads a big-endian `u32` at `pos`.
pub fn get_u32_be(data: &Vec<u8>, pos: usize) -> (r: u32)
    requires
        pos + 4 <= data@.len(),
    ensures
        r == be_u32(data@.subrange(pos as int, pos + 4)),
{
    let n: usize = data.len();
    let r: u32 = ((data[pos] as u32) << 24u32) | ((data[pos + 1] as u32) << 16u32)
        | ((data[pos + 2] as u32) << 8u32) | (data[pos + 3] as u32);
    assert(data@.subrange(pos as int, pos + 4)[0] == data@[pos as int]);
    r
}

/// Reads a big-endian `i64` at `pos`.
pub fn get_i64_be(data: &Vec<u8>, pos: usize) -> (r: i64)
    requires
        pos + 8 <= data@.len(),
    ensures
        r == be_i64(data@.subrange(pos as int, pos + 8)),
{
    let w = get_u64_be(data, pos);
    w as i64
}


/// The four magic bytes as a byte string.
pub open spec fn magic_seq() -> Seq<u8> {
    seq![RECORD_MAGIC_0, RECORD_MAGIC_1, RECORD_MAGIC_2, RECORD_MAGIC_3]
}

/// The checksummed part of a record: version, type, payload length, payload.
pub open spec fn record_body(ver: u8, rtype: u8, payload: Seq<u8>) -> Seq<u8> {
    seq![ver, rtype] + u32_be(payload.len() as u32) + payload
}

/// The full encoding of one record.
pub open spec fn record_bytes(ver: u8, rtype: u8, payload: Seq<u8>) -> Seq<u8> {
    magic_seq() + record_body(ver, rtype, payload) + u32_be(crc32_of(record_body(ver, rtype, payload)))
}

/// One record as a reader returns it.
pub struct RecordEntry {
    pub data_version: u8,
    pub data_type: u8,
    pub payload: Vec<u8>,
}

impl View for RecordEntry {
    type V = (u8, u8, Seq<u8>);

    open spec fn view(&self) -> (u8, u8, Seq<u8>) {
        (self.data_version, self.data_type, self.payload@)
    }
}

/// The records a scan of a byte string yields: records whose checksum
/// validates, in order; a record whose checksum fails is skipped; scanning
/// stops at a bad magic or a truncated tail.
pub open spec fn spec_scan(data: Seq<u8>) -> Seq<(u8, u8, Seq<u8>)>
    decreases data.len(),
{
    if data.len() < RECORD_OVERHEAD {
        Seq::empty()
    } else if data.subrange(0, 4) != magic_seq() {
        Seq::empty()
    } else {
        let plen = be_u32(data.subrange(6, 10)) as int;
        if RECORD_OVERHEAD + plen > data.len() {
            Seq::empty()
        } else {
            let body = data.subrange(4, 10 + plen);
            let stored = be_u32(data.subrange(10 + plen, 14 + plen));
            let rest = data.skip(RECORD_OVERHEAD + plen);
            if stored == crc32_of(body) {
                seq![(data[4], data[5], data.subrange(10, 10 + plen))] + spec_scan(rest)
            } else {
                spec_scan(rest)
            }
        }
    }
}

/// Copies `data[from..to]` onto the end of `out`.
pub fn push_bytes(out: &mut Vec<u8>, data: &Vec<u8>, from: usize, to: usize)
    requires
        from <= to <= data@.len(),
    ensures
        final(out)@ == old(out)@ + data@.subrange(from as int, to as int),
{
    let mut i: usize = from;
    while i < to
        invariant
            from <= i <= to <= data@.len(),
            out@ == old(out)@ + data@.subrange(from as int, i as int),
        decreases to - i,
    {
        out.push(data[i]);
        assert(out@ =~= old(out)@ + data@.subrange(from as int, i + 1));
        i = i + 1;
    }
    assert(final(out)@ =~= old(out)@ + data@.subrange(from as int, to as int));
}

/// Encodes one record: magic, version, type, payload length, payload,
/// CRC-32 of everything between the magic and the checksum.
pub fn encode_record(ver: u8, rtype: u8, payload: &Vec<u8>) -> (out: Vec<u8>)
    requires
        payload@.len() <= u32::MAX,
    ensures
        out@ == record_bytes(ver, rtype, payload@),
{
    let plen = payload.len();
    let mut body: Vec<u8> = Vec::new();
    body.push(ver);
    body.push(rtype);
    put_u32_be(&mut body, plen as u32);
    assert(body@ =~= seq![ver, rtype] + u32_be(plen as u32));
    push_bytes(&mut body, payload, 0, plen);
    assert(payload@.subrange(0, plen as int) =~= payload@);
    assert(body@ == record_body(ver, rtype, payload@));

    let checksum = crc32(body.as_slice());
    let mut out: Vec<u8> = Vec::new();
    out.push(RECORD_MAGIC_0);
    out.push(RECORD_MAGIC_1);
    out.push(RECORD_MAGIC_2);
    out.push(RECORD_MAGIC_3);
    assert(out@ =~= magic_seq());
    push_bytes(&mut out, &body, 0, body.len());
    assert(body@.subrange(0, body@.len() as int) =~= body@);
    put_u32_be(&mut out, checksum);
    assert(out@ =~= record_bytes(ver, rtype, payload@));
    out
}

/// Scans a byte string for records, returning those whose checksum
/// validates, in order, and skipping those whose checksum fails.
pub fn scan_records(data: &Vec<u8>) -> (out: Vec<RecordEntry>)
    ensures
        out@.map_values(|e: RecordEntry| e@) == spec_scan(data@),
{
    let n = data.len();
    let mut out: Vec<RecordEntry> = Vec::new();
    let mut pos: usize = 0;
    proof {
        assert(data@.skip(0) =~= data@);
        assert(out@.map_values(|e: RecordEntry| e@) =~= Seq::<(u8, u8, Seq<u8>)>::empty());
    }
    loop
        invariant
            pos <= n,
            n == data@.len(),
            spec_scan(data@) == out@.map_values(|e: RecordEntry| e@) + spec_scan(data@.skip(pos as int)),
        ensures
            out@.map_values(|e: RecordEntry| e@) == spec_scan(data@),
        decreases n - pos,
    {
        let ghost tail = data@.skip(pos as int);
        if n - pos < RECORD_OVERHEAD {
            assert(spec_scan(tail) =~= Seq::empty());
            break;
        }
        assert(forall|k: int| 0 <= k < tail.len() ==> tail[k] == data@[pos + k]);
        if !(data[pos] == RECORD_MAGIC_0 && data[pos + 1] == RECORD_MAGIC_1
            && data[pos + 2] == RECORD_MAGIC_2 && data[pos + 3] == RECORD_MAGIC_3) {
            proof {
                let sub = tail.subrange(0, 4);
                if sub == magic_seq() {
                    assert(tail[0] == RECORD_MAGIC_0 && tail[1] == RECORD_MAGIC_1
                        && tail[2] == RECORD_MAGIC_2 && tail[3] == RECORD_MAGIC_3) by {
                        assert(sub[0] == tail[0] && sub[1] == tail[1] && sub[2] == tail[2]
                            && sub[3] == tail[3]);
                    }
                }
            }
            assert(spec_scan(tail) =~= Seq::empty());
            break;
        }
        assert(tail.subrange(0, 4) =~= magic_seq());
        let plen32 = get_u32_be(data, pos + 6);
        assert(data@.subrange(pos + 6, pos + 10) =~= tail.subrange(6, 10));
        let plen = plen32 as usize;
        if n - pos - RECORD_OVERHEAD < plen {
            assert(spec_scan(tail) =~= Seq::empty());
            break;
        }
        let body_end = pos + 10 + plen;
        let mut body: Vec<u8> = Vec::new();
        push_bytes(&mut body, data, pos + 4, body_end);
        assert(body@ =~= tail.subrange(4, 10 + plen as int));
        let computed = crc32(body.as_slice());
        let stored = get_u32_be(data, body_end);
        assert(data@.subrange(body_end as int, body_end + 4) =~= tail.subrange(
            10 + plen as int, 14 + plen as int));
        let next = pos + RECORD_OVERHEAD + plen;
        assert(data@.skip(next as int) =~= tail.skip(RECORD_OVERHEAD + plen as int));
        if stored == computed {
            let mut payload: Vec<u8> = Vec::new();
            push_bytes(&mut payload, data, pos + 10, body_end);
            assert(payload@ =~= tail.subrange(10, 10 + plen as int));
            let entry = RecordEntry { data_version: data[pos + 4], data_type: data[pos + 5], payload };
            proof {
                let ghost prev = out@.map_values(|e: RecordEntry| e@);
                assert((out@ + seq![entry]).map_values(|e: RecordEntry| e@) =~= prev + seq![entry@]);
            }
            out.push(entry);
            assert(spec_scan(tail) == seq![(tail[4], tail[5], tail.subrange(10, 10 + plen as int))]
                + spec_scan(tail.skip(RECORD_OVERHEAD + plen as int)));
            assert(spec_scan(data@) == out@.map_values(|e: RecordEntry| e@)
                + spec_scan(data@.skip(next as int)));
        } else {
            assert(spec_scan(tail) == spec_scan(tail.skip(RECORD_OVERHEAD + plen as int)));
        }
        pos = next;
    }
    assert(data@.skip(pos as int) == data@.skip(pos as int));
    out
}

/// A valid record followed by anything scans as that record followed by a
/// scan of the rest.
pub proof fn lemma_scan_record_prepend(ver: u8, rtype: u8, payload: Seq<u8>, rest: Seq<u8>)
    requires
        payload.len() <= u32::MAX,
    ensures
        spec_scan(record_bytes(ver, rtype, payload) + rest)
            == seq![(ver, rtype, payload)] + spec_scan(rest),
{
    let body = record_body(ver, rtype, payload);
    let data = record_bytes(ver, rtype, payload) + rest;
    let plen = payload.len() as int;
    assert(data.len() >= RECORD_OVERHEAD + plen);
    assert(data.subrange(0, 4) =~= magic_seq());
    assert(data.subrange(6, 10) =~= u32_be(payload.len() as u32));
    lemma_u32_be_round_trip(payload.len() as u32);
    assert(be_u32(data.subrange(6, 10)) as int == plen);
    assert(data.subrange(4, 10 + plen) =~= body);
    assert(data.subrange(10 + plen, 14 + plen) =~= u32_be(crc32_of(body)));
    lemma_u32_be_round_trip(crc32_of(body));
    assert(data.skip(RECORD_OVERHEAD + plen) =~= rest);
    assert(data[4] == ver && data[5] == rtype);
    assert(data.subrange(10, 10 + plen) =~= payload);
}

/// A record whose stored checksum does not match its body is skipped: the
/// scan of the corrupt record followed by anything is the scan of the rest.
pub proof fn lemma_scan_skips_corrupt(
    ver: u8,
    rtype: u8,
    payload: Seq<u8>,
    bad_crc: u32,
    rest: Seq<u8>,
)
    requires
        payload.len() <= u32::MAX,
        bad_crc != crc32_of(record_body(ver, rtype, payload)),
    ensures
        spec_scan(magic_seq() + record_body(ver, rtype, payload) + u32_be(bad_crc) + rest)
            == spec_scan(rest),
{
    let body = record_body(ver, rtype, payload);
    let data = magic_seq() + body + u32_be(bad_crc) + rest;
    let plen = payload.len() as int;
    assert(data.len() >= RECORD_OVERHEAD + plen);
    assert(data.subrange(0, 4) =~= magic_seq());
    assert(data.subrange(6, 10) =~= u32_be(payload.len() as u32));
    lemma_u32_be_round_trip(payload.len() as u32);
    assert(be_u32(data.subrange(6, 10)) as int == plen);
    assert(data.subrange(4, 10 + plen) =~= body);
    assert(data.subrange(10 + plen, 14 + plen) =~= u32_be(bad_crc));
    lemma_u32_be_round_trip(bad_crc);
    assert(data.skip(RECORD_OVERHEAD + plen) =~= rest);
}

} // verus!
