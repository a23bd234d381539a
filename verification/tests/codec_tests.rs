use tskv::codec::{
    RECORD_TYPE_TOMBSTONE, RECORD_TYPE_WAL, RECORD_VERSION_V1, encode_record, scan_records,
};

#[test]
fn record_round_trip() {
    let payload: Vec<u8> = vec![1, 2, 3, 4, 5];
    let bytes = encode_record(RECORD_VERSION_V1, RECORD_TYPE_WAL, &payload);
    let records = scan_records(&bytes);
    assert_eq!(records.len(), 1);
    assert_eq!(records[0].data_version, RECORD_VERSION_V1);
    assert_eq!(records[0].data_type, RECORD_TYPE_WAL);
    assert_eq!(records[0].payload, payload);
}

#[test]
fn corrupt_record_is_skipped_not_fatal() {
    // Corruption of one record must not poison later records.
    let mut bytes = encode_record(RECORD_VERSION_V1, RECORD_TYPE_WAL, &vec![9, 9, 9, 9]);
    let second = encode_record(RECORD_VERSION_V1, RECORD_TYPE_TOMBSTONE, &vec![7, 7]);
    bytes[10] ^= 0xff; // flip one payload byte of the first record
    bytes.extend_from_slice(&second);
    let records = scan_records(&bytes);
    assert_eq!(records.len(), 1);
    assert_eq!(records[0].data_type, RECORD_TYPE_TOMBSTONE);
    assert_eq!(records[0].payload, vec![7, 7]);
}

#[test]
fn truncated_tail_ends_scan() {
    let mut bytes = encode_record(RECORD_VERSION_V1, RECORD_TYPE_WAL, &vec![1, 2, 3]);
    let full = scan_records(&bytes).len();
    assert_eq!(full, 1);
    bytes.pop();
    assert_eq!(scan_records(&bytes).len(), 0);
}

#[test]
fn integer_codec_round_trips() {
    let mut buf: Vec<u8> = Vec::new();
    tskv::codec::put_u64_be(&mut buf, 0x0102030405060708);
    tskv::codec::put_u32_be(&mut buf, 0xdeadbeef);
    tskv::codec::put_i64_be(&mut buf, -5);
    assert_eq!(buf.len(), 20);
    assert_eq!(buf[0..8], [1, 2, 3, 4, 5, 6, 7, 8]);
    assert_eq!(tskv::codec::get_u64_be(&buf, 0), 0x0102030405060708);
    assert_eq!(tskv::codec::get_u32_be(&buf, 8), 0xdeadbeef);
    assert_eq!(tskv::codec::get_i64_be(&buf, 12), -5);
}

#[test]
fn version_edit_round_trips_through_record_payload() {
    let edit = tskv::version::VersionEdit {
        add_files: vec![
            tskv::version::CompactMeta {
                file_id: 7,
                file_size: 4096,
                tsf_id: 2,
                level: 1,
                min_ts: -10,
                max_ts: 99,
            },
            tskv::version::CompactMeta {
                file_id: 8,
                file_size: 8192,
                tsf_id: 2,
                level: 1,
                min_ts: 100,
                max_ts: 200,
            },
        ],
        del_file_ids: vec![3, 4],
        max_level: 1,
        seq_no: 55,
        tsf_id: 2,
    };
    let payload = tskv::summary::encode_version_edit(&edit);
    let back = tskv::summary::decode_version_edit(&payload).unwrap();
    assert_eq!(back.tsf_id, 2);
    assert_eq!(back.max_level, 1);
    assert_eq!(back.seq_no, 55);
    assert_eq!(back.add_files, edit.add_files);
    assert_eq!(back.del_file_ids, vec![3, 4]);

    // A summary record wraps the payload in the shared record format.
    let record = tskv::codec::encode_record(
        tskv::codec::RECORD_VERSION_V1,
        tskv::codec::RECORD_TYPE_SUMMARY,
        &payload,
    );
    let scanned = tskv::codec::scan_records(&record);
    assert_eq!(scanned.len(), 1);
    let again = tskv::summary::decode_version_edit(&scanned[0].payload).unwrap();
    assert_eq!(again.add_files, edit.add_files);

    assert!(tskv::summary::decode_version_edit(&vec![1, 2, 3]).is_none());
}
