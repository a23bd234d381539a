use tskv::memcache::Memcache;
use tskv::vnode::{VnodeStorage, VnodeDurable};
use tskv::wal::{Point, Wal};

fn one_point(series_id: u64, field_id: u64, ts: i64, val: u64) -> Vec<Point> {
    vec![Point { series_id, field_id, ts, val }]
}

#[test]
fn round_trip_one_point_survives_restart() {
    // Open a vnode, write one point, read it back; restart and read again.
    let mut vnode = VnodeStorage::open(1);
    let bits = 1.0f64.to_bits();
    let seq = vnode.write(
        String::from("cnosdb"),
        String::from("public"),
        0,
        one_point(10, 100, 5, bits),
    );
    assert_eq!(seq, 1);
    assert_eq!(vnode.read(10, 100, 5), Some(bits));
    assert_eq!(f64::from_bits(vnode.read(10, 100, 5).unwrap()), 1.0);

    let recovered = VnodeStorage::recover(vnode.durable);
    assert_eq!(recovered.read(10, 100, 5), Some(bits));
    assert_eq!(f64::from_bits(recovered.read(10, 100, 5).unwrap()), 1.0);
}

#[test]
fn flushed_point_survives_restart_with_higher_seq() {
    // Durability: after a flush the point lives in a column file; recovery
    // reproduces it and last_seq covers the acknowledged write.
    let mut vnode = VnodeStorage::open(1);
    let seq = vnode.write(String::from("t"), String::from("d"), 0, one_point(10, 100, 5, 42));
    vnode.flush();
    assert_eq!(vnode.version.last_seq, seq);
    assert_eq!(vnode.read(10, 100, 5), Some(42));

    let recovered = VnodeStorage::recover(vnode.durable);
    assert_eq!(recovered.version.last_seq, seq);
    assert_eq!(recovered.read(10, 100, 5), Some(42));
}

#[test]
fn orphan_file_is_reclaimed_on_restart() {
    // A crash between the column-file write and the summary append leaves
    // an orphan file; restart deletes it and rebuilds the memcache from
    // the log, with no duplicate points.
    let mut vnode = VnodeStorage::open(7);
    vnode.write(String::from("t"), String::from("d"), 0, one_point(1, 2, 3, 4));
    let mut durable: VnodeDurable = vnode.durable;
    // The crash happened after the file was written but before the summary
    // append: the directory holds a file the summary never admitted.
    durable.files.push(tskv::tsm::TsmFile {
        meta: tskv::version::CompactMeta {
            file_id: 0,
            file_size: 0,
            tsf_id: 7,
            level: 0,
            min_ts: 3,
            max_ts: 3,
        },
        bloom: tskv::bloom::BloomFilter::new(),
        blocks: Vec::new(),
    });
    let recovered = VnodeStorage::recover(durable);
    assert_eq!(recovered.durable.files.len(), 0);
    assert_eq!(recovered.read(1, 2, 3), Some(4));
    assert_eq!(recovered.version.files.len(), 0);
}

#[test]
fn flush_then_compact_spans_both_windows() {
    // Two flushes of disjoint time windows give two level-0 files; their
    // merge spans both windows and holds no duplicate timestamps.
    let mut vnode = VnodeStorage::open(1);
    vnode.write(
        String::from("t"),
        String::from("d"),
        0,
        vec![
            Point { series_id: 1, field_id: 9, ts: 10, val: 1 },
            Point { series_id: 1, field_id: 9, ts: 11, val: 2 },
        ],
    );
    vnode.flush();
    vnode.write(
        String::from("t"),
        String::from("d"),
        0,
        vec![
            Point { series_id: 1, field_id: 9, ts: 100, val: 3 },
            Point { series_id: 1, field_id: 9, ts: 101, val: 4 },
        ],
    );
    vnode.flush();
    assert_eq!(vnode.durable.files.len(), 2);

    let mut inputs = Vec::new();
    for file in vnode.durable.files.into_iter() {
        for (_sf, block) in file.blocks.into_iter() {
            inputs.push(block);
        }
    }
    let merged = tskv::compaction::compact_blocks(
        &inputs,
        &tskv::tombstone::TsmTombstone::new(),
        9,
        0,
    );
    let range = merged.time_range().unwrap();
    assert_eq!(range.min_ts, 10);
    assert_eq!(range.max_ts, 101);
    assert_eq!(merged.len(), 4);
    assert_eq!(merged.get(10), Some(1));
    assert_eq!(merged.get(101), Some(4));
}

#[test]
fn compact_publishes_one_level1_file_spanning_both_windows() {
    // Two flushes of disjoint windows, then the version-level compaction:
    // the published version holds exactly one live file, at level 1,
    // spanning both windows, with no duplicate entries per field.
    let mut vnode = VnodeStorage::open(1);
    vnode.write(
        String::from("t"),
        String::from("d"),
        0,
        vec![
            Point { series_id: 1, field_id: 9, ts: 10, val: 1 },
            Point { series_id: 1, field_id: 9, ts: 11, val: 2 },
        ],
    );
    vnode.flush();
    vnode.write(
        String::from("t"),
        String::from("d"),
        0,
        vec![
            Point { series_id: 1, field_id: 9, ts: 100, val: 3 },
            Point { series_id: 1, field_id: 9, ts: 101, val: 4 },
        ],
    );
    vnode.flush();
    let seq_before = vnode.version.last_seq;
    vnode.compact(&tskv::tombstone::TsmTombstone::new());

    assert_eq!(vnode.version.files.len(), 1);
    let meta = vnode.version.files[0];
    assert_eq!(meta.level, 1);
    assert_eq!(meta.min_ts, 10);
    assert_eq!(meta.max_ts, 101);
    assert_eq!(vnode.version.last_seq, seq_before);
    assert_eq!(vnode.read(1, 9, 10), Some(1));
    assert_eq!(vnode.read(1, 9, 11), Some(2));
    assert_eq!(vnode.read(1, 9, 100), Some(3));
    assert_eq!(vnode.read(1, 9, 101), Some(4));
    let merged_block = &vnode.durable.files.last().unwrap().blocks;
    assert_eq!(merged_block.len(), 1); // one block per field: no duplicates
    assert_eq!(merged_block[0].1.len(), 4);

    // The summary edit carries the new file and removes both inputs.
    let summary = vnode.get_vnode_summary();
    assert_eq!(summary.add_files.len(), 1);
    assert_eq!(summary.add_files[0].level, 1);

    // Restart reclaims the now-unreferenced inputs from the directory.
    assert_eq!(vnode.durable.files.len(), 3);
    let recovered = VnodeStorage::recover(vnode.durable);
    assert_eq!(recovered.durable.files.len(), 1);
    assert_eq!(recovered.read(1, 9, 101), Some(4));
}

#[test]
fn compaction_newer_file_wins_and_tombstones_excise() {
    let mut older = tskv::tsm::DataBlock::new(0);
    older.push(1, 10);
    older.push(2, 20);
    let mut newer = tskv::tsm::DataBlock::new(0);
    newer.push(2, 21);
    newer.push(3, 31);
    let mut tombstones = tskv::tombstone::TsmTombstone::new();
    tombstones.add_range(&vec![9], &tskv::TimeRange::new(1, 1), None);
    let merged =
        tskv::compaction::compact_blocks(&vec![older, newer], &tombstones, 9, 0);
    assert_eq!(merged.len(), 2);
    assert_eq!(merged.get(1), None); // tombstoned
    assert_eq!(merged.get(2), Some(21)); // newer file wins
    assert_eq!(merged.get(3), Some(31));
}

#[test]
fn memcache_later_write_wins() {
    let mut mc = Memcache::new(0);
    mc.write_point(1, 2, 5, 50);
    mc.write_point(1, 2, 5, 51);
    mc.write_point(1, 2, 6, 60);
    assert_eq!(mc.get(1, 2, 5), Some(51));
    assert_eq!(mc.get(1, 2, 6), Some(60));
    assert_eq!(mc.get(1, 2, 7), None);
    assert_eq!(mc.get(9, 2, 5), None);
    assert_eq!(mc.put_counter(), 3);
}

#[test]
fn wal_sequences_are_gap_free_and_truncation_drops_prefix() {
    let mut wal = Wal::new(1);
    let s1 = wal.append(String::from("t"), String::from("d"), 0, one_point(1, 1, 1, 1));
    let s2 = wal.append(String::from("t"), String::from("d"), 0, one_point(1, 1, 2, 2));
    let s3 = wal.append(String::from("t"), String::from("d"), 0, one_point(1, 1, 3, 3));
    assert_eq!((s1, s2, s3), (1, 2, 3));
    assert_eq!(wal.len(), 3);
    wal.truncate(2);
    assert_eq!(wal.len(), 1);
    assert_eq!(wal.next_seq(), 4);
    let tail = wal.tail_after(2);
    assert_eq!(tail.len(), 1);
    assert_eq!(tail[0].ts, 3);
}

#[test]
fn summary_replay_rebuilds_version() {
    let mut summary = tskv::summary::Summary::new(1);
    let id1 = summary.new_file_id();
    let mut add1 = Vec::new();
    add1.push(tskv::version::CompactMeta {
        file_id: id1,
        file_size: 8,
        tsf_id: 3,
        level: 0,
        min_ts: 0,
        max_ts: 9,
    });
    summary.append_edit(tskv::version::VersionEdit {
        add_files: add1,
        del_file_ids: Vec::new(),
        max_level: 0,
        seq_no: 5,
        tsf_id: 3,
    });
    let id2 = summary.new_file_id();
    let mut add2 = Vec::new();
    add2.push(tskv::version::CompactMeta {
        file_id: id2,
        file_size: 8,
        tsf_id: 3,
        level: 1,
        min_ts: 0,
        max_ts: 9,
    });
    let mut dels = Vec::new();
    dels.push(id1);
    summary.append_edit(tskv::version::VersionEdit {
        add_files: add2,
        del_file_ids: dels,
        max_level: 1,
        seq_no: 6,
        tsf_id: 3,
    });
    let version = summary.replay(3);
    assert_eq!(version.last_seq, 6);
    assert_eq!(version.files.len(), 1);
    assert_eq!(version.files[0].file_id, id2);
    assert_eq!(version.files[0].level, 1);
}

#[test]
fn bloom_negative_answer_is_exact() {
    let mut bloom = tskv::bloom::BloomFilter::new();
    for f in [1u64, 2, 3, 1000, 123456789] {
        bloom.insert(f);
    }
    for f in [1u64, 2, 3, 1000, 123456789] {
        assert!(bloom.contains(f));
    }
}

#[test]
fn vnode_summary_round_trip_builds_equal_replica() {
    let mut vnode = VnodeStorage::open(3);
    vnode.write(String::from("t"), String::from("d"), 0, one_point(10, 100, 5, 77));
    vnode.flush();
    let summary = vnode.get_vnode_summary();
    assert_eq!(summary.tsf_id, 3);
    assert_eq!(summary.seq_no, 1);
    assert_eq!(summary.add_files.len(), 1);

    // The snapshot install converges the replicas: after it, the lagging
    // replica's integrity digests equal the source's.
    let source_digests = vnode.get_vnode_hash_tree();
    let replica = VnodeStorage::apply_vnode_summary(3, summary, vnode.durable.files);
    assert_eq!(replica.version.last_seq, 1);
    assert_eq!(replica.read(10, 100, 5), Some(77));
    assert_eq!(replica.get_vnode_hash_tree(), source_digests);
    assert_eq!(source_digests.len(), 1); // the flushed file's one block
}

#[test]
fn hash_tree_digests_agree_between_equal_replicas() {
    let mut a = VnodeStorage::open(1);
    let mut b = VnodeStorage::open(1);
    for vnode in [&mut a, &mut b] {
        vnode.write(
            String::from("t"),
            String::from("d"),
            0,
            vec![
                Point { series_id: 1, field_id: 2, ts: 3, val: 4 },
                Point { series_id: 1, field_id: 5, ts: 6, val: 7 },
            ],
        );
    }
    let ta = a.get_vnode_hash_tree();
    let tb = b.get_vnode_hash_tree();
    assert_eq!(ta.len(), 2);
    assert_eq!(ta, tb);

    let mut c = VnodeStorage::open(1);
    c.write(
        String::from("t"),
        String::from("d"),
        0,
        vec![Point { series_id: 1, field_id: 2, ts: 3, val: 999 }],
    );
    let tc = c.get_vnode_hash_tree();
    assert!(ta != tc);

    // The digest also covers the durable files: after a flush the caches
    // are empty, yet the flushed contents still tell replicas apart.
    a.flush();
    c.flush();
    let ta_flushed = a.get_vnode_hash_tree();
    let tc_flushed = c.get_vnode_hash_tree();
    assert_eq!(ta_flushed.len(), 2);
    assert!(ta_flushed != tc_flushed);
}

#[test]
fn write_backpressure_signals_resource_exhausted() {
    let mut vnode = VnodeStorage::open(1);
    let r = vnode.write_checked(String::from("t"), String::from("d"), 0, one_point(1, 2, 3, 4));
    assert_eq!(r, Ok(1));
    assert_eq!(tskv::Error::ResourceExhausted.kind_name(), "resource exhausted");
    assert_eq!(tskv::Error::Io.kind_name(), "io");
}
