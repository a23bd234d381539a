use tskv::TimeRange;
use tskv::tombstone::TsmTombstone;

#[test]
fn test_write_read_1() {
    let mut tombstone = TsmTombstone::new();
    tombstone.add_range(&vec![0], &TimeRange::new(0, 0), None);
    let file = tombstone.flush();
    drop(tombstone);

    let tombstone = TsmTombstone::open(&file);
    assert!(tombstone.overlaps(0, &TimeRange { max_ts: 0, min_ts: 0 }));
}

#[test]
fn test_write_read_2() {
    let mut tombstone = TsmTombstone::new();
    tombstone.add_range(&vec![1, 2, 3], &TimeRange::new(1, 100), None);
    let file = tombstone.flush();
    drop(tombstone);

    let tombstone = TsmTombstone::open(&file);
    assert!(tombstone.overlaps(1, &TimeRange { max_ts: 2, min_ts: 99 }));
    assert!(tombstone.overlaps(2, &TimeRange { max_ts: 2, min_ts: 99 }));
    assert!(!tombstone.overlaps(3, &TimeRange { max_ts: 101, min_ts: 103 }));
}

#[test]
fn test_write_read_3() {
    let mut tombstone = TsmTombstone::new();
    for i in 0..10000 {
        tombstone.add_range(
            &vec![3 * i as u64 + 1, 3 * i as u64 + 2, 3 * i as u64 + 3],
            &TimeRange::new(i as i64 * 2, i as i64 * 2 + 100),
            None,
        );
    }
    let file = tombstone.flush();
    drop(tombstone);

    let tombstone = TsmTombstone::open(&file);
    assert!(tombstone.overlaps(1, &TimeRange { max_ts: 2, min_ts: 99 }));
    assert!(tombstone.overlaps(2, &TimeRange { max_ts: 3, min_ts: 100 }));
    assert!(!tombstone.overlaps(3, &TimeRange { max_ts: 4, min_ts: 101 }));
}

#[test]
fn tombstone_survives_appended_reopen() {
    // Two sessions append to the same file; a reopen sees both.
    let mut t1 = TsmTombstone::new();
    t1.add_range(&vec![7], &TimeRange::new(10, 20), None);
    let mut file = t1.flush();

    let mut t2 = TsmTombstone::open(&file);
    assert!(t2.overlaps(7, &TimeRange::new(15, 16)));
    t2.add_range(&vec![8], &TimeRange::new(30, 40), None);
    let mut more = t2.flush();
    file.append(&mut more);

    let t3 = TsmTombstone::open(&file);
    assert!(t3.overlaps(7, &TimeRange::new(15, 16)));
    assert!(t3.overlaps(8, &TimeRange::new(35, 35)));
    assert!(!t3.overlaps(8, &TimeRange::new(41, 50)));
}

#[test]
fn bloom_filter_skips_absent_fields() {
    let mut bloom = tskv::bloom::BloomFilter::new();
    bloom.insert(1);
    bloom.insert(2);
    let mut tombstone = TsmTombstone::new();
    // Field 1000000 probes a bit that neither 1 nor 2 set, so the bloom
    // filter rules it out and no entry is recorded for it.
    assert!(!bloom.contains(1000000));
    tombstone.add_range(&vec![1, 1000000], &TimeRange::new(0, 10), Some(&bloom));
    assert!(tombstone.overlaps(1, &TimeRange::new(5, 5)));
    assert!(!tombstone.overlaps(1000000, &TimeRange::new(5, 5)));
}

#[test]
fn get_overlapped_time_ranges_reports_exactly() {
    let mut t = TsmTombstone::new();
    t.add_range(&vec![1], &TimeRange::new(0, 10), None);
    t.add_range(&vec![1], &TimeRange::new(20, 30), None);
    t.add_range(&vec![2], &TimeRange::new(0, 100), None);
    let hits = t.get_overlapped_time_ranges(1, &TimeRange::new(5, 25)).unwrap();
    assert_eq!(hits.len(), 2);
    assert_eq!(hits[0], TimeRange::new(0, 10));
    assert_eq!(hits[1], TimeRange::new(20, 30));
    assert!(t.get_overlapped_time_ranges(1, &TimeRange::new(11, 19)).is_none());
    assert!(t.get_overlapped_time_ranges(3, &TimeRange::new(0, 100)).is_none());
    assert_eq!(t.get_cloned_time_ranges(2).unwrap(), vec![TimeRange::new(0, 100)]);
    assert!(t.get_cloned_time_ranges(3).is_none());
    assert!(!t.is_empty());
    assert!(TsmTombstone::new().is_empty());
}

#[test]
fn deleted_range_is_excised_from_blocks() {
    // No lost tombstone: after a delete, a read of that range returns no
    // points.
    let mut t = TsmTombstone::new();
    t.add_range(&vec![1], &TimeRange::new(10, 20), None);

    let mut block = tskv::tsm::DataBlock::new(0);
    block.push(5, 50);
    block.push(15, 150);
    block.push(25, 250);
    t.data_block_exclude_tombstones(1, &mut block);
    assert_eq!(block.len(), 2);
    assert_eq!(block.get(5), Some(50));
    assert_eq!(block.get(15), None);
    assert_eq!(block.get(25), Some(250));

    // The same call twice changes nothing more: addition is idempotent for
    // every read.
    t.add_range(&vec![1], &TimeRange::new(10, 20), None);
    let mut block2 = tskv::tsm::DataBlock::new(0);
    block2.push(15, 150);
    t.data_block_exclude_tombstones(1, &mut block2);
    assert_eq!(block2.len(), 0);

    let block3 = tskv::tsm::DataBlock::new(0);
    assert!(t.data_block_exclude_tombstones_new(1, &block3).is_none());
    let mut block4 = tskv::tsm::DataBlock::new(0);
    block4.push(15, 150);
    let excised = t.data_block_exclude_tombstones_new(1, &block4).unwrap();
    assert_eq!(excised.len(), 0);
}
