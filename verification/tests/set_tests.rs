use tskv::database::{Database, DatabaseSchema, TsIndex};
use tskv::replication::{CopyVnode, CopyVnodeTask, NetworkConn, RaftNodeInfo, VnodeManagerCmdType};
use tskv::version_set::{VersionSet, make_owner};
use tskv::vnode::VnodeStorage;

#[test]
fn make_owner_joins_tenant_and_database() {
    assert_eq!(make_owner("cnosdb", "public"), "cnosdb.public");
}

#[test]
fn version_set_tracks_databases() {
    let mut vs = VersionSet::empty();
    assert!(!vs.db_exists("t1", "db1"));
    vs.create_db(DatabaseSchema { tenant: String::from("t1"), database: String::from("db1") });
    assert!(vs.db_exists("t1", "db1"));
    assert!(!vs.db_exists("t1", "db2"));
    let schema = vs.get_db_schema("t1", "db1").unwrap();
    assert_eq!(schema.tenant, "t1");
    assert_eq!(schema.database, "db1");
    assert!(vs.get_db("t1", "db1").is_some());
    assert!(vs.get_db("t2", "db1").is_none());
    assert_eq!(vs.get_all_db().len(), 1);
    assert_eq!(vs.tsf_num(), 0);
    let removed = vs.delete_db("t1", "db1");
    assert!(removed.is_some());
    assert_eq!(removed.unwrap().schema.database, "db1");
    assert!(vs.delete_db("t1", "db1").is_none());
    assert!(!vs.db_exists("t1", "db1"));
}

#[test]
fn database_families_and_indexes() {
    let mut db = Database::new(DatabaseSchema {
        tenant: String::from("t"),
        database: String::from("d"),
    });
    assert!(db.get_tsfamily(4).is_none());
    db.open_tsfamily(VnodeStorage::open(4));
    assert!(db.get_tsfamily(4).is_some());
    assert_eq!(db.tsf_num(), 1);
    db.get_ts_index_or_add(4);
    assert!(db.get_ts_index(4).is_some());
    assert!(db.get_ts_index(5).is_none());
    let removed = db.remove_tsfamily(4);
    assert!(removed.is_some());
    assert!(db.get_tsfamily(4).is_none());
}

#[test]
fn version_set_finds_family_and_snapshot() {
    let mut db = Database::new(DatabaseSchema {
        tenant: String::from("t"),
        database: String::from("d"),
    });
    let mut vnode = VnodeStorage::open(9);
    vnode.write(
        String::from("t"),
        String::from("d"),
        0,
        vec![tskv::wal::Point { series_id: 1, field_id: 2, ts: 3, val: 4 }],
    );
    vnode.flush();
    db.open_tsfamily(vnode);
    let mut vs = VersionSet::empty();
    vs.dbs_store.push((make_owner("t", "d"), db));

    assert!(vs.get_tsfamily_by_tf_id(9).is_some());
    assert!(vs.get_tsfamily_by_tf_id(8).is_none());
    assert!(vs.get_tsfamily_by_name_id("t", "d", 9).is_some());
    assert!(vs.get_tsfamily_by_name_id("t", "x", 9).is_none());
    let (fam, index) = vs.get_tsfamily_tsindex_by_tf_id(9);
    assert!(fam.is_some());
    assert!(index.is_none()); // the database never built a series index for 9
    let (fam_missing, index_missing) = vs.get_tsfamily_tsindex_by_tf_id(8);
    assert!(fam_missing.is_none());
    assert!(index_missing.is_none());
    assert_eq!(vs.tsf_num(), 1);
    assert!(vs.get_database_tsfs("t", "d").is_some());

    let seq_map = vs.get_tsfamily_seq_no_map();
    assert_eq!(seq_map.len(), 1);
    assert_eq!(seq_map[0].0, 9);
    assert_eq!(seq_map[0].1, 1);

    let (edits, blooms) = vs.snapshot();
    assert_eq!(edits.len(), 1);
    assert_eq!(edits[0].tsf_id, 9);
    assert_eq!(edits[0].seq_no, 1);
    assert_eq!(edits[0].add_files.len(), 1);
    assert_eq!(edits[0].del_file_ids.len(), 0);
    assert_eq!(blooms.len(), 1);
    assert_eq!(blooms[0].0, edits[0].add_files[0].file_id);
    assert!(blooms[0].1.contains(2));
}

#[test]
fn series_ids_allocate_monotonically_and_never_reuse() {
    let mut index = TsIndex::new();
    let a = index.get_or_add_series_id(vec![1, 2, 3]);
    let b = index.get_or_add_series_id(vec![4, 5]);
    let a_again = index.get_or_add_series_id(vec![1, 2, 3]);
    assert_eq!(a, 1);
    assert_eq!(b, 2);
    assert_eq!(a_again, a);
    assert_eq!(index.get_series_id(&vec![4, 5]), Some(2));
    assert_eq!(index.get_series_id(&vec![9]), None);
    assert_eq!(index.get_series_key(2).unwrap(), &vec![4, 5]);
    assert!(index.get_series_key(7).is_none());
}

#[test]
fn connection_cache_reuses_dialled_channels() {
    let mut conn = NetworkConn::new(false);
    assert_eq!(conn.get_conn(&String::from("127.0.0.1:8901")), None);
    conn.register_conn(String::from("127.0.0.1:8901"), 11);
    assert_eq!(conn.get_conn(&String::from("127.0.0.1:8901")), Some(11));
    conn.register_conn(String::from("127.0.0.1:8902"), 12);
    assert_eq!(conn.get_conn(&String::from("127.0.0.1:8901")), Some(11));
    assert_eq!(conn.get_conn(&String::from("127.0.0.1:8902")), Some(12));
    conn.register_conn(String::from("127.0.0.1:8901"), 13);
    assert_eq!(conn.get_conn(&String::from("127.0.0.1:8901")), Some(13));

    let client = conn.new_client(
        3,
        RaftNodeInfo { group_id: 44, address: String::from("127.0.0.1:8901") },
    );
    let envelope = client.envelope(vec![1, 2, 3]);
    assert_eq!(envelope.group_id, 44);
    assert_eq!(envelope.data, vec![1, 2, 3]);
}

#[test]
fn copy_vnode_plans_by_replication_mode() {
    let task = CopyVnodeTask::new(CopyVnode { vnode_id: 5, node_id: 2001 });
    let raft = task.plan(true, 77);
    assert!(matches!(raft, VnodeManagerCmdType::AddRaftFollower(77, 2001)));
    let direct = task.plan(false, 77);
    assert!(matches!(direct, VnodeManagerCmdType::Copy(5, 2001)));
}

#[test]
fn snapshot_file_meta_mirrors_compact_meta() {
    let cm = tskv::version::CompactMeta {
        file_id: 6,
        file_size: 1024,
        tsf_id: 1,
        level: 2,
        min_ts: -5,
        max_ts: 99,
    };
    let sm = tskv::snapshot::SnapshotFileMeta::from(&cm);
    assert_eq!(sm.file_id, 6);
    assert_eq!(sm.file_size, 1024);
    assert_eq!(sm.level, 2);
    assert_eq!(sm.min_ts, -5);
    assert_eq!(sm.max_ts, 99);
}

#[test]
fn version_set_new_groups_vnodes_by_owner() {
    let entries = vec![
        (
            DatabaseSchema { tenant: String::from("t"), database: String::from("d") },
            VnodeStorage::open(1),
        ),
        (
            DatabaseSchema { tenant: String::from("t"), database: String::from("d") },
            VnodeStorage::open(2),
        ),
        (
            DatabaseSchema { tenant: String::from("t2"), database: String::from("d") },
            VnodeStorage::open(3),
        ),
    ];
    let vs = VersionSet::new(entries);
    assert_eq!(vs.get_all_db().len(), 2);
    assert!(vs.db_exists("t", "d"));
    assert!(vs.db_exists("t2", "d"));
    assert_eq!(vs.tsf_num(), 3);
    assert!(vs.get_tsfamily_by_name_id("t", "d", 1).is_some());
    assert!(vs.get_tsfamily_by_name_id("t", "d", 2).is_some());
    assert!(vs.get_tsfamily_by_name_id("t2", "d", 3).is_some());
    assert!(vs.get_tsfamily_by_name_id("t2", "d", 1).is_none());
}
