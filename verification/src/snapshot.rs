//! The serializable description of one vnode used for physical copy: its
//! files and its flushed sequence.

use vstd::prelude::*;
use crate::version::CompactMeta;

verus! {

/// One column file as a snapshot lists it.
#[derive(PartialEq, Eq, Structural, Clone, Copy, Debug)]
pub struct SnapshotFileMeta {
    pub file_id: u64,
    pub file_size: u64,
    pub level: u32,
    pub min_ts: i64,
    pub max_ts: i64,
}

impl From<&CompactMeta> for SnapshotFileMeta {
    fn from(cm: &CompactMeta) -> (r: SnapshotFileMeta) {
        SnapshotFileMeta {
            file_id: cm.file_id,
            file_size: cm.file_size,
            level: cm.level,
            min_ts: cm.min_ts,
            max_ts: cm.max_ts,
        }
    }
}

impl vstd::std_specs::convert::FromSpecImpl<&CompactMeta> for SnapshotFileMeta {
    open spec fn obeys_from_spec() -> bool {
        true
    }

    open spec fn from_spec(cm: &CompactMeta) -> SnapshotFileMeta {
        SnapshotFileMeta {
            file_id: cm.file_id,
            file_size: cm.file_size,
            level: cm.level,
            min_ts: cm.min_ts,
            max_ts: cm.max_ts,
        }
    }
}

/// The snapshot of one vnode: where it lives, which files hold its data,
/// and the last write-ahead-log sequence its files cover.
pub struct VnodeSnapshot {
    pub snapshot_id: String,
    pub node_id: u64,
    pub tenant: String,
    pub database: String,
    pub vnode_id: u32,
    pub files: Vec<SnapshotFileMeta>,
    pub last_seq_no: u64,
}

} // verus!
