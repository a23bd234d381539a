//! Per-vnode storage engine core for a distributed time-series store.
//!
//! A point is identified by (series-id, field-id, timestamp) and carries a
//! typed scalar value. Points are sharded into vnodes; each vnode holds a
//! write-ahead log, an in-memory cache, and an LSM-style hierarchy of
//! immutable column files with tombstone sidecars, described by versioned
//! snapshots whose deltas are logged durably in a summary file.

use vstd::prelude::*;

pub mod assoc;
pub mod bloom;
pub mod codec;
pub mod compaction;
pub mod database;
pub mod error;
pub mod memcache;
pub mod replication;
pub mod snapshot;
pub mod summary;
pub mod tombstone;
pub mod tsm;
pub mod version;
pub mod version_set;
pub mod vnode;
pub mod wal;
mod types;

pub use error::Error;
pub use types::TimeRange;

verus! {

/// A column file ID, unique within one storage instance.
pub type ColumnFileId = u64;

/// A field ID: identifies one column of one series.
pub type FieldId = u64;

/// A series ID: identifies one (table, tag set) combination within a vnode.
pub type SeriesId = u64;

/// A vnode (time-series family) ID.
pub type VnodeId = u32;

/// A timestamp, in the precision the writing client declared.
pub type Timestamp = i64;

/// A level in the LSM hierarchy: 0 is freshly flushed, higher is more compacted.
pub type LevelId = u32;

/// One key of a tag-update statement: the tag key together with its new
/// value, where `None` clears the tag.
#[derive(PartialEq, Eq, Hash)]
pub struct UpdateSetValue<K, V> {
    pub key: K,
    pub value: Option<V>,
}

} // verus!
