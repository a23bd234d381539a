//! Versions: immutable snapshots of the live file set of a vnode, and the
//! edits that move one version to the next.

use vstd::prelude::*;

verus! {

/// The metadata of one column file as an edit carries it.
#[derive(PartialEq, Eq, Structural, Clone, Copy, Debug)]
pub struct CompactMeta {
    pub file_id: u64,
    pub file_size: u64,
    pub tsf_id: u32,
    pub level: u32,
    pub min_ts: i64,
    pub max_ts: i64,
}

/// One delta of a vnode's file set: files added, file IDs removed, and the
/// new high-water marks.
pub struct VersionEdit {
    pub add_files: Vec<CompactMeta>,
    pub del_file_ids: Vec<u64>,
    pub max_level: u32,
    pub seq_no: u64,
    pub tsf_id: u32,
}

/// Whether a sequence of IDs holds one ID.
pub open spec fn id_in(ids: Seq<u64>, id: u64) -> bool {
    exists|i: int| 0 <= i < ids.len() && ids[i] == id
}

/// One edit applied to a file list: the removed IDs leave, the added files
/// arrive at the end.
pub open spec fn apply_edit_spec(files: Seq<CompactMeta>, e: VersionEdit) -> Seq<CompactMeta> {
    files.filter(|m: CompactMeta| !id_in(e.del_file_ids@, m.file_id)) + e.add_files@
}

/// Filtering against an empty removal list keeps every file.
pub proof fn lemma_filter_keeps_all(files: Seq<CompactMeta>, dels: Seq<u64>)
    requires
        dels.len() == 0,
    ensures
        files.filter(|m: CompactMeta| !id_in(dels, m.file_id)) == files,
    decreases files.len(),
{
    reveal(Seq::filter);
    if files.len() > 0 {
        lemma_filter_keeps_all(files.drop_last(), dels);
        assert(!id_in(dels, files.last().file_id));
        assert(files.drop_last().push(files.last()) =~= files);
    }
}

/// The snapshot of one vnode's file set.
pub struct Version {
    pub tf_id: u32,
    pub last_seq: u64,
    pub files: Vec<CompactMeta>,
}

impl Version {
    pub fn new(tf_id: u32) -> (r: Version)
        ensures
            r.tf_id == tf_id,
            r.last_seq == 0,
            r.files@ == Seq::<CompactMeta>::empty(),
    {
        Version { tf_id, last_seq: 0, files: Vec::new() }
    }

    pub fn last_seq(&self) -> (r: u64)
        ensures
            r == self.last_seq,
    {
        self.last_seq
    }

    pub fn tf_id(&self) -> (r: u32)
        ensures
            r == self.tf_id,
    {
        self.tf_id
    }

    /// Whether a file ID is referenced by this version.
    pub open spec fn references_spec(self, file_id: u64) -> bool {
        exists|i: int|
            0 <= i < self.files@.len() && (#[trigger] self.files@[i]).file_id == file_id
    }

    /// Whether a file ID is referenced by this version.
    pub fn references(&self, file_id: u64) -> (r: bool)
        ensures
            r == self.references_spec(file_id),
    {
        let n = self.files.len();
        let mut i: usize = 0;
        while i < n
            invariant
                i <= n,
                n == self.files@.len(),
                forall|j: int| 0 <= j < i ==> (#[trigger] self.files@[j]).file_id != file_id,
            decreases n - i,
        {
            if self.files[i].file_id == file_id {
                return true;
            }
            i = i + 1;
        }
        false
    }

    /// Publishes the next version: removed IDs leave the file set, added
    /// files arrive, and `last_seq` advances to the edit's sequence if that
    /// is larger.
    pub fn apply_edit(&mut self, edit: &VersionEdit)
        ensures
            final(self).tf_id == old(self).tf_id,
            final(self).files@ == apply_edit_spec(old(self).files@, *edit),
            final(self).last_seq == if edit.seq_no > old(self).last_seq {
                edit.seq_no
            } else {
                old(self).last_seq
            },
    {
        let ghost pred = |m: CompactMeta| !id_in(edit.del_file_ids@, m.file_id);
        let n = self.files.len();
        let mut kept: Vec<CompactMeta> = Vec::new();
        let mut i: usize = 0;
        proof {
            assert(self.files@.take(0) =~= Seq::<CompactMeta>::empty());
            reveal(Seq::filter);
        }
        while i < n
            invariant
                i <= n,
                n == self.files@.len(),
                pred == (|m: CompactMeta| !id_in(edit.del_file_ids@, m.file_id)),
                kept@ == self.files@.take(i as int).filter(pred),
            decreases n - i,
        {
            let meta = self.files[i];
            let m = edit.del_file_ids.len();
            let mut deleted = false;
            let mut k: usize = 0;
            while k < m
                invariant
                    k <= m,
                    m == edit.del_file_ids@.len(),
                    deleted == exists|q: int|
                        0 <= q < k && edit.del_file_ids@[q] == meta.file_id,
                decreases m - k,
            {
                if edit.del_file_ids[k] == meta.file_id {
                    deleted = true;
                }
                k = k + 1;
            }
            proof {
                reveal(Seq::filter);
                assert(self.files@.take(i + 1).drop_last() =~= self.files@.take(i as int));
                assert(self.files@.take(i + 1).last() == meta);
                assert(deleted == id_in(edit.del_file_ids@, meta.file_id));
            }
            if !deleted {
                kept.push(meta);
            }
            i = i + 1;
        }
        proof {
            assert(self.files@.take(n as int) =~= self.files@);
        }
        let ghost kept_view = kept@;
        let m = edit.add_files.len();
        let mut k: usize = 0;
        while k < m
            invariant
                k <= m,
                m == edit.add_files@.len(),
                kept@ == kept_view + edit.add_files@.subrange(0, k as int),
            decreases m - k,
        {
            kept.push(edit.add_files[k]);
            proof {
                assert(kept@ =~= kept_view + edit.add_files@.subrange(0, k + 1));
            }
            k = k + 1;
        }
        proof {
            assert(edit.add_files@.subrange(0, m as int) =~= edit.add_files@);
        }
        self.files = kept;
        if edit.seq_no > self.last_seq {
            self.last_seq = edit.seq_no;
        }
    }
}

} // verus!
