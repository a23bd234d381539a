//! One database: its schema, its time-series families (vnodes) and their
//! series indexes.

use vstd::prelude::*;
use crate::assoc::{assoc_get, has_key, lemma_assoc_get_absent, lemma_assoc_get_present,
    lemma_assoc_insert, lemma_assoc_remove, unique_keys};
use crate::vnode::VnodeStorage;

verus! {

/// The schema of one database: who owns it and what it is called.
pub struct DatabaseSchema {
    pub tenant: String,
    pub database: String,
}

/// The series index of one vnode: series keys mapped to series IDs, which
/// are allocated monotonically and never reused.
pub struct TsIndex {
    next_series_id: u64,
    keys: Vec<(Vec<u8>, u64)>,
}

/// The view of a series index: key bytes to series ID.
pub open spec fn index_view(keys: Seq<(Vec<u8>, u64)>) -> Seq<(Seq<u8>, u64)> {
    keys.map_values(|e: (Vec<u8>, u64)| (e.0@, e.1))
}

impl TsIndex {
    pub closed spec fn spec_keys(self) -> Seq<(Seq<u8>, u64)> {
        index_view(self.keys@)
    }

    pub closed spec fn spec_next_series_id(self) -> u64 {
        self.next_series_id
    }

    /// Keys are unique and every allocated ID lies below the allocator.
    pub closed spec fn wf(self) -> bool {
        &&& unique_keys(self.spec_keys())
        &&& forall|i: int|
            0 <= i < self.spec_keys().len() ==> (#[trigger] self.spec_keys()[i]).1
                < self.next_series_id
    }

    pub fn new() -> (r: TsIndex)
        ensures
            r.wf(),
            r.spec_keys() == Seq::<(Seq<u8>, u64)>::empty(),
            r.spec_next_series_id() == 1,
    {
        let r = TsIndex { next_series_id: 1, keys: Vec::new() };
        proof {
            assert(r.spec_keys() =~= Seq::<(Seq<u8>, u64)>::empty());
        }
        r
    }

    /// The series ID of a key, if it was ever added.
    pub fn get_series_id(&self, key: &Vec<u8>) -> (r: Option<u64>)
        requires
            self.wf(),
        ensures
            r == assoc_get(self.spec_keys(), key@),
    {
        let ghost kv = self.spec_keys();
        proof {
            assert(forall|j: int|
                0 <= j < kv.len() ==> kv[j] == ((#[trigger] self.keys@[j]).0@,
                self.keys@[j].1));
        }
        let n = self.keys.len();
        let mut i: usize = 0;
        while i < n
            invariant
                i <= n,
                n == self.keys@.len(),
                self.wf(),
                kv == self.spec_keys(),
                forall|j: int| 0 <= j < i ==> (#[trigger] self.keys@[j]).0@ != key@,
            decreases n - i,
        {
            if bytes_eq(&self.keys[i].0, key) {
                proof {
                    assert(kv[i as int].0 == key@);
                    lemma_assoc_get_present(kv, key@, i as int);
                }
                return Some(self.keys[i].1);
            }
            i = i + 1;
        }
        proof {
            assert(!has_key(kv, key@)) by {
                if has_key(kv, key@) {
                    let j = choose|j: int| 0 <= j < kv.len() && kv[j].0 == key@;
                    assert(self.keys@[j].0@ == key@);
                }
            }
            lemma_assoc_get_absent(kv, key@);
        }
        None
    }

    /// The series ID of a key, allocating a fresh one on first sight.
    /// Series IDs are monotonically allocated and never reused.
    pub fn get_or_add_series_id(&mut self, key: Vec<u8>) -> (r: u64)
        requires
            old(self).wf(),
            old(self).spec_next_series_id() < u64::MAX,
        ensures
            final(self).wf(),
            assoc_get(final(self).spec_keys(), key@) == Some(r),
            forall|k: Seq<u8>|
                k != key@ ==> assoc_get(final(self).spec_keys(), k) == assoc_get(
                    old(self).spec_keys(), k),
            match assoc_get(old(self).spec_keys(), key@) {
                Some(id) => r == id && final(self).spec_next_series_id() == old(
                    self).spec_next_series_id(),
                None => r == old(self).spec_next_series_id() && final(
                    self).spec_next_series_id() == r + 1,
            },
    {
        match self.get_series_id(&key) {
            Some(id) => {
                proof {
                    assert(forall|k: Seq<u8>|
                        assoc_get(final(self).spec_keys(), k) == assoc_get(
                            old(self).spec_keys(), k));
                }
                id
            },
            None => {
                let ghost kv = self.spec_keys();
                let id = self.next_series_id;
                proof {
                    crate::assoc::lemma_assoc_get_has_key(kv, key@);
                    lemma_assoc_insert(kv, key@, id);
                }
                self.keys.push((key, id));
                self.next_series_id = id + 1;
                proof {
                    assert(self.spec_keys() =~= kv.push((key@, id)));
                }
                id
            },
        }
    }

    /// The key of a series ID, if that ID was ever allocated.
    pub fn get_series_key(&self, series_id: u64) -> (r: Option<&Vec<u8>>)
        requires
            self.wf(),
        ensures
            match r {
                Some(k) => exists|i: int|
                    0 <= i < self.spec_keys().len() && (#[trigger] self.spec_keys()[i]) == (
                    k@, series_id),
                None => forall|i: int|
                    0 <= i < self.spec_keys().len() ==> (#[trigger] self.spec_keys()[i]).1
                        != series_id,
            },
    {
        let n = self.keys.len();
        let mut i: usize = 0;
        while i < n
            invariant
                i <= n,
                n == self.keys@.len(),
                self.wf(),
                forall|j: int| 0 <= j < i ==> (#[trigger] self.keys@[j]).1 != series_id,
            decreases n - i,
        {
            if self.keys[i].1 == series_id {
                proof {
                    assert(self.spec_keys()[i as int] == (self.keys@[i as int].0@, series_id));
                }
                return Some(&self.keys[i].0);
            }
            i = i + 1;
        }
        proof {
            assert(forall|j: int|
                0 <= j < self.spec_keys().len() ==> (#[trigger] self.spec_keys()[j]).1
                    == self.keys@[j].1);
        }
        None
    }
}

/// Byte-string equality.
pub fn bytes_eq(a: &Vec<u8>, b: &Vec<u8>) -> (r: bool)
    ensures
        r == (a@ == b@),
{
    let n = a.len();
    if n != b.len() {
        proof {
            assert(a@ != b@) by {
                if a@ == b@ {
                    assert(a@.len() == b@.len());
                }
            }
        }
        return false;
    }
    let mut i: usize = 0;
    while i < n
        invariant
            i <= n,
            n == a@.len(),
            n == b@.len(),
            forall|j: int| 0 <= j < i ==> a@[j] == b@[j],
        decreases n - i,
    {
        if a[i] != b[i] {
            proof {
                assert(a@[i as int] != b@[i as int]);
            }
            return false;
        }
        i = i + 1;
    }
    proof {
        assert(a@ =~= b@);
    }
    true
}

/// One database: schema, vnodes keyed by family ID, and one series index
/// per vnode.
pub struct Database {
    pub schema: DatabaseSchema,
    pub ts_families_store: Vec<(u32, VnodeStorage)>,
    pub ts_indexes_store: Vec<(u32, TsIndex)>,
}

impl Database {
    pub open spec fn spec_families(self) -> Seq<(u32, VnodeStorage)> {
        self.ts_families_store@
    }

    pub open spec fn spec_indexes(self) -> Seq<(u32, TsIndex)> {
        self.ts_indexes_store@
    }

    pub open spec fn wf(self) -> bool {
        &&& unique_keys(self.spec_families())
        &&& unique_keys(self.spec_indexes())
        &&& forall|i: int|
            0 <= i < self.spec_families().len() ==> (#[trigger] self.spec_families()[i]).1.wf()
                && self.spec_families()[i].1.durable.tf_id == self.spec_families()[i].0
        &&& forall|i: int|
            0 <= i < self.spec_indexes().len() ==> (#[trigger] self.spec_indexes()[i]).1.wf()
    }

    pub fn new(schema: DatabaseSchema) -> (r: Database)
        ensures
            r.wf(),
            r.spec_families() == Seq::<(u32, VnodeStorage)>::empty(),
            r.spec_indexes() == Seq::<(u32, TsIndex)>::empty(),
            r.schema.tenant@ == schema.tenant@,
            r.schema.database@ == schema.database@,
    {
        Database { schema, ts_families_store: Vec::new(), ts_indexes_store: Vec::new() }
    }

    /// The position of one family, if open.
    fn find_family(&self, tf_id: u32) -> (r: Option<usize>)
        ensures
            match r {
                Some(i) => i < self.spec_families().len() && self.spec_families()[i as int].0
                    == tf_id,
                None => forall|j: int|
                    0 <= j < self.spec_families().len() ==> (#[trigger] self.spec_families()[
                    j]).0 != tf_id,
            },
    {
        let n = self.ts_families_store.len();
        let mut i: usize = 0;
        while i < n
            invariant
                i <= n,
                n == self.ts_families_store@.len(),
                forall|j: int| 0 <= j < i ==> (#[trigger] self.ts_families_store@[j]).0 != tf_id,
            decreases n - i,
        {
            if self.ts_families_store[i].0 == tf_id {
                return Some(i);
            }
            i = i + 1;
        }
        None
    }

    /// The open vnode of one family ID, if any.
    pub fn get_tsfamily(&self, tf_id: u32) -> (r: Option<&VnodeStorage>)
        requires
            self.wf(),
        ensures
            match r {
                Some(v) => assoc_get(self.spec_families(), tf_id) == Some(*v) && v.wf(),
                None => assoc_get(self.spec_families(), tf_id) == None::<VnodeStorage>,
            },
    {
        match self.find_family(tf_id) {
            Some(i) => {
                proof {
                    lemma_assoc_get_present(self.spec_families(), tf_id, i as int);
                }
                Some(&self.ts_families_store[i].1)
            },
            None => {
                proof {
                    assert(!has_key(self.spec_families(), tf_id));
                    lemma_assoc_get_absent(self.spec_families(), tf_id);
                }
                None
            },
        }
    }

    /// The series index of one family ID, if any.
    pub fn get_ts_index(&self, tf_id: u32) -> (r: Option<&TsIndex>)
        requires
            self.wf(),
        ensures
            match r {
                Some(v) => assoc_get(self.spec_indexes(), tf_id) == Some(*v) && v.wf(),
                None => assoc_get(self.spec_indexes(), tf_id) == None::<TsIndex>,
            },
    {
        let n = self.ts_indexes_store.len();
        let mut i: usize = 0;
        while i < n
            invariant
                i <= n,
                n == self.ts_indexes_store@.len(),
                self.wf(),
                forall|j: int| 0 <= j < i ==> (#[trigger] self.ts_indexes_store@[j]).0 != tf_id,
            decreases n - i,
        {
            if self.ts_indexes_store[i].0 == tf_id {
                proof {
                    lemma_assoc_get_present(self.spec_indexes(), tf_id, i as int);
                }
                return Some(&self.ts_indexes_store[i].1);
            }
            i = i + 1;
        }
        proof {
            assert(!has_key(self.spec_indexes(), tf_id));
            lemma_assoc_get_absent(self.spec_indexes(), tf_id);
        }
        None
    }

    /// Opens one family: hands the vnode to this database. Opening an
    /// already open family replaces it.
    pub fn open_tsfamily(&mut self, vnode: VnodeStorage)
        requires
            old(self).wf(),
            vnode.wf(),
        ensures
            final(self).wf(),
            assoc_get(final(self).spec_families(), vnode.durable.tf_id) == Some(vnode),
            forall|k: u32|
                k != vnode.durable.tf_id ==> assoc_get(final(self).spec_families(), k)
                    == assoc_get(old(self).spec_families(), k),
            final(self).spec_indexes() == old(self).spec_indexes(),
            final(self).schema == old(self).schema,
    {
        let tf_id = vnode.durable.tf_id;
        let ghost fv = self.ts_families_store@;
        match self.find_family(tf_id) {
            Some(i) => {
                proof {
                    crate::assoc::lemma_assoc_update(fv, i as int, vnode);
                }
                let _ = self.ts_families_store.remove(i);
                self.ts_families_store.push((tf_id, vnode));
                proof {
                    assert(self.ts_families_store@ =~= fv.remove(i as int).push((tf_id, vnode)));
                }
            },
            None => {
                proof {
                    assert(!has_key(fv, tf_id));
                    lemma_assoc_insert(fv, tf_id, vnode);
                }
                self.ts_families_store.push((tf_id, vnode));
            },
        }
    }

    /// The series index of one family, created on first use.
    pub fn get_ts_index_or_add(&mut self, tf_id: u32)
        requires
            old(self).wf(),
        ensures
            final(self).wf(),
            has_key(final(self).spec_indexes(), tf_id),
            forall|k: u32|
                k != tf_id ==> assoc_get(final(self).spec_indexes(), k) == assoc_get(
                    old(self).spec_indexes(), k),
            final(self).spec_families() == old(self).spec_families(),
            final(self).schema == old(self).schema,
    {
        let n = self.ts_indexes_store.len();
        let mut i: usize = 0;
        while i < n
            invariant
                i <= n,
                n == self.ts_indexes_store@.len(),
                self.wf(),
                forall|j: int| 0 <= j < i ==> (#[trigger] self.ts_indexes_store@[j]).0 != tf_id,
            decreases n - i,
        {
            if self.ts_indexes_store[i].0 == tf_id {
                return;
            }
            i = i + 1;
        }
        let ghost iv = self.ts_indexes_store@;
        proof {
            assert(!has_key(iv, tf_id));
        }
        self.ts_indexes_store.push((tf_id, TsIndex::new()));
        proof {
            let added = self.ts_indexes_store@[self.ts_indexes_store@.len() - 1].1;
            assert(has_key(self.ts_indexes_store@, tf_id)) by {
                assert(self.ts_indexes_store@[self.ts_indexes_store@.len() - 1].0 == tf_id);
            }
            lemma_assoc_insert(iv, tf_id, added);
            assert(self.ts_indexes_store@ =~= iv.push((tf_id, added)));
        }
    }

    /// Closes one family and hands its vnode back, if it was open.
    pub fn remove_tsfamily(&mut self, tf_id: u32) -> (r: Option<VnodeStorage>)
        requires
            old(self).wf(),
        ensures
            final(self).wf(),
            assoc_get(final(self).spec_families(), tf_id) == None::<VnodeStorage>,
            forall|k: u32|
                k != tf_id ==> assoc_get(final(self).spec_families(), k) == assoc_get(
                    old(self).spec_families(), k),
            r == assoc_get(old(self).spec_families(), tf_id),
            final(self).spec_indexes() == old(self).spec_indexes(),
    {
        let ghost fv = self.ts_families_store@;
        match self.find_family(tf_id) {
            Some(i) => {
                proof {
                    lemma_assoc_get_present(fv, tf_id, i as int);
                    lemma_assoc_remove(fv, i as int);
                }
                let entry = self.ts_families_store.remove(i);
                Some(entry.1)
            },
            None => {
                proof {
                    assert(!has_key(fv, tf_id));
                    lemma_assoc_get_absent(fv, tf_id);
                }
                None
            },
        }
    }

    /// How many families are open.
    pub fn tsf_num(&self) -> (r: usize)
        ensures
            r == self.spec_families().len(),
    {
        self.ts_families_store.len()
    }

    /// The open families, in insertion order.
    pub fn ts_families(&self) -> (r: &Vec<(u32, VnodeStorage)>)
        ensures
            r@ == self.spec_families(),
    {
        &self.ts_families_store
    }

    /// The schema of this database.
    pub fn get_schema(&self) -> (r: &DatabaseSchema)
        ensures
            r.tenant@ == self.schema.tenant@,
            r.database@ == self.schema.database@,
    {
        &self.schema
    }
}

} // verus!
