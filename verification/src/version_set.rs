//! The version set: every open database of one storage instance, each
//! keyed by its owner (`tenant.database`), each owning its time-series
//! families.

use vstd::prelude::*;
use crate::assoc::{assoc_get, has_key, lemma_assoc_get_absent, lemma_assoc_get_present,
    lemma_assoc_insert, lemma_assoc_remove, lemma_assoc_update, unique_keys};
use crate::bloom::BloomFilter;
use crate::database::{Database, DatabaseSchema, TsIndex};
use crate::version::VersionEdit;
use crate::tsm::TsmFile;
use crate::vnode::VnodeStorage;

verus! {

/// The owner string of a database: tenant, a dot, database.
pub open spec fn owner_view(tenant: Seq<char>, database: Seq<char>) -> Seq<char> {
    tenant + seq!['.'] + database
}

/// Builds the owner string of a database.
pub fn make_owner(tenant: &str, database: &str) -> (r: String)
    ensures
        r@ == owner_view(tenant@, database@),
{
    proof {
        reveal_strlit(".");
        assert("."@ =~= seq!['.']);
    }
    let mut owner = String::from_str(tenant);
    owner.append(".");
    owner.append(database);
    proof {
        assert(owner@ =~= owner_view(tenant@, database@));
    }
    owner
}

/// The databases of a version set, keyed by owner.
pub open spec fn dbs_view(dbs: Seq<(String, Database)>) -> Seq<(Seq<char>, Database)> {
    dbs.map_values(|e: (String, Database)| (e.0@, e.1))
}

/// The first vnode with one family ID, looking through the databases in
/// order.
pub open spec fn vs_find_tsf(dbs: Seq<(Seq<char>, Database)>, tf_id: u32) -> Option<VnodeStorage>
    decreases dbs.len(),
{
    if dbs.len() == 0 {
        None
    } else {
        match assoc_get(dbs[0].1.spec_families(), tf_id) {
            Some(v) => Some(v),
            None => vs_find_tsf(dbs.drop_first(), tf_id),
        }
    }
}

/// The series index that accompanies the first vnode with one family ID:
/// the index of the same database, if that database has one.
pub open spec fn vs_find_tsf_index(dbs: Seq<(Seq<char>, Database)>, tf_id: u32) -> Option<TsIndex>
    decreases dbs.len(),
{
    if dbs.len() == 0 {
        None
    } else {
        match assoc_get(dbs[0].1.spec_families(), tf_id) {
            Some(v) => assoc_get(dbs[0].1.spec_indexes(), tf_id),
            None => vs_find_tsf_index(dbs.drop_first(), tf_id),
        }
    }
}

/// The (family ID, last sequence) pairs of every open family, databases in
/// order.
pub open spec fn vs_seq_no_view(dbs: Seq<(Seq<char>, Database)>) -> Seq<(u32, u64)>
    decreases dbs.len(),
{
    if dbs.len() == 0 {
        Seq::empty()
    } else {
        dbs[0].1.spec_families().map_values(
            |e: (u32, VnodeStorage)| (e.0, e.1.version.last_seq),
        ) + vs_seq_no_view(dbs.drop_first())
    }
}

/// The (added files, sequence, family) view of the snapshot edits: one
/// aggregate edit per open family, databases in order.
pub open spec fn vs_snapshot_view(dbs: Seq<(Seq<char>, Database)>) -> Seq<
    (Seq<crate::version::CompactMeta>, u64, u32),
>
    decreases dbs.len(),
{
    if dbs.len() == 0 {
        Seq::empty()
    } else {
        dbs[0].1.spec_families().map_values(
            |e: (u32, VnodeStorage)| (e.1.version.files@, e.1.version.last_seq, e.0),
        ) + vs_snapshot_view(dbs.drop_first())
    }
}

/// The (file ID, filter bits, recorded field IDs) of a directory of
/// column files, in order: what a snapshot's filter list must carry.
pub open spec fn files_blooms(files: Seq<TsmFile>) -> Seq<(u64, Seq<bool>, Set<u64>)> {
    files.map_values(|f: TsmFile| (f.meta.file_id, f.bloom.spec_bits(), f.bloom.elems()))
}

/// The filters of every durable column file of a list of families.
pub open spec fn fams_blooms_view(fams: Seq<(u32, VnodeStorage)>) -> Seq<
    (u64, Seq<bool>, Set<u64>),
>
    decreases fams.len(),
{
    if fams.len() == 0 {
        Seq::empty()
    } else {
        files_blooms(fams[0].1.durable.files@) + fams_blooms_view(fams.drop_first())
    }
}

/// The filters of every durable column file of every family of every
/// database, in order.
pub open spec fn vs_blooms_view(dbs: Seq<(Seq<char>, Database)>) -> Seq<
    (u64, Seq<bool>, Set<u64>),
>
    decreases dbs.len(),
{
    if dbs.len() == 0 {
        Seq::empty()
    } else {
        fams_blooms_view(dbs[0].1.spec_families()) + vs_blooms_view(dbs.drop_first())
    }
}

/// A returned filter list, viewed by bits and recorded field IDs.
pub open spec fn blooms_of(bs: Seq<(u64, BloomFilter)>) -> Seq<(u64, Seq<bool>, Set<u64>)> {
    bs.map_values(|e: (u64, BloomFilter)| (e.0, e.1.spec_bits(), e.1.elems()))
}

/// How many families are open over all databases.
pub open spec fn vs_tsf_num(dbs: Seq<(Seq<char>, Database)>) -> int
    decreases dbs.len(),
{
    if dbs.len() == 0 {
        0
    } else {
        dbs[0].1.spec_families().len() + vs_tsf_num(dbs.drop_first())
    }
}

/// The owner a recovery entry registers its vnode under.
pub open spec fn entry_owner(e: (DatabaseSchema, VnodeStorage)) -> Seq<char> {
    owner_view(e.0.tenant@, e.0.database@)
}

/// Whether no later entry (below `upto`) registers the same owner and
/// family ID: such an entry's vnode is the one that stays registered.
pub open spec fn last_for_key(
    ev: Seq<(DatabaseSchema, VnodeStorage)>,
    j: int,
    upto: int,
) -> bool {
    forall|j2: int|
        j < j2 < upto ==> !(entry_owner(#[trigger] ev[j2]) == entry_owner(ev[j])
            && ev[j2].1.durable.tf_id == ev[j].1.durable.tf_id)
}

/// Every open database of one storage instance.
pub struct VersionSet {
    pub dbs_store: Vec<(String, Database)>,
}

impl VersionSet {
    /// The databases, keyed by owner.
    pub open spec fn spec_dbs(self) -> Seq<(Seq<char>, Database)> {
        dbs_view(self.dbs_store@)
    }

    pub open spec fn wf(self) -> bool {
        &&& unique_keys(self.spec_dbs())
        &&& forall|i: int| 0 <= i < self.spec_dbs().len() ==> (#[trigger] self.spec_dbs()[i]).1.wf()
    }

    /// A version set with no databases.
    pub fn empty() -> (r: VersionSet)
        ensures
            r.wf(),
            r.spec_dbs() == Seq::<(Seq<char>, Database)>::empty(),
    {
        let r = VersionSet { dbs_store: Vec::new() };
        proof {
            assert(r.spec_dbs() =~= Seq::<(Seq<char>, Database)>::empty());
        }
        r
    }

    /// An empty version set for tests that need no databases.
    pub fn build_empty_test() -> (r: VersionSet)
        ensures
            r.wf(),
            r.spec_dbs() == Seq::<(Seq<char>, Database)>::empty(),
    {
        VersionSet::empty()
    }


    /// Builds a version set from recovered vnodes: each arrives with its
    /// database's schema (read from the metadata service by the caller),
    /// lands in the database owning it — created on first sight — and gets
    /// its series index. Every entry's vnode is registered under its own
    /// family ID, and its database under its schema's owner.
    pub fn new(entries: Vec<(DatabaseSchema, VnodeStorage)>) -> (r: VersionSet)
        requires
            forall|j: int| 0 <= j < entries@.len() ==> (#[trigger] entries@[j]).1.wf(),
        ensures
            r.wf(),
            forall|j: int|
                0 <= j < entries@.len() ==> match assoc_get(
                    r.spec_dbs(),
                    entry_owner(#[trigger] entries@[j]),
                ) {
                    Some(db) => {
                        &&& assoc_get(db.spec_families(), entries@[j].1.durable.tf_id) is Some
                        &&& assoc_get(db.spec_indexes(), entries@[j].1.durable.tf_id) is Some
                        &&& last_for_key(entries@, j, entries@.len() as int) ==> assoc_get(
                            db.spec_families(),
                            entries@[j].1.durable.tf_id,
                        ) == Some(entries@[j].1)
                    },
                    None => false,
                },
    {
        let ghost ev = entries@;
        let mut rest = entries;
        let mut vs = VersionSet::empty();
        let ghost i: int = 0;
        proof {
            assert(rest@ =~= ev.skip(0));
        }
        loop
            invariant
                0 <= i <= ev.len(),
                rest@ == ev.skip(i),
                forall|j: int| 0 <= j < ev.len() ==> (#[trigger] ev[j]).1.wf(),
                vs.wf(),
                forall|j: int|
                    0 <= j < i ==> match assoc_get(vs.spec_dbs(), entry_owner(#[trigger] ev[j])) {
                        Some(db) => {
                            &&& assoc_get(db.spec_families(), ev[j].1.durable.tf_id) is Some
                            &&& assoc_get(db.spec_indexes(), ev[j].1.durable.tf_id) is Some
                            &&& last_for_key(ev, j, i) ==> assoc_get(
                                db.spec_families(),
                                ev[j].1.durable.tf_id,
                            ) == Some(ev[j].1)
                        },
                        None => false,
                    },
            ensures
                vs.wf(),
                forall|j: int|
                    0 <= j < ev.len() ==> match assoc_get(
                        vs.spec_dbs(),
                        entry_owner(#[trigger] ev[j]),
                    ) {
                        Some(db) => {
                            &&& assoc_get(db.spec_families(), ev[j].1.durable.tf_id) is Some
                            &&& assoc_get(db.spec_indexes(), ev[j].1.durable.tf_id) is Some
                            &&& last_for_key(ev, j, ev.len() as int) ==> assoc_get(
                                db.spec_families(),
                                ev[j].1.durable.tf_id,
                            ) == Some(ev[j].1)
                        },
                        None => false,
                    },
            decreases rest@.len(),
        {
            if rest.len() == 0 {
                proof {
                    assert(i == ev.len());
                }
                break;
            }
            proof {
                assert(rest@[0] == ev[i]);
                assert(rest@.drop_first() =~= ev.skip(i + 1));
            }
            let entry = rest.remove(0);
            assert(entry == ev[i]);
            let schema = entry.0;
            let vnode = entry.1;
            let tf_id = vnode.durable.tf_id;
            proof {
                assert(schema == ev[i].0 && vnode == ev[i].1);
            }
            let owner = make_owner(schema.tenant.as_str(), schema.database.as_str());
            proof {
                assert(owner@ == entry_owner(ev[i]));
            }
            let ghost before = vs.spec_dbs();
            vs.create_db(schema);
            let ghost after_create = vs.spec_dbs();
            match vs.find_db(&owner) {
                Some(idx) => {
                    proof {
                        assert(after_create[idx as int].0 == owner@);
                        lemma_assoc_get_present(after_create, owner@, idx as int);
                    }
                    let db_entry = vs.dbs_store.remove(idx);
                    let key = db_entry.0;
                    let mut db = db_entry.1;
                    proof {
                        assert(after_create[idx as int].1 == db);
                    }
                    let ghost db_pulled = db;
                    db.open_tsfamily(vnode);
                    db.get_ts_index_or_add(tf_id);
                    proof {
                        lemma_assoc_update(after_create, idx as int, db);
                    }
                    vs.dbs_store.push((key, db));
                    proof {
                        assert(vs.spec_dbs() =~= after_create.remove(idx as int).push(
                            (owner@, db)));
                        assert(assoc_get(vs.spec_dbs(), owner@) == Some(db));
                        assert(assoc_get(db.spec_families(), tf_id) == Some(ev[i].1));
                        crate::assoc::lemma_assoc_get_has_key(db.spec_indexes(), tf_id);
                        assert(assoc_get(db.spec_indexes(), tf_id) is Some);
                        assert forall|j: int|
                            0 <= j < i + 1 implies match assoc_get(
                            vs.spec_dbs(),
                            entry_owner(#[trigger] ev[j]),
                        ) {
                            Some(dbx) => {
                                &&& assoc_get(dbx.spec_families(), ev[j].1.durable.tf_id)
                                    is Some
                                &&& assoc_get(dbx.spec_indexes(), ev[j].1.durable.tf_id)
                                    is Some
                                &&& last_for_key(ev, j, i + 1) ==> assoc_get(
                                    dbx.spec_families(),
                                    ev[j].1.durable.tf_id,
                                ) == Some(ev[j].1)
                            },
                            None => false,
                        } by {
                            let oj = entry_owner(ev[j]);
                            if j == i {
                                assert(assoc_get(vs.spec_dbs(), oj) == Some(db));
                            } else {
                                if oj == owner@ {
                                    assert(assoc_get(vs.spec_dbs(), oj) == Some(db));
                                    assert(assoc_get(after_create, oj) == Some(db_pulled));
                                    assert(after_create == before);
                                    if last_for_key(ev, j, i + 1) {
                                        assert(last_for_key(ev, j, i));
                                        assert(ev[j].1.durable.tf_id != tf_id) by {
                                            if ev[j].1.durable.tf_id == tf_id {
                                                assert(entry_owner(ev[i]) == entry_owner(
                                                    ev[j]) && ev[i].1.durable.tf_id
                                                    == ev[j].1.durable.tf_id);
                                            }
                                        }
                                        assert(assoc_get(db.spec_families(),
                                            ev[j].1.durable.tf_id) == assoc_get(
                                            db_pulled.spec_families(),
                                            ev[j].1.durable.tf_id));
                                    }
                                } else {
                                    assert(assoc_get(vs.spec_dbs(), oj) == assoc_get(
                                        after_create, oj));
                                    assert(assoc_get(after_create, oj) == assoc_get(
                                        before, oj));
                                    if last_for_key(ev, j, i + 1) {
                                        assert(last_for_key(ev, j, i));
                                    }
                                }
                            }
                        }
                    }
                },
                None => {
                    proof {
                        // create_db guarantees the owner's database exists.
                        assert(has_key(after_create, owner@));
                        let j = choose|j: int|
                            0 <= j < after_create.len() && after_create[j].0 == owner@;
                        assert(false);
                    }
                },
            }
            proof {
                i = i + 1;
            }
        }
        vs
    }

    /// The position of the database with one owner.
    fn find_db(&self, owner: &String) -> (r: Option<usize>)
        ensures
            match r {
                Some(i) => i < self.spec_dbs().len() && self.spec_dbs()[i as int].0 == owner@,
                None => forall|j: int|
                    0 <= j < self.spec_dbs().len() ==> (#[trigger] self.spec_dbs()[j]).0
                        != owner@,
            },
    {
        let ghost dv = self.spec_dbs();
        proof {
            assert(forall|j: int|
                0 <= j < dv.len() ==> dv[j] == ((#[trigger] self.dbs_store@[j]).0@,
                self.dbs_store@[j].1));
        }
        let n = self.dbs_store.len();
        let mut i: usize = 0;
        while i < n
            invariant
                i <= n,
                n == self.dbs_store@.len(),
                dv == self.spec_dbs(),
                forall|j: int| 0 <= j < i ==> (#[trigger] self.dbs_store@[j]).0@ != owner@,
            decreases n - i,
        {
            if self.dbs_store[i].0 == *owner {
                proof {
                    assert(dv[i as int].0 == owner@);
                }
                return Some(i);
            }
            i = i + 1;
        }
        proof {
            assert forall|j: int| 0 <= j < dv.len() implies (#[trigger] dv[j]).0 != owner@ by {
                assert(dv[j].0 == self.dbs_store@[j].0@);
            }
        }
        None
    }

    /// Opens a database: creates it with the given schema unless one with
    /// the same owner is already open.
    pub fn create_db(&mut self, schema: DatabaseSchema)
        requires
            old(self).wf(),
        ensures
            final(self).wf(),
            has_key(
                final(self).spec_dbs(),
                owner_view(schema.tenant@, schema.database@),
            ),
            forall|k: Seq<char>|
                k != owner_view(schema.tenant@, schema.database@) ==> assoc_get(
                    final(self).spec_dbs(), k) == assoc_get(old(self).spec_dbs(), k),
            match assoc_get(old(self).spec_dbs(), owner_view(schema.tenant@, schema.database@)) {
                Some(db) => final(self).spec_dbs() == old(self).spec_dbs(),
                None => assoc_get(
                    final(self).spec_dbs(),
                    owner_view(schema.tenant@, schema.database@),
                ) matches Some(db) && db.spec_families() == Seq::<(u32, VnodeStorage)>::empty(),
            },
    {
        let owner = make_owner(schema.tenant.as_str(), schema.database.as_str());
        let ghost dv = self.spec_dbs();
        match self.find_db(&owner) {
            Some(i) => {
                proof {
                    lemma_assoc_get_present(dv, owner@, i as int);
                }
            },
            None => {
                proof {
                    assert(!has_key(dv, owner@)) by {
                        if has_key(dv, owner@) {
                            let j = choose|j: int| 0 <= j < dv.len() && dv[j].0 == owner@;
                        }
                    }
                    lemma_assoc_get_absent(dv, owner@);
                }
                let db = Database::new(schema);
                self.dbs_store.push((owner, db));
                proof {
                    let added = self.spec_dbs()[self.spec_dbs().len() - 1];
                    lemma_assoc_insert(dv, added.0, added.1);
                    assert(self.spec_dbs() =~= dv.push(added));
                    assert(has_key(self.spec_dbs(), added.0)) by {
                        assert(self.spec_dbs()[self.spec_dbs().len() - 1].0 == added.0);
                    }
                }
            },
        }
    }

    /// Closes a database and hands it back, if one with that owner was
    /// open.
    pub fn delete_db(&mut self, tenant: &str, database: &str) -> (r: Option<Database>)
        requires
            old(self).wf(),
        ensures
            final(self).wf(),
            r == assoc_get(old(self).spec_dbs(), owner_view(tenant@, database@)),
            assoc_get(final(self).spec_dbs(), owner_view(tenant@, database@))
                == None::<Database>,
            forall|k: Seq<char>|
                k != owner_view(tenant@, database@) ==> assoc_get(final(self).spec_dbs(), k)
                    == assoc_get(old(self).spec_dbs(), k),
    {
        let owner = make_owner(tenant, database);
        let ghost dv = self.spec_dbs();
        match self.find_db(&owner) {
            Some(i) => {
                proof {
                    lemma_assoc_remove(dv, i as int);
                    lemma_assoc_get_present(dv, owner@, i as int);
                }
                let entry = self.dbs_store.remove(i);
                proof {
                    assert(self.spec_dbs() =~= dv.remove(i as int));
                    assert(entry.1 == dv[i as int].1);
                }
                Some(entry.1)
            },
            None => {
                proof {
                    assert(!has_key(dv, owner@)) by {
                        if has_key(dv, owner@) {
                            let j = choose|j: int| 0 <= j < dv.len() && dv[j].0 == owner@;
                        }
                    }
                    lemma_assoc_get_absent(dv, owner@);
                }
                None
            },
        }
    }

    /// Whether a database with this owner is open.
    pub fn db_exists(&self, tenant: &str, database: &str) -> (r: bool)
        requires
            self.wf(),
        ensures
            r == has_key(self.spec_dbs(), owner_view(tenant@, database@)),
    {
        let owner = make_owner(tenant, database);
        match self.find_db(&owner) {
            Some(i) => {
                proof {
                    assert(has_key(self.spec_dbs(), owner@)) by {
                        assert(self.spec_dbs()[i as int].0 == owner@);
                    }
                }
                true
            },
            None => {
                proof {
                    if has_key(self.spec_dbs(), owner@) {
                        let j = choose|j: int|
                            0 <= j < self.spec_dbs().len() && self.spec_dbs()[j].0 == owner@;
                    }
                }
                false
            },
        }
    }

    /// The schema of one open database.
    pub fn get_db_schema(&self, tenant: &str, database: &str) -> (r: Option<&DatabaseSchema>)
        requires
            self.wf(),
        ensures
            match r {
                Some(s) => assoc_get(self.spec_dbs(), owner_view(tenant@, database@))
                    matches Some(db) && db.schema == *s,
                None => assoc_get(self.spec_dbs(), owner_view(tenant@, database@))
                    == None::<Database>,
            },
    {
        match self.get_db(tenant, database) {
            Some(db) => Some(&db.schema),
            None => None,
        }
    }

    /// Every open database, keyed by owner.
    pub fn get_all_db(&self) -> (r: &Vec<(String, Database)>)
        ensures
            dbs_view(r@) == self.spec_dbs(),
    {
        &self.dbs_store
    }

    /// One open database.
    pub fn get_db(&self, tenant_name: &str, db_name: &str) -> (r: Option<&Database>)
        requires
            self.wf(),
        ensures
            match r {
                Some(db) => assoc_get(self.spec_dbs(), owner_view(tenant_name@, db_name@))
                    == Some(*db) && db.wf(),
                None => assoc_get(self.spec_dbs(), owner_view(tenant_name@, db_name@))
                    == None::<Database>,
            },
    {
        let owner = make_owner(tenant_name, db_name);
        match self.find_db(&owner) {
            Some(i) => {
                proof {
                    lemma_assoc_get_present(self.spec_dbs(), owner@, i as int);
                    assert(self.spec_dbs()[i as int].1 == self.dbs_store@[i as int].1);
                }
                Some(&self.dbs_store[i].1)
            },
            None => {
                proof {
                    assert(!has_key(self.spec_dbs(), owner@)) by {
                        if has_key(self.spec_dbs(), owner@) {
                            let j = choose|j: int|
                                0 <= j < self.spec_dbs().len() && self.spec_dbs()[j].0
                                    == owner@;
                        }
                    }
                    lemma_assoc_get_absent(self.spec_dbs(), owner@);
                }
                None
            },
        }
    }

    /// The first open vnode with one family ID, over all databases.
    pub fn get_tsfamily_by_tf_id(&self, tf_id: u32) -> (r: Option<&VnodeStorage>)
        requires
            self.wf(),
        ensures
            match r {
                Some(v) => vs_find_tsf(self.spec_dbs(), tf_id) == Some(*v) && v.wf(),
                None => vs_find_tsf(self.spec_dbs(), tf_id) == None::<VnodeStorage>,
            },
    {
        let ghost dv = self.spec_dbs();
        let n = self.dbs_store.len();
        let mut i: usize = 0;
        proof {
            assert(dv.skip(0) =~= dv);
        }
        while i < n
            invariant
                i <= n,
                n == self.dbs_store@.len(),
                self.wf(),
                dv == self.spec_dbs(),
                vs_find_tsf(dv, tf_id) == vs_find_tsf(dv.skip(i as int), tf_id),
            decreases n - i,
        {
            let ghost tail = dv.skip(i as int);
            proof {
                assert(tail[0] == dv[i as int]);
                assert(tail.drop_first() =~= dv.skip(i + 1));
                assert(dv[i as int].1 == self.dbs_store@[i as int].1);
            }
            match self.dbs_store[i].1.get_tsfamily(tf_id) {
                Some(v) => {
                    return Some(v);
                },
                None => {},
            }
            i = i + 1;
        }
        proof {
            assert(dv.skip(n as int) =~= Seq::<(Seq<char>, Database)>::empty());
        }
        None
    }

    /// The first open vnode with one family ID and, from the same database,
    /// its series index.
    pub fn get_tsfamily_tsindex_by_tf_id(&self, tf_id: u32) -> (r: (
        Option<&VnodeStorage>,
        Option<&TsIndex>,
    ))
        requires
            self.wf(),
        ensures
            match r.0 {
                Some(v) => vs_find_tsf(self.spec_dbs(), tf_id) == Some(*v) && v.wf(),
                None => vs_find_tsf(self.spec_dbs(), tf_id) == None::<VnodeStorage>,
            },
            match r.1 {
                Some(ix) => ix.wf() && vs_find_tsf_index(self.spec_dbs(), tf_id) == Some(*ix),
                None => vs_find_tsf_index(self.spec_dbs(), tf_id) == None::<TsIndex>,
            },
            r.0 is None ==> r.1 is None,
    {
        let ghost dv = self.spec_dbs();
        let n = self.dbs_store.len();
        let mut i: usize = 0;
        proof {
            assert(dv.skip(0) =~= dv);
        }
        while i < n
            invariant
                i <= n,
                n == self.dbs_store@.len(),
                self.wf(),
                dv == self.spec_dbs(),
                vs_find_tsf(dv, tf_id) == vs_find_tsf(dv.skip(i as int), tf_id),
                vs_find_tsf_index(dv, tf_id) == vs_find_tsf_index(dv.skip(i as int), tf_id),
            decreases n - i,
        {
            let ghost tail = dv.skip(i as int);
            proof {
                assert(tail[0] == dv[i as int]);
                assert(tail.drop_first() =~= dv.skip(i + 1));
                assert(dv[i as int].1 == self.dbs_store@[i as int].1);
            }
            match self.dbs_store[i].1.get_tsfamily(tf_id) {
                Some(v) => {
                    let ix = self.dbs_store[i].1.get_ts_index(tf_id);
                    proof {
                        assert(vs_find_tsf_index(tail, tf_id) == assoc_get(
                            tail[0].1.spec_indexes(), tf_id));
                    }
                    return (Some(v), ix);
                },
                None => {},
            }
            i = i + 1;
        }
        proof {
            assert(dv.skip(n as int) =~= Seq::<(Seq<char>, Database)>::empty());
        }
        (None, None)
    }

    /// One open vnode, addressed by owner and family ID.
    pub fn get_tsfamily_by_name_id(&self, tenant: &str, database: &str, tf_id: u32) -> (r:
        Option<&VnodeStorage>)
        requires
            self.wf(),
        ensures
            match r {
                Some(v) => {
                    &&& v.wf()
                    &&& assoc_get(self.spec_dbs(), owner_view(tenant@, database@))
                        matches Some(db) && assoc_get(db.spec_families(), tf_id) == Some(*v)
                },
                None => match assoc_get(self.spec_dbs(), owner_view(tenant@, database@)) {
                    Some(db) => assoc_get(db.spec_families(), tf_id) == None::<VnodeStorage>,
                    None => true,
                },
            },
    {
        match self.get_db(tenant, database) {
            Some(db) => db.get_tsfamily(tf_id),
            None => None,
        }
    }

    /// One aggregate edit per open family — the live files and the flushed
    /// sequence — with the bloom filter of every live column file: the
    /// state a replication snapshot carries.
    pub fn snapshot(&self) -> (r: (Vec<VersionEdit>, Vec<(u64, BloomFilter)>))
        requires
            self.wf(),
        ensures
            r.0@.map_values(
                |e: VersionEdit| (e.add_files@, e.seq_no, e.tsf_id),
            ) == vs_snapshot_view(self.spec_dbs()),
            forall|k: int| 0 <= k < r.0@.len() ==> (#[trigger] r.0@[k]).del_file_ids@.len() == 0,
            blooms_of(r.1@) == vs_blooms_view(self.spec_dbs()),
    {
        let ghost dv = self.spec_dbs();
        let mut edits: Vec<VersionEdit> = Vec::new();
        let mut blooms: Vec<(u64, BloomFilter)> = Vec::new();
        let n = self.dbs_store.len();
        let mut i: usize = 0;
        proof {
            assert(dv.skip(0) =~= dv);
            assert(edits@.map_values(|e: VersionEdit| (e.add_files@, e.seq_no, e.tsf_id))
                =~= Seq::<(Seq<crate::version::CompactMeta>, u64, u32)>::empty());
            assert(blooms_of(blooms@) =~= Seq::<(u64, Seq<bool>, Set<u64>)>::empty());
        }
        while i < n
            invariant
                i <= n,
                n == self.dbs_store@.len(),
                self.wf(),
                dv == self.spec_dbs(),
                vs_snapshot_view(dv) == edits@.map_values(
                    |e: VersionEdit| (e.add_files@, e.seq_no, e.tsf_id),
                ) + vs_snapshot_view(dv.skip(i as int)),
                vs_blooms_view(dv) == blooms_of(blooms@) + vs_blooms_view(dv.skip(i as int)),
                forall|k: int|
                    0 <= k < edits@.len() ==> (#[trigger] edits@[k]).del_file_ids@.len() == 0,
            decreases n - i,
        {
            let ghost tail = dv.skip(i as int);
            proof {
                assert(tail[0] == dv[i as int]);
                assert(tail.drop_first() =~= dv.skip(i + 1));
                assert(dv[i as int].1 == self.dbs_store@[i as int].1);
            }
            let fams = self.dbs_store[i].1.ts_families();
            let ghost fv = self.dbs_store@[i as int].1.spec_families();
            let m = fams.len();
            let ghost edits_before = edits@;
            proof {
                assert(fv.skip(0) =~= fv);
                assert(vs_blooms_view(tail) == fams_blooms_view(fv) + vs_blooms_view(
                    dv.skip(i + 1)));
            }
            let mut j: usize = 0;
            while j < m
                invariant
                    j <= m,
                    i < self.dbs_store@.len(),
                    self.wf(),
                    fams@ == fv,
                    fv == self.spec_dbs()[i as int].1.spec_families(),
                    m == fv.len(),
                    dv == self.spec_dbs(),
                    edits@.map_values(|e: VersionEdit| (e.add_files@, e.seq_no, e.tsf_id))
                        == edits_before.map_values(
                        |e: VersionEdit| (e.add_files@, e.seq_no, e.tsf_id),
                    ) + fv.subrange(0, j as int).map_values(
                        |e: (u32, VnodeStorage)| (e.1.version.files@, e.1.version.last_seq, e.0),
                    ),
                    vs_blooms_view(dv) == blooms_of(blooms@) + fams_blooms_view(
                        fv.skip(j as int),
                    ) + vs_blooms_view(dv.skip(i + 1)),
                    forall|k: int|
                        0 <= k < edits@.len() ==> (#[trigger] edits@[k]).del_file_ids@.len()
                            == 0,
                decreases m - j,
            {
                let tf_id = fams[j].0;
                let vnode = &fams[j].1;
                let mut add_files: Vec<crate::version::CompactMeta> = Vec::new();
                let nf = vnode.version.files.len();
                let mut q: usize = 0;
                while q < nf
                    invariant
                        q <= nf,
                        j < fv.len(),
                        fams@ == fv,
                        nf == fv[j as int].1.version.files@.len(),
                        vnode == &fams@[j as int].1,
                        add_files@ == fv[j as int].1.version.files@.subrange(0, q as int),
                    decreases nf - q,
                {
                    add_files.push(vnode.version.files[q]);
                    proof {
                        assert(add_files@ =~= fv[j as int].1.version.files@.subrange(0, q + 1));
                    }
                    q = q + 1;
                }
                proof {
                    assert(fv[j as int].1.version.files@.subrange(0, nf as int)
                        =~= fv[j as int].1.version.files@);
                }
                let edit = VersionEdit {
                    add_files,
                    del_file_ids: Vec::new(),
                    max_level: 0,
                    seq_no: vnode.version.last_seq(),
                    tsf_id: tf_id,
                };
                proof {
                    assert(fv.skip(j as int)[0] == fv[j as int]);
                    assert(fv.skip(j as int).drop_first() =~= fv.skip(j + 1));
                    assert(fams_blooms_view(fv.skip(j as int)) == files_blooms(
                        fv[j as int].1.durable.files@) + fams_blooms_view(fv.skip(j + 1)));
                }
                let ghost ffiles = fv[j as int].1.durable.files@;
                let ghost bl_before = blooms_of(blooms@);
                let nd = vnode.durable.files.len();
                let mut q2: usize = 0;
                proof {
                    assert(blooms_of(blooms@) =~= bl_before + files_blooms(
                        ffiles.subrange(0, 0)));
                }
                while q2 < nd
                    invariant
                        q2 <= nd,
                        j < fv.len(),
                        fams@ == fv,
                        self.wf(),
                        ffiles == fv[j as int].1.durable.files@,
                        nd == ffiles.len(),
                        vnode == &fams@[j as int].1,
                        blooms_of(blooms@) == bl_before + files_blooms(
                            ffiles.subrange(0, q2 as int),
                        ),
                    decreases nd - q2,
                {
                    let fid = vnode.durable.files[q2].meta.file_id;
                    let bf = vnode.durable.files[q2].bloom.duplicate();
                    let ghost pre = blooms_of(blooms@);
                    proof {
                        assert(vnode.durable.files@[q2 as int] == ffiles[q2 as int]);
                        assert(fid == ffiles[q2 as int].meta.file_id);
                        assert(bf.spec_bits() == ffiles[q2 as int].bloom.spec_bits());
                        assert(bf.elems() == ffiles[q2 as int].bloom.elems());
                    }
                    blooms.push((fid, bf));
                    proof {
                        assert(blooms_of(blooms@) =~= pre.push(
                            (fid, bf.spec_bits(), bf.elems())));
                        assert(files_blooms(ffiles.subrange(0, q2 + 1)) =~= files_blooms(
                            ffiles.subrange(0, q2 as int)).push(
                            (ffiles[q2 as int].meta.file_id,
                            ffiles[q2 as int].bloom.spec_bits(),
                            ffiles[q2 as int].bloom.elems())));
                        assert(blooms_of(blooms@) =~= bl_before + files_blooms(
                            ffiles.subrange(0, q2 + 1)));
                    }
                    q2 = q2 + 1;
                }
                proof {
                    assert(ffiles.subrange(0, nd as int) =~= ffiles);
                    assert(blooms_of(blooms@) == bl_before + files_blooms(ffiles));
                    assert(blooms_of(blooms@) + fams_blooms_view(fv.skip(j + 1))
                        =~= bl_before + fams_blooms_view(fv.skip(j as int)));
                    assert(vs_blooms_view(dv) =~= blooms_of(blooms@) + fams_blooms_view(
                        fv.skip(j + 1)) + vs_blooms_view(dv.skip(i + 1)));
                }
                let ghost before_push = edits@;
                edits.push(edit);
                proof {
                    assert(edits@.map_values(
                        |e: VersionEdit| (e.add_files@, e.seq_no, e.tsf_id))
                        =~= before_push.map_values(
                        |e: VersionEdit| (e.add_files@, e.seq_no, e.tsf_id)).push(
                        (fv[j as int].1.version.files@, fv[j as int].1.version.last_seq,
                        fv[j as int].0)));
                    assert(fv.subrange(0, j + 1).map_values(
                        |e: (u32, VnodeStorage)| (e.1.version.files@, e.1.version.last_seq, e.0))
                        =~= fv.subrange(0, j as int).map_values(
                        |e: (u32, VnodeStorage)| (e.1.version.files@, e.1.version.last_seq,
                        e.0)).push(
                        (fv[j as int].1.version.files@, fv[j as int].1.version.last_seq,
                        fv[j as int].0)));
                    assert(edits@.map_values(|e: VersionEdit| (e.add_files@, e.seq_no, e.tsf_id))
                        =~= edits_before.map_values(
                        |e: VersionEdit| (e.add_files@, e.seq_no, e.tsf_id))
                        + fv.subrange(0, j + 1).map_values(
                        |e: (u32, VnodeStorage)| (e.1.version.files@, e.1.version.last_seq,
                        e.0)));
                }
                j = j + 1;
            }
            proof {
                assert(fv.subrange(0, m as int) =~= fv);
                assert(vs_snapshot_view(tail) == fv.map_values(
                    |e: (u32, VnodeStorage)| (e.1.version.files@, e.1.version.last_seq, e.0),
                ) + vs_snapshot_view(dv.skip(i + 1)));
                assert(edits@.map_values(|e: VersionEdit| (e.add_files@, e.seq_no, e.tsf_id))
                    + vs_snapshot_view(dv.skip(i + 1))
                    =~= edits_before.map_values(
                    |e: VersionEdit| (e.add_files@, e.seq_no, e.tsf_id)) + vs_snapshot_view(
                    tail));
                assert(fv.skip(m as int) =~= Seq::<(u32, VnodeStorage)>::empty());
                assert(fams_blooms_view(fv.skip(m as int)) =~= Seq::<
                    (u64, Seq<bool>, Set<u64>),
                >::empty());
                assert(blooms_of(blooms@) + fams_blooms_view(fv.skip(m as int))
                    =~= blooms_of(blooms@));
                assert(vs_blooms_view(dv) =~= blooms_of(blooms@) + vs_blooms_view(
                    dv.skip(i + 1)));
            }
            i = i + 1;
        }
        proof {
            assert(dv.skip(n as int) =~= Seq::<(Seq<char>, Database)>::empty());
            assert(edits@.map_values(|e: VersionEdit| (e.add_files@, e.seq_no, e.tsf_id))
                =~= edits@.map_values(|e: VersionEdit| (e.add_files@, e.seq_no, e.tsf_id))
                    + vs_snapshot_view(dv.skip(n as int)));
            assert(vs_blooms_view(dv.skip(n as int)) =~= Seq::<
                (u64, Seq<bool>, Set<u64>),
            >::empty());
            assert(blooms_of(blooms@) =~= blooms_of(blooms@) + vs_blooms_view(
                dv.skip(n as int)));
        }
        (edits, blooms)
    }

    /// The last flushed sequence of every open family.
    pub fn get_tsfamily_seq_no_map(&self) -> (r: Vec<(u32, u64)>)
        requires
            self.wf(),
        ensures
            r@ == vs_seq_no_view(self.spec_dbs()),
    {
        let ghost dv = self.spec_dbs();
        let mut out: Vec<(u32, u64)> = Vec::new();
        let n = self.dbs_store.len();
        let mut i: usize = 0;
        proof {
            assert(dv.skip(0) =~= dv);
        }
        while i < n
            invariant
                i <= n,
                n == self.dbs_store@.len(),
                self.wf(),
                dv == self.spec_dbs(),
                vs_seq_no_view(dv) == out@ + vs_seq_no_view(dv.skip(i as int)),
            decreases n - i,
        {
            let ghost tail = dv.skip(i as int);
            proof {
                assert(tail[0] == dv[i as int]);
                assert(tail.drop_first() =~= dv.skip(i + 1));
                assert(dv[i as int].1 == self.dbs_store@[i as int].1);
            }
            let fams = self.dbs_store[i].1.ts_families();
            let ghost fv = self.dbs_store@[i as int].1.spec_families();
            let ghost out_before = out@;
            let m = fams.len();
            let mut j: usize = 0;
            while j < m
                invariant
                    j <= m,
                    fams@ == fv,
                    m == fv.len(),
                    out@ == out_before + fv.subrange(0, j as int).map_values(
                        |e: (u32, VnodeStorage)| (e.0, e.1.version.last_seq),
                    ),
                decreases m - j,
            {
                let pair = (fams[j].0, fams[j].1.version.last_seq());
                out.push(pair);
                proof {
                    assert(fv.subrange(0, j + 1).map_values(
                        |e: (u32, VnodeStorage)| (e.0, e.1.version.last_seq))
                        =~= fv.subrange(0, j as int).map_values(
                        |e: (u32, VnodeStorage)| (e.0, e.1.version.last_seq)).push(
                        (fv[j as int].0, fv[j as int].1.version.last_seq)));
                    assert(out@ =~= out_before + fv.subrange(0, j + 1).map_values(
                        |e: (u32, VnodeStorage)| (e.0, e.1.version.last_seq)));
                }
                j = j + 1;
            }
            proof {
                assert(fv.subrange(0, m as int) =~= fv);
                assert(out@ + vs_seq_no_view(dv.skip(i + 1)) =~= out_before + vs_seq_no_view(
                    tail));
            }
            i = i + 1;
        }
        proof {
            assert(dv.skip(n as int) =~= Seq::<(Seq<char>, Database)>::empty());
            assert(out@ =~= out@ + vs_seq_no_view(dv.skip(n as int)));
        }
        out
    }

    /// How many families are open over all databases.
    pub fn tsf_num(&self) -> (r: usize)
        requires
            self.wf(),
            vs_tsf_num(self.spec_dbs()) <= usize::MAX,
        ensures
            r == vs_tsf_num(self.spec_dbs()),
    {
        let ghost dv = self.spec_dbs();
        let mut size: usize = 0;
        let n = self.dbs_store.len();
        let mut i: usize = 0;
        proof {
            assert(dv.skip(0) =~= dv);
            lemma_vs_tsf_num_nonneg(dv);
        }
        while i < n
            invariant
                i <= n,
                n == self.dbs_store@.len(),
                self.wf(),
                dv == self.spec_dbs(),
                vs_tsf_num(dv) == size + vs_tsf_num(dv.skip(i as int)),
                vs_tsf_num(dv.skip(i as int)) >= 0,
                vs_tsf_num(dv) <= usize::MAX,
            decreases n - i,
        {
            let ghost tail = dv.skip(i as int);
            proof {
                assert(tail[0] == dv[i as int]);
                assert(tail.drop_first() =~= dv.skip(i + 1));
                assert(dv[i as int].1 == self.dbs_store@[i as int].1);
                lemma_vs_tsf_num_nonneg(dv.skip(i + 1));
            }
            size = size + self.dbs_store[i].1.tsf_num();
            i = i + 1;
        }
        proof {
            assert(dv.skip(n as int) =~= Seq::<(Seq<char>, Database)>::empty());
        }
        size
    }

    /// The open families of one database, in insertion order.
    pub fn get_database_tsfs(&self, tenant: &str, database: &str) -> (r: Option<
        &Vec<(u32, VnodeStorage)>,
    >)
        requires
            self.wf(),
        ensures
            match r {
                Some(v) => assoc_get(self.spec_dbs(), owner_view(tenant@, database@))
                    matches Some(db) && v@ == db.spec_families(),
                None => assoc_get(self.spec_dbs(), owner_view(tenant@, database@))
                    == None::<Database>,
            },
    {
        match self.get_db(tenant, database) {
            Some(db) => Some(db.ts_families()),
            None => None,
        }
    }
}

/// A family count is never negative.
pub proof fn lemma_vs_tsf_num_nonneg(dbs: Seq<(Seq<char>, Database)>)
    ensures
        vs_tsf_num(dbs) >= 0,
    decreases dbs.len(),
{
    if dbs.len() > 0 {
        lemma_vs_tsf_num_nonneg(dbs.drop_first());
    }
}

} // verus!
