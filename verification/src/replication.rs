//! The replication module's decision logic: the per-process connection
//! cache, the group-ID envelope that every consensus RPC carries, and the
//! vnode-copy command planner.
//!
//! The transport itself — dialling an endpoint, driving the RPC — is I/O
//! the surrounding program performs; it hands the results (a channel
//! handle, a response payload) back to this logic.

use vstd::prelude::*;
use crate::assoc::{assoc_get, has_key, lemma_assoc_get_absent, lemma_assoc_get_present,
    lemma_assoc_insert, lemma_assoc_update, unique_keys};

verus! {

/// Milliseconds before a consensus RPC is abandoned.
pub const RAFT_RPC_TIMEOUT_MS: u64 = 3000;

/// The consensus module's address book entry for one node.
pub struct RaftNodeInfo {
    pub group_id: u32,
    pub address: String,
}

/// The per-process connection cache: one transport channel per address,
/// shared across replica groups. A channel is named by the opaque handle
/// the transport returned when it dialled the address.
pub struct NetworkConn {
    conn_store: Vec<(String, u64)>,
    grpc_enable_gzip: bool,
}

/// The cache keyed by address characters.
pub open spec fn conn_view(conns: Seq<(String, u64)>) -> Seq<(Seq<char>, u64)> {
    conns.map_values(|e: (String, u64)| (e.0@, e.1))
}

impl NetworkConn {
    pub closed spec fn spec_conns(self) -> Seq<(Seq<char>, u64)> {
        conn_view(self.conn_store@)
    }

    pub closed spec fn spec_gzip(self) -> bool {
        self.grpc_enable_gzip
    }

    pub closed spec fn wf(self) -> bool {
        unique_keys(self.spec_conns())
    }

    pub fn new(grpc_enable_gzip: bool) -> (r: NetworkConn)
        ensures
            r.wf(),
            r.spec_conns() == Seq::<(Seq<char>, u64)>::empty(),
            r.spec_gzip() == grpc_enable_gzip,
    {
        let r = NetworkConn { conn_store: Vec::new(), grpc_enable_gzip };
        proof {
            assert(r.spec_conns() =~= Seq::<(Seq<char>, u64)>::empty());
        }
        r
    }

    /// The cached channel for an address, if one was ever registered: the
    /// caller dials only on a miss.
    pub fn get_conn(&self, addr: &String) -> (r: Option<u64>)
        requires
            self.wf(),
        ensures
            r == assoc_get(self.spec_conns(), addr@),
    {
        let ghost cv = self.spec_conns();
        proof {
            assert(forall|j: int|
                0 <= j < cv.len() ==> cv[j] == ((#[trigger] self.conn_store@[j]).0@,
                self.conn_store@[j].1));
        }
        let n = self.conn_store.len();
        let mut i: usize = 0;
        while i < n
            invariant
                i <= n,
                n == self.conn_store@.len(),
                self.wf(),
                cv == self.spec_conns(),
                forall|j: int| 0 <= j < i ==> (#[trigger] self.conn_store@[j]).0@ != addr@,
            decreases n - i,
        {
            if self.conn_store[i].0 == *addr {
                proof {
                    assert(cv[i as int].0 == addr@);
                    lemma_assoc_get_present(cv, addr@, i as int);
                }
                return Some(self.conn_store[i].1);
            }
            i = i + 1;
        }
        proof {
            assert(!has_key(cv, addr@)) by {
                if has_key(cv, addr@) {
                    let j = choose|j: int| 0 <= j < cv.len() && cv[j].0 == addr@;
                    assert(self.conn_store@[j].0@ == addr@);
                }
            }
            lemma_assoc_get_absent(cv, addr@);
        }
        None
    }

    /// Records the channel the transport dialled for an address; a later
    /// registration for the same address replaces the earlier channel.
    pub fn register_conn(&mut self, addr: String, channel: u64)
        requires
            old(self).wf(),
        ensures
            final(self).wf(),
            assoc_get(final(self).spec_conns(), addr@) == Some(channel),
            forall|k: Seq<char>|
                k != addr@ ==> assoc_get(final(self).spec_conns(), k) == assoc_get(
                    old(self).spec_conns(), k),
            final(self).spec_gzip() == old(self).spec_gzip(),
    {
        let ghost cv = self.spec_conns();
        proof {
            assert(forall|j: int|
                0 <= j < cv.len() ==> cv[j] == ((#[trigger] self.conn_store@[j]).0@,
                self.conn_store@[j].1));
        }
        let n = self.conn_store.len();
        let mut i: usize = 0;
        while i < n
            invariant
                i <= n,
                n == self.conn_store@.len(),
                self.wf(),
                cv == self.spec_conns(),
                cv == old(self).spec_conns(),
                self.spec_gzip() == old(self).spec_gzip(),
                forall|j: int| 0 <= j < i ==> (#[trigger] self.conn_store@[j]).0@ != addr@,
            decreases n - i,
        {
            if self.conn_store[i].0 == *(&addr) {
                proof {
                    assert(cv[i as int].0 == addr@);
                    lemma_assoc_update(cv, i as int, channel);
                }
                let _ = self.conn_store.remove(i);
                self.conn_store.push((addr, channel));
                proof {
                    assert(self.spec_conns() =~= cv.remove(i as int).push((cv[i as int].0,
                        channel)));
                }
                return;
            }
            i = i + 1;
        }
        proof {
            assert(!has_key(cv, addr@)) by {
                if has_key(cv, addr@) {
                    let j = choose|j: int| 0 <= j < cv.len() && cv[j].0 == addr@;
                    assert(self.conn_store@[j].0@ == addr@);
                }
            }
            lemma_assoc_insert(cv, addr@, channel);
        }
        let ghost addr_chars = addr@;
        self.conn_store.push((addr, channel));
        proof {
            assert(self.conn_store@[self.conn_store@.len() - 1].0@ == addr_chars);
            assert(self.spec_conns() =~= cv.push((addr_chars, channel)));
        }
    }

    /// Builds the client state for one target replica.
    pub fn new_client(&self, target: u64, node: RaftNodeInfo) -> (r: TargetClient)
        ensures
            r.target == target,
            r.target_node.group_id == node.group_id,
            r.target_node.address@ == node.address@,
            r.grpc_enable_gzip == self.spec_gzip(),
    {
        TargetClient { target, target_node: node, grpc_enable_gzip: self.grpc_enable_gzip }
    }
}

impl Default for NetworkConn {
    /// A cache with compression off, as the transport defaults to.
    fn default() -> (r: NetworkConn)
        ensures
            r.wf(),
            r.spec_conns() == Seq::<(Seq<char>, u64)>::empty(),
            !r.spec_gzip(),
    {
        NetworkConn::new(false)
    }
}

/// What every consensus RPC sends: the consensus module's own encoding of
/// the request, wrapped in the replica group's ID so one transport serves
/// many groups.
pub struct RaftEnvelope {
    pub data: Vec<u8>,
    pub group_id: u32,
}

/// The client state for one target replica of one group.
pub struct TargetClient {
    pub target: u64,
    pub target_node: RaftNodeInfo,
    pub grpc_enable_gzip: bool,
}

impl TargetClient {
    /// Wraps an encoded consensus request — a vote, an append-entries or an
    /// install-snapshot — in this client's group ID.
    pub fn envelope(&self, payload: Vec<u8>) -> (r: RaftEnvelope)
        ensures
            r.data@ == payload@,
            r.group_id == self.target_node.group_id,
    {
        RaftEnvelope { data: payload, group_id: self.target_node.group_id }
    }
}

/// A vnode-management command the cluster coordinator executes.
pub enum VnodeManagerCmdType {
    /// Stream a copy of the vnode to a node, without consensus guarantees.
    Copy(u32, u64),
    /// Add a follower replica to the vnode's consensus group.
    AddRaftFollower(u32, u64),
}

/// The copy-vnode statement: which vnode, and to which node.
pub struct CopyVnode {
    pub vnode_id: u32,
    pub node_id: u64,
}

/// The copy-vnode task: under consensus replication the vnode is copied by
/// adding a follower to its replica group; otherwise it is streamed
/// directly.
pub struct CopyVnodeTask {
    stmt: CopyVnode,
}

impl CopyVnodeTask {
    pub closed spec fn spec_stmt(self) -> CopyVnode {
        self.stmt
    }

    pub fn new(stmt: CopyVnode) -> (r: CopyVnodeTask)
        ensures
            r.spec_stmt() == stmt,
    {
        CopyVnodeTask { stmt }
    }

    /// Decides the coordinator command. `replica_id` is the vnode's replica
    /// group, which the caller read from the metadata service; it is only
    /// consulted under consensus replication.
    pub fn plan(&self, using_raft_replication: bool, replica_id: u32) -> (r: VnodeManagerCmdType)
        ensures
            using_raft_replication ==> r == VnodeManagerCmdType::AddRaftFollower(
                replica_id,
                self.spec_stmt().node_id,
            ),
            !using_raft_replication ==> r == VnodeManagerCmdType::Copy(
                self.spec_stmt().vnode_id,
                self.spec_stmt().node_id,
            ),
    {
        if using_raft_replication {
            VnodeManagerCmdType::AddRaftFollower(replica_id, self.stmt.node_id)
        } else {
            VnodeManagerCmdType::Copy(self.stmt.vnode_id, self.stmt.node_id)
        }
    }
}

} // verus!
