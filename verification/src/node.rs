//! Nodes: the devices that participate in a cluster.
use vstd::prelude::*;

use crate::types::{ChunkId, NodeId, SimTime};

verus! {

/// Integer capabilities of a node: bandwidths, latencies and storage.
#[derive(Debug, Clone, Copy, PartialEq, Eq, Structural)]
pub struct NodeConfig {
    /// Internet bandwidth in bytes/sec (WAN).
    pub wan_bandwidth: u64,
    /// Local network bandwidth in bytes/sec (LAN).
    pub lan_bandwidth: u64,
    /// Latency to the internet in ms.
    pub wan_latency_ms: u32,
    /// Latency to local peers in ms.
    pub lan_latency_ms: u32,
    /// Storage capacity in bytes.
    pub storage_capacity: u64,
}

impl Default for NodeConfig {
    fn default() -> (r: Self)
        ensures
            r == (NodeConfig {
                wan_bandwidth: 5_000_000,
                lan_bandwidth: 50_000_000,
                wan_latency_ms: 50,
                lan_latency_ms: 2,
                storage_capacity: 1_073_741_824,
            }),
    {
        NodeConfig {
            wan_bandwidth: 5_000_000,
            lan_bandwidth: 50_000_000,
            wan_latency_ms: 50,
            lan_latency_ms: 2,
            storage_capacity: 1_073_741_824,
        }
    }
}

/// The operational status of a node.
#[derive(Debug, Clone, Copy, PartialEq, Eq, Structural)]
pub enum NodeStatus {
    /// Available and participating.
    Active,
    /// The elected coordinator.
    Coordinator,
    /// Gracefully disconnected.
    Disconnected,
    /// Crashed ungracefully.
    Crashed,
    /// In the process of joining the cluster.
    Joining,
    /// Battery critically low.
    LowBattery,
}

/// A node can accept work exactly when it is active or the coordinator.
pub open spec fn status_available(s: NodeStatus) -> bool {
    s == NodeStatus::Active || s == NodeStatus::Coordinator
}

/// Law: only a working node can take work: a status is available exactly
/// when it is `Active` or `Coordinator`, so a crashed, disconnected, joining
/// or low-battery node never is.
pub proof fn lemma_available_only_when_working(s: NodeStatus)
    ensures
        status_available(s) <==> (s is Active || s is Coordinator),
        (s is Crashed || s is Disconnected || s is Joining || s is LowBattery) ==> !status_available(s),
{
}

impl NodeStatus {
    /// Returns true if the node can accept work.
    pub fn is_available(&self) -> (r: bool)
        ensures
            r == status_available(*self),
    {
        matches!(self, NodeStatus::Active | NodeStatus::Coordinator)
    }

    /// Returns true if the node is considered dead or unreachable.
    pub fn is_dead(&self) -> (r: bool)
        ensures
            r == (*self == NodeStatus::Disconnected || *self == NodeStatus::Crashed),
    {
        matches!(self, NodeStatus::Disconnected | NodeStatus::Crashed)
    }
}

/// Milliseconds to move `size` bytes over a link of `bandwidth` bytes/sec and `latency` ms.
pub open spec fn transfer_ms(size: nat, bandwidth: nat, latency: nat) -> nat {
    size * 1000 / bandwidth + latency
}

/// Whether `transfer_ms` can be computed without overflowing 64 bits.
pub open spec fn transfer_fits(size: nat, bandwidth: nat, latency: nat) -> bool {
    size * 1000 <= u64::MAX && (bandwidth == 0 || size * 1000 / bandwidth + latency <= u64::MAX)
}

/// Computes `transfer_ms`, or `u64::MAX` when the bandwidth is zero.
pub(crate) fn transfer_time(size: u64, bandwidth: u64, latency: u64) -> (r: u64)
    requires
        transfer_fits(size as nat, bandwidth as nat, latency as nat),
    ensures
        bandwidth == 0 ==> r == u64::MAX,
        bandwidth != 0 ==> r == transfer_ms(size as nat, bandwidth as nat, latency as nat),
{
    if bandwidth == 0 {
        return u64::MAX;
    }
    let transfer = (size * 1000) / bandwidth;
    transfer + latency
}

/// A participating runtime device in the cluster.
#[derive(Debug, Clone)]
pub struct Node {
    /// Unique identifier.
    pub id: NodeId,
    /// Node capabilities.
    pub config: NodeConfig,
    /// Current operational status.
    pub status: NodeStatus,
    /// When the node joined the cluster.
    pub joined_at: SimTime,
    /// Chunks this node currently holds.
    pub owned_chunks: Vec<ChunkId>,
}

impl Node {
    /// A new joining node with no chunks.
    pub fn new(id: NodeId, config: NodeConfig, joined_at: SimTime) -> (r: Self)
        ensures
            r.id == id,
            r.config == config,
            r.status == NodeStatus::Joining,
            r.joined_at == joined_at,
            r.owned_chunks@ == Seq::<ChunkId>::empty(),
    {
        Node { id, config, status: NodeStatus::Joining, joined_at, owned_chunks: Vec::new() }
    }

    /// Transition the node to Active status.
    pub fn activate(&mut self)
        ensures
            final(self).status == NodeStatus::Active,
            final(self).id == old(self).id,
            final(self).config == old(self).config,
            final(self).joined_at == old(self).joined_at,
            final(self).owned_chunks@ == old(self).owned_chunks@,
    {
        self.status = NodeStatus::Active;
    }

    /// Promote this node to Coordinator.
    pub fn promote_to_coordinator(&mut self)
        ensures
            final(self).status == NodeStatus::Coordinator,
            final(self).id == old(self).id,
            final(self).config == old(self).config,
            final(self).joined_at == old(self).joined_at,
            final(self).owned_chunks@ == old(self).owned_chunks@,
    {
        self.status = NodeStatus::Coordinator;
    }

    /// Demote a coordinator back to Active; any other status is kept.
    pub fn demote_to_active(&mut self)
        ensures
            final(self).status == if old(self).status == NodeStatus::Coordinator {
                NodeStatus::Active
            } else {
                old(self).status
            },
            final(self).id == old(self).id,
            final(self).config == old(self).config,
            final(self).joined_at == old(self).joined_at,
            final(self).owned_chunks@ == old(self).owned_chunks@,
    {
        if self.status == NodeStatus::Coordinator {
            self.status = NodeStatus::Active;
        }
    }

    /// Mark the node as crashed.
    pub fn crash(&mut self)
        ensures
            final(self).status == NodeStatus::Crashed,
            final(self).id == old(self).id,
            final(self).config == old(self).config,
            final(self).joined_at == old(self).joined_at,
            final(self).owned_chunks@ == old(self).owned_chunks@,
    {
        self.status = NodeStatus::Crashed;
    }

    /// Mark the node as gracefully disconnected.
    pub fn disconnect(&mut self)
        ensures
            final(self).status == NodeStatus::Disconnected,
            final(self).id == old(self).id,
            final(self).config == old(self).config,
            final(self).joined_at == old(self).joined_at,
            final(self).owned_chunks@ == old(self).owned_chunks@,
    {
        self.status = NodeStatus::Disconnected;
    }

    /// Add a chunk to this node's ownership set.
    pub fn add_chunk(&mut self, chunk_id: ChunkId)
        ensures
            final(self).owned_chunks@.to_set() == old(self).owned_chunks@.to_set().insert(chunk_id),
            old(self).owned_chunks@.no_duplicates() ==> final(self).owned_chunks@.no_duplicates(),
            final(self).id == old(self).id,
            final(self).config == old(self).config,
            final(self).status == old(self).status,
            final(self).joined_at == old(self).joined_at,
    {
        if !self.has_chunk(&chunk_id) {
            self.owned_chunks.push(chunk_id);
            assert(self.owned_chunks@.to_set() =~= old(self).owned_chunks@.to_set().insert(chunk_id)) by {
                assert(self.owned_chunks@ == old(self).owned_chunks@.push(chunk_id));
                assert forall|c: ChunkId| self.owned_chunks@.contains(c) == old(self).owned_chunks@.to_set().insert(chunk_id).contains(c) by {
                    if c != chunk_id && self.owned_chunks@.contains(c) {
                        let k = choose|k: int| 0 <= k < self.owned_chunks@.len() && self.owned_chunks@[k] == c;
                        assert(old(self).owned_chunks@[k] == c);
                    }
                    if old(self).owned_chunks@.contains(c) {
                        let k = choose|k: int| 0 <= k < old(self).owned_chunks@.len() && old(self).owned_chunks@[k] == c;
                        assert(self.owned_chunks@[k] == c);
                    }
                    if c == chunk_id {
                        assert(self.owned_chunks@[self.owned_chunks@.len() - 1] == c);
                    }
                }
            }
        } else {
            assert(old(self).owned_chunks@.to_set() =~= old(self).owned_chunks@.to_set().insert(chunk_id));
        }
    }

    /// Check if this node holds a specific chunk.
    pub fn has_chunk(&self, chunk_id: &ChunkId) -> (r: bool)
        ensures
            r == self.owned_chunks@.contains(*chunk_id),
    {
        let mut i: usize = 0;
        while i < self.owned_chunks.len()
            invariant
                i <= self.owned_chunks.len(),
                forall|k: int| 0 <= k < i ==> self.owned_chunks@[k] != *chunk_id,
            decreases self.owned_chunks.len() - i,
        {
            if self.owned_chunks[i] == *chunk_id {
                return true;
            }
            i = i + 1;
        }
        false
    }

    /// Time in ms to transfer `size_bytes` over the WAN (`u64::MAX` with no WAN bandwidth).
    pub fn wan_transfer_time_ms(&self, size_bytes: u64) -> (r: u64)
        requires
            transfer_fits(size_bytes as nat, self.config.wan_bandwidth as nat, self.config.wan_latency_ms as nat),
        ensures
            self.config.wan_bandwidth == 0 ==> r == u64::MAX,
            self.config.wan_bandwidth != 0 ==> r == transfer_ms(
                size_bytes as nat,
                self.config.wan_bandwidth as nat,
                self.config.wan_latency_ms as nat,
            ),
    {
        transfer_time(size_bytes, self.config.wan_bandwidth, self.config.wan_latency_ms as u64)
    }

    /// Time in ms to transfer `size_bytes` over the LAN (`u64::MAX` with no LAN bandwidth).
    pub fn lan_transfer_time_ms(&self, size_bytes: u64) -> (r: u64)
        requires
            transfer_fits(size_bytes as nat, self.config.lan_bandwidth as nat, self.config.lan_latency_ms as nat),
        ensures
            self.config.lan_bandwidth == 0 ==> r == u64::MAX,
            self.config.lan_bandwidth != 0 ==> r == transfer_ms(
                size_bytes as nat,
                self.config.lan_bandwidth as nat,
                self.config.lan_latency_ms as nat,
            ),
    {
        transfer_time(size_bytes, self.config.lan_bandwidth, self.config.lan_latency_ms as u64)
    }
}

} // verus!
