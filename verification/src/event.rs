//! Events of the runtime, each stamped with the simulated time it happened at.
use vstd::prelude::*;

use crate::chunk::OstFragment;
use crate::types::{ChunkId, ClusterId, ManifestId, NodeId, SimTime, TaskId};

verus! {

/// Why a node left the cluster.
#[derive(Debug, Clone, Copy, PartialEq, Eq, Structural)]
pub enum LeaveReason {
    Graceful,
    Timeout,
    BatteryDeath,
    Removed,
}

/// Every event the runtime reports.
#[derive(Debug, Clone)]
pub enum MurmurEvent {
    NodeJoined { node_id: NodeId, at: SimTime },
    NodeLeft { node_id: NodeId, at: SimTime, reason: LeaveReason },
    NodeCrashed { node_id: NodeId, at: SimTime },
    ClusterFormed { cluster_id: ClusterId, members: Vec<NodeId>, at: SimTime },
    ElectionStarted { triggered_by: NodeId, at: SimTime },
    CoordinatorElected { node_id: NodeId, term: u64, at: SimTime },
    CoordinatorDied { node_id: NodeId, at: SimTime },
    RequestOstFragments { from_coordinator: NodeId, epoch: u64, deadline: SimTime },
    OstFragmentReported { by: NodeId, to: NodeId, epoch: u64, fragment: OstFragment, sent_at: SimTime },
    RecoveryTimeout { coordinator: NodeId, epoch: u64, at: SimTime },
    TaskAssigned { task_id: TaskId, to: NodeId, at: SimTime },
    TaskCompleted { task_id: TaskId, by: NodeId, at: SimTime },
    TaskFailed { task_id: TaskId, by: NodeId, reason: String, at: SimTime },
    TaskReassigned { task_id: TaskId, from: NodeId, to: NodeId, at: SimTime },
    ChunkDownloaded { chunk_id: ChunkId, by: NodeId, at: SimTime },
    ChunkRedistributed { chunk_id: ChunkId, from: NodeId, to: NodeId, at: SimTime },
    ChunkVerified { chunk_id: ChunkId, by: NodeId, at: SimTime },
    ChunkCorrupted { chunk_id: ChunkId, by: NodeId, at: SimTime },
    TransferStarted { manifest_id: ManifestId, at: SimTime },
    TransferCompleted { manifest_id: ManifestId, at: SimTime, total_time_ms: u64 },
    TransferFailed { manifest_id: ManifestId, at: SimTime, reason: String },
    LinkDegraded { from: NodeId, to: NodeId, at: SimTime },
    LinkSevered { from: NodeId, to: NodeId, at: SimTime },
    LinkRestored { from: NodeId, to: NodeId, at: SimTime },
    BondedFetchStarted { manifest_id: ManifestId, url: String, total_size: u64, node_count: usize, at: SimTime },
    BondedFetchCompleted { manifest_id: ManifestId, total_size: u64, effective_bandwidth_bps: u64, at: SimTime },
    WanSpeedMeasured { node_id: NodeId, bytes_per_sec: u64, at: SimTime },
    WanRateLimitDetected { node_id: NodeId, url: String, observed_bps: u64, expected_bps: u64, at: SimTime },
}

/// The time an event is stamped with: its `at`, except a fragment request,
/// stamped with its deadline, and a fragment report, with when it was sent.
pub open spec fn event_time(e: MurmurEvent) -> SimTime {
    match e {
        MurmurEvent::NodeJoined { at, .. } => at,
        MurmurEvent::NodeLeft { at, .. } => at,
        MurmurEvent::NodeCrashed { at, .. } => at,
        MurmurEvent::ClusterFormed { at, .. } => at,
        MurmurEvent::ElectionStarted { at, .. } => at,
        MurmurEvent::CoordinatorElected { at, .. } => at,
        MurmurEvent::CoordinatorDied { at, .. } => at,
        MurmurEvent::RequestOstFragments { deadline, .. } => deadline,
        MurmurEvent::OstFragmentReported { sent_at, .. } => sent_at,
        MurmurEvent::RecoveryTimeout { at, .. } => at,
        MurmurEvent::TaskAssigned { at, .. } => at,
        MurmurEvent::TaskCompleted { at, .. } => at,
        MurmurEvent::TaskFailed { at, .. } => at,
        MurmurEvent::TaskReassigned { at, .. } => at,
        MurmurEvent::ChunkDownloaded { at, .. } => at,
        MurmurEvent::ChunkRedistributed { at, .. } => at,
        MurmurEvent::ChunkVerified { at, .. } => at,
        MurmurEvent::ChunkCorrupted { at, .. } => at,
        MurmurEvent::TransferStarted { at, .. } => at,
        MurmurEvent::TransferCompleted { at, .. } => at,
        MurmurEvent::TransferFailed { at, .. } => at,
        MurmurEvent::LinkDegraded { at, .. } => at,
        MurmurEvent::LinkSevered { at, .. } => at,
        MurmurEvent::LinkRestored { at, .. } => at,
        MurmurEvent::BondedFetchStarted { at, .. } => at,
        MurmurEvent::BondedFetchCompleted { at, .. } => at,
        MurmurEvent::WanSpeedMeasured { at, .. } => at,
        MurmurEvent::WanRateLimitDetected { at, .. } => at,
    }
}

impl MurmurEvent {
    /// The simulated time this event is stamped with.
    pub fn time(&self) -> (r: SimTime)
        ensures
            r == event_time(*self),
    {
        match self {
            MurmurEvent::NodeJoined { at, .. } => *at,
            MurmurEvent::NodeLeft { at, .. } => *at,
            MurmurEvent::NodeCrashed { at, .. } => *at,
            MurmurEvent::ClusterFormed { at, .. } => *at,
            MurmurEvent::ElectionStarted { at, .. } => *at,
            MurmurEvent::CoordinatorElected { at, .. } => *at,
            MurmurEvent::CoordinatorDied { at, .. } => *at,
            MurmurEvent::RequestOstFragments { deadline, .. } => *deadline,
            MurmurEvent::OstFragmentReported { sent_at, .. } => *sent_at,
            MurmurEvent::RecoveryTimeout { at, .. } => *at,
            MurmurEvent::TaskAssigned { at, .. } => *at,
            MurmurEvent::TaskCompleted { at, .. } => *at,
            MurmurEvent::TaskFailed { at, .. } => *at,
            MurmurEvent::TaskReassigned { at, .. } => *at,
            MurmurEvent::ChunkDownloaded { at, .. } => *at,
            MurmurEvent::ChunkRedistributed { at, .. } => *at,
            MurmurEvent::ChunkVerified { at, .. } => *at,
            MurmurEvent::ChunkCorrupted { at, .. } => *at,
            MurmurEvent::TransferStarted { at, .. } => *at,
            MurmurEvent::TransferCompleted { at, .. } => *at,
            MurmurEvent::TransferFailed { at, .. } => *at,
            MurmurEvent::LinkDegraded { at, .. } => *at,
            MurmurEvent::LinkSevered { at, .. } => *at,
            MurmurEvent::LinkRestored { at, .. } => *at,
            MurmurEvent::BondedFetchStarted { at, .. } => *at,
            MurmurEvent::BondedFetchCompleted { at, .. } => *at,
            MurmurEvent::WanSpeedMeasured { at, .. } => *at,
            MurmurEvent::WanRateLimitDetected { at, .. } => *at,
        }
    }
}

} // verus!
