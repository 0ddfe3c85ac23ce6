//! Errors of the runtime.
use vstd::prelude::*;
use vstd::string::*;

use crate::text::{decimal_digits, push_decimal};
use crate::types::{labelled_number, ChunkId, NodeId, TaskId};

verus! {

/// Errors that can occur in the runtime.
#[derive(Debug, Clone, PartialEq, Eq)]
pub enum MurmurError {
    NodeNotFound(NodeId),
    NodeUnavailable(NodeId),
    ChunkNotFound(ChunkId),
    ChunkVerificationFailed(ChunkId),
    TaskNotFound(TaskId),
    NoCoordinator,
    EmptyCluster,
    /// The cluster already holds its maximum number of nodes.
    ClusterFull(usize),
    ElectionFailed(String),
    SchedulerError(String),
    TransferFailed(String),
    SimulationError(String),
}

/// Text of a node id, e.g. `Node(5)`.
pub open spec fn node_text(n: NodeId) -> Seq<char> {
    labelled_number(seq!['N', 'o', 'd', 'e'], n.0 as nat)
}

/// Text of a chunk id, e.g. `Chunk(3)`.
pub open spec fn chunk_text(c: ChunkId) -> Seq<char> {
    labelled_number(seq!['C', 'h', 'u', 'n', 'k'], c.0 as nat)
}

/// The message of each error.
pub open spec fn error_text(e: MurmurError) -> Seq<char> {
    match e {
        MurmurError::NodeNotFound(n) => "Node "@ + node_text(n) + " not found in cluster"@,
        MurmurError::NodeUnavailable(n) => "Node "@ + node_text(n) + " is not available (status: dead or disconnected)"@,
        MurmurError::ChunkNotFound(c) => "Chunk "@ + chunk_text(c) + " not found in manifest"@,
        MurmurError::ChunkVerificationFailed(c) => "Chunk "@ + chunk_text(c) + " integrity verification failed"@,
        MurmurError::TaskNotFound(t) => "Task "@ + labelled_number(seq!['T', 'a', 's', 'k'], t.0 as nat) + " not found"@,
        MurmurError::NoCoordinator => "No coordinator elected"@,
        MurmurError::EmptyCluster => "Cluster is empty — no active nodes"@,
        MurmurError::ClusterFull(n) => "Maximum cluster size ("@ + decimal_digits(n as nat) + ") exceeded"@,
        MurmurError::ElectionFailed(s) => "Election failed: "@ + s@,
        MurmurError::SchedulerError(s) => "Scheduler error: "@ + s@,
        MurmurError::TransferFailed(s) => "Transfer failed: "@ + s@,
        MurmurError::SimulationError(s) => "Simulation error: "@ + s@,
    }
}

/// `prefix`, then `middle`, then `suffix`, as one string.
fn framed(prefix: &str, middle: &str, suffix: &str) -> (r: String)
    ensures
        r@ == prefix@ + middle@ + suffix@,
{
    let mut s = String::from_str(prefix);
    s.append(middle);
    s.append(suffix);
    s
}

/// `prefix` followed by `rest`, as one string.
fn joined(prefix: &str, rest: &str) -> (r: String)
    ensures
        r@ == prefix@ + rest@,
{
    let mut s = String::from_str(prefix);
    s.append(rest);
    s
}

impl MurmurError {
    /// The error's message, e.g. `Node Node(5) not found in cluster`.
    pub fn to_string(&self) -> (r: String)
        ensures
            r@ == error_text(*self),
    {
        match self {
            MurmurError::NodeNotFound(n) => framed("Node ", n.to_string().as_str(), " not found in cluster"),
            MurmurError::NodeUnavailable(n) => framed(
                "Node ",
                n.to_string().as_str(),
                " is not available (status: dead or disconnected)",
            ),
            MurmurError::ChunkNotFound(c) => framed("Chunk ", c.to_string().as_str(), " not found in manifest"),
            MurmurError::ChunkVerificationFailed(c) => framed(
                "Chunk ",
                c.to_string().as_str(),
                " integrity verification failed",
            ),
            MurmurError::TaskNotFound(t) => framed("Task ", t.to_string().as_str(), " not found"),
            MurmurError::NoCoordinator => String::from_str("No coordinator elected"),
            MurmurError::EmptyCluster => String::from_str("Cluster is empty — no active nodes"),
            MurmurError::ClusterFull(n) => {
                let mut digits = String::new();
                push_decimal(&mut digits, *n as u64);
                framed("Maximum cluster size (", digits.as_str(), ") exceeded")
            },
            MurmurError::ElectionFailed(s) => joined("Election failed: ", s.as_str()),
            MurmurError::SchedulerError(s) => joined("Scheduler error: ", s.as_str()),
            MurmurError::TransferFailed(s) => joined("Transfer failed: ", s.as_str()),
            MurmurError::SimulationError(s) => joined("Simulation error: ", s.as_str()),
        }
    }
}

} // verus!
