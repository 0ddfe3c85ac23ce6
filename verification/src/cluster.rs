//! Cluster-wide and simulation-wide configuration.
use vstd::prelude::*;

verus! {

/// Configuration for a cluster.
#[derive(Debug, Clone, Copy, PartialEq, Eq, Structural)]
pub struct ClusterConfig {
    /// Default chunk size in bytes.
    pub chunk_size: u32,
    /// Heartbeat interval in milliseconds.
    pub heartbeat_interval_ms: u64,
    /// Number of missed heartbeats before a node is considered dead.
    pub heartbeat_timeout_multiplier: u32,
    /// Maximum number of retries for a failed task.
    pub max_task_retries: u32,
    /// Maximum number of nodes in the cluster.
    pub max_nodes: usize,
    /// Timeout for collecting ownership fragments after an election (ms).
    pub ost_recovery_timeout_ms: u64,
    /// Timeout before an in-progress chunk is reassigned (ms).
    pub inprogress_reassignment_timeout_ms: u64,
}

impl Default for ClusterConfig {
    fn default() -> (r: Self)
        ensures
            r == (ClusterConfig {
                chunk_size: 1_048_576,
                heartbeat_interval_ms: 1000,
                heartbeat_timeout_multiplier: 3,
                max_task_retries: 3,
                max_nodes: 50,
                ost_recovery_timeout_ms: 3000,
                inprogress_reassignment_timeout_ms: 10_000,
            }),
    {
        ClusterConfig {
            chunk_size: 1_048_576,
            heartbeat_interval_ms: 1000,
            heartbeat_timeout_multiplier: 3,
            max_task_retries: 3,
            max_nodes: 50,
            ost_recovery_timeout_ms: 3000,
            inprogress_reassignment_timeout_ms: 10_000,
        }
    }
}

/// Top-level simulation configuration.
#[derive(Debug, Clone, Copy, PartialEq, Eq, Structural)]
pub struct SimulationConfig {
    /// Random seed for deterministic simulation.
    pub seed: u64,
    /// Maximum simulation time in ms before timeout.
    pub max_time_ms: u64,
    /// Whether to output a detailed event trace.
    pub trace_events: bool,
    /// Whether to generate a summary report.
    pub generate_report: bool,
}

impl Default for SimulationConfig {
    fn default() -> (r: Self)
        ensures
            r == (SimulationConfig { seed: 42, max_time_ms: 300_000, trace_events: true, generate_report: true }),
    {
        SimulationConfig { seed: 42, max_time_ms: 300_000, trace_events: true, generate_report: true }
    }
}

} // verus!
