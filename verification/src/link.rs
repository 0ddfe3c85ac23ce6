//! Network links between nodes and the time a transfer takes over them.
use vstd::prelude::*;

use crate::types::{NodeId, SimTime};

verus! {

/// Measured characteristics of a link.
#[derive(Debug, Clone, Copy, PartialEq, Eq, Structural)]
pub struct LinkMetrics {
    /// Round-trip latency in milliseconds.
    pub latency_ms: u32,
    /// Throughput in bytes per second.
    pub throughput: u64,
    /// Jitter in milliseconds.
    pub jitter_ms: u32,
}

impl Default for LinkMetrics {
    /// A healthy LAN link: 2 ms, 50 MB/s, no jitter.
    fn default() -> (r: Self)
        ensures
            r == (LinkMetrics { latency_ms: 2, throughput: 50000000, jitter_ms: 0 }),
    {
        LinkMetrics { latency_ms: 2, throughput: 50000000, jitter_ms: 0 }
    }
}

/// Status of a network link.
#[derive(Debug, Clone, Copy, PartialEq, Eq, Structural)]
pub enum LinkStatus {
    Healthy,
    Degraded,
    Severed,
}

/// A directed network link between two nodes.
#[derive(Debug, Clone, Copy, PartialEq, Eq, Structural)]
pub struct Link {
    pub from: NodeId,
    pub to: NodeId,
    pub metrics: LinkMetrics,
    pub status: LinkStatus,
    /// When the metrics were last measured.
    pub last_measured: SimTime,
}

/// Milliseconds to send `size` bytes over a link: whole milliseconds of
/// transfer, rounded down, plus the latency.
pub open spec fn link_transfer_ms(m: LinkMetrics, size: nat) -> nat {
    (size * 1000) / (m.throughput as nat) + (m.latency_ms as nat)
}

impl Link {
    /// A healthy link measured at `at`.
    pub fn new(from: NodeId, to: NodeId, metrics: LinkMetrics, at: SimTime) -> (r: Self)
        ensures
            r == (Link { from, to, metrics, status: LinkStatus::Healthy, last_measured: at }),
    {
        Link { from, to, metrics, status: LinkStatus::Healthy, last_measured: at }
    }

    /// Time to send `size_bytes` over this link; `None` when it is severed or carries nothing.
    pub fn transfer_time_ms(&self, size_bytes: u64) -> (r: Option<u64>)
        requires
            size_bytes * 1000 <= u64::MAX,
            link_transfer_ms(self.metrics, size_bytes as nat) <= u64::MAX,
        ensures
            self.status == LinkStatus::Severed || self.metrics.throughput == 0 ==> r is None,
            !(self.status == LinkStatus::Severed || self.metrics.throughput == 0) ==> r == Some(
                link_transfer_ms(self.metrics, size_bytes as nat) as u64,
            ),
    {
        if self.status == LinkStatus::Severed || self.metrics.throughput == 0 {
            return None;
        }
        let transfer_ms = (size_bytes * 1000) / self.metrics.throughput;
        Some(transfer_ms + self.metrics.latency_ms as u64)
    }

    /// The link got worse: new metrics, now degraded.
    pub fn degrade(&mut self, new_metrics: LinkMetrics, at: SimTime)
        ensures
            *final(self) == (Link { metrics: new_metrics, status: LinkStatus::Degraded, last_measured: at, ..*old(self) }),
    {
        self.metrics = new_metrics;
        self.status = LinkStatus::Degraded;
        self.last_measured = at;
    }

    /// The link was cut.
    pub fn sever(&mut self, at: SimTime)
        ensures
            *final(self) == (Link { status: LinkStatus::Severed, last_measured: at, ..*old(self) }),
    {
        self.status = LinkStatus::Severed;
        self.last_measured = at;
    }

    /// The link works again with these metrics.
    pub fn restore(&mut self, metrics: LinkMetrics, at: SimTime)
        ensures
            *final(self) == (Link { metrics, status: LinkStatus::Healthy, last_measured: at, ..*old(self) }),
    {
        self.metrics = metrics;
        self.status = LinkStatus::Healthy;
        self.last_measured = at;
    }
}

} // verus!
