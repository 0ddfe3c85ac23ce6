//! Heartbeat monitoring: when to send the next heartbeat and which peers went silent.
use vstd::prelude::*;

use crate::ordered_map::OrderedMap;
use crate::types::{elapsed, NodeId, SimTime};

verus! {

/// Abstract state of a heartbeat monitor.
pub struct HeartbeatView {
    pub interval_ms: u64,
    pub timeout_multiplier: u32,
    pub last_sent: SimTime,
    /// Last heartbeat received from each peer, keyed by node id.
    pub last_received: Map<u64, SimTime>,
}

/// Heartbeat monitoring configuration and state.
#[derive(Debug, Clone)]
pub struct HeartbeatMonitor {
    interval_ms: u64,
    timeout_multiplier: u32,
    last_sent: SimTime,
    last_received: OrderedMap<SimTime>,
}

/// Whether a peer last heard at `last` has been silent for at least `timeout` ms at `now`.
pub open spec fn silent_for(now: SimTime, last: SimTime, timeout: int) -> bool {
    elapsed(now, last) >= timeout
}

impl HeartbeatMonitor {
    pub closed spec fn view(&self) -> HeartbeatView {
        HeartbeatView {
            interval_ms: self.interval_ms,
            timeout_multiplier: self.timeout_multiplier,
            last_sent: self.last_sent,
            last_received: self.last_received@,
        }
    }

    /// Internal consistency of the peer table.
    pub closed spec fn wf(&self) -> bool {
        self.last_received.wf()
    }

    /// The peer table holds finitely many peers.
    pub proof fn lemma_finite(&self)
        requires
            self.wf(),
        ensures
            self@.last_received.dom().finite(),
    {
        self.last_received.lemma_view();
    }

    /// The timeout window in ms: interval times multiplier.
    pub open spec fn timeout_window(&self) -> int {
        self@.interval_ms * self@.timeout_multiplier
    }

    /// Create a new heartbeat monitor tracking no peers.
    pub fn new(interval_ms: u64, timeout_multiplier: u32) -> (r: Self)
        ensures
            r.wf(),
            r@.interval_ms == interval_ms,
            r@.timeout_multiplier == timeout_multiplier,
            r@.last_sent == SimTime(0),
            r@.last_received == Map::<u64, SimTime>::empty(),
    {
        HeartbeatMonitor { interval_ms, timeout_multiplier, last_sent: SimTime(0), last_received: OrderedMap::new() }
    }

    /// Heartbeat interval in ms.
    pub fn interval_ms(&self) -> (r: u64)
        ensures
            r == self@.interval_ms,
    {
        self.interval_ms
    }

    /// Timeout duration in ms (interval times multiplier).
    pub fn timeout_ms(&self) -> (r: u64)
        requires
            self.timeout_window() <= u64::MAX,
        ensures
            r == self.timeout_window(),
    {
        self.interval_ms * (self.timeout_multiplier as u64)
    }

    /// Record that a heartbeat was sent at `at`.
    pub fn record_sent(&mut self, at: SimTime)
        requires
            old(self).wf(),
        ensures
            final(self).wf(),
            final(self)@ == (HeartbeatView { last_sent: at, ..old(self)@ }),
    {
        self.last_sent = at;
    }

    /// When the last heartbeat was sent.
    pub fn last_sent(&self) -> (r: SimTime)
        ensures
            r == self@.last_sent,
    {
        self.last_sent
    }

    /// Whether a full interval has passed since the last heartbeat was sent.
    pub fn should_send(&self, now: SimTime) -> (r: bool)
        ensures
            r == (elapsed(now, self@.last_sent) >= self@.interval_ms),
    {
        now.duration_since(self.last_sent) >= self.interval_ms
    }

    /// Record a heartbeat received from `from` at `at`.
    pub fn record_received(&mut self, from: NodeId, at: SimTime)
        requires
            old(self).wf(),
        ensures
            final(self).wf(),
            final(self)@ == (HeartbeatView {
                last_received: old(self)@.last_received.insert(from.0, at),
                ..old(self)@
            }),
    {
        self.last_received.insert(from.0, at);
    }

    /// When the last heartbeat from `node_id` was received, if ever.
    pub fn last_received_from(&self, node_id: NodeId) -> (r: Option<SimTime>)
        requires
            self.wf(),
        ensures
            r == if self@.last_received.contains_key(node_id.0) {
                Some(self@.last_received[node_id.0])
            } else {
                None::<SimTime>
            },
    {
        match self.last_received.get(node_id.0) {
            Some(t) => Some(*t),
            None => None,
        }
    }

    /// Whether `node_id` has timed out at `now`; a peer never heard from has.
    pub fn has_timed_out(&self, node_id: NodeId, now: SimTime) -> (r: bool)
        requires
            self.wf(),
            self.timeout_window() <= u64::MAX,
        ensures
            r == (!self@.last_received.contains_key(node_id.0) || silent_for(
                now,
                self@.last_received[node_id.0],
                self.timeout_window(),
            )),
    {
        match self.last_received.get(node_id.0) {
            Some(last) => now.duration_since(*last) >= self.timeout_ms(),
            None => true,
        }
    }

    /// All tracked peers that have timed out at `now`, in increasing id order.
    pub fn check_all_timeouts(&self, now: SimTime) -> (r: Vec<NodeId>)
        requires
            self.wf(),
            self.timeout_window() <= u64::MAX,
        ensures
            forall|n: NodeId| r@.contains(n) <==> (self@.last_received.contains_key(n.0) && silent_for(
                now,
                self@.last_received[n.0],
                self.timeout_window(),
            )),
            forall|i: int, j: int| 0 <= i < j < r@.len() ==> r@[i].0 < r@[j].0,
    {
        let timeout = self.timeout_ms();
        let mut out: Vec<NodeId> = Vec::new();
        let n = self.last_received.len();
        let mut i: usize = 0;
        proof {
            self.last_received.lemma_view();
        }
        while i < n
            invariant
                self.wf(),
                n == self.last_received.key_seq().len(),
                i <= n,
                timeout == self.timeout_window(),
                forall|a: int, b: int| 0 <= a < b < out@.len() ==> out@[a].0 < out@[b].0,
                i < n ==> forall|a: int| 0 <= a < out@.len() ==> out@[a].0 < self.last_received.key_seq()[i as int],
                forall|nd: NodeId| out@.contains(nd) <==> (exists|j: int| 0 <= j < i && #[trigger] self.last_received.key_seq()[j] == nd.0 && silent_for(
                    now,
                    self@.last_received[nd.0],
                    self.timeout_window(),
                )),
            decreases n - i,
        {
            proof {
                self.last_received.lemma_view();
            }
            let k = self.last_received.key_at(i);
            let last = *self.last_received.value_at(i);
            let ghost old_out = out@;
            if now.duration_since(last) >= timeout {
                out.push(NodeId(k));
            }
            proof {
                assert forall|nd: NodeId| out@.contains(nd) <==> (exists|j: int| 0 <= j < i + 1 && #[trigger] self.last_received.key_seq()[j] == nd.0 && silent_for(
                    now,
                    self@.last_received[nd.0],
                    self.timeout_window(),
                )) by {
                    if out@.contains(nd) && !old_out.contains(nd) {
                        assert(nd == NodeId(k));
                    }
                    if old_out.contains(nd) {
                        assert(out@.contains(nd)) by {
                            let a = choose|a: int| 0 <= a < old_out.len() && old_out[a] == nd;
                            assert(out@[a] == nd);
                        }
                    }
                    if nd.0 == k && silent_for(now, self@.last_received[nd.0], self.timeout_window()) {
                        assert(out@[out@.len() - 1] == nd);
                    }
                }
                if i + 1 < n {
                    assert(self.last_received.key_seq()[i as int] < self.last_received.key_seq()[i + 1]);
                }
            }
            i = i + 1;
        }
        proof {
            assert forall|nd: NodeId| out@.contains(nd) <==> (self@.last_received.contains_key(nd.0) && silent_for(
                now,
                self@.last_received[nd.0],
                self.timeout_window(),
            )) by {
                if self@.last_received.contains_key(nd.0) {
                    let j = choose|j: int| 0 <= j < n && self.last_received.key_seq()[j] == nd.0;
                }
            }
        }
        out
    }

    /// Start tracking a peer, counting `at` as its last heartbeat.
    pub fn track_peer(&mut self, node_id: NodeId, at: SimTime)
        requires
            old(self).wf(),
        ensures
            final(self).wf(),
            final(self)@ == (HeartbeatView {
                last_received: old(self)@.last_received.insert(node_id.0, at),
                ..old(self)@
            }),
    {
        self.last_received.insert(node_id.0, at);
    }

    /// Stop tracking a peer.
    pub fn untrack_peer(&mut self, node_id: NodeId)
        requires
            old(self).wf(),
        ensures
            final(self).wf(),
            final(self)@ == (HeartbeatView {
                last_received: old(self)@.last_received.remove(node_id.0),
                ..old(self)@
            }),
    {
        self.last_received.remove(node_id.0);
    }

    /// Number of peers being tracked.
    pub fn tracked_count(&self) -> (r: usize)
        requires
            self.wf(),
        ensures
            r == self@.last_received.len(),
            self@.last_received.dom().finite(),
    {
        proof {
            self.last_received.lemma_view();
        }
        self.last_received.len()
    }

    /// Forget every peer and reset the send clock.
    pub fn clear(&mut self)
        requires
            old(self).wf(),
        ensures
            final(self).wf(),
            final(self)@ == (HeartbeatView {
                last_sent: SimTime(0),
                last_received: Map::<u64, SimTime>::empty(),
                ..old(self)@
            }),
    {
        self.last_received.clear();
        self.last_sent = SimTime(0);
    }
}

} // verus!
