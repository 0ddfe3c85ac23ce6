//! Per-peer heartbeat liveness tracking.
use vstd::prelude::*;

use crate::ordered_map::OrderedMap;
use crate::types::{elapsed, NodeId, SimTime};

verus! {

/// Abstract state: the timeout window and each peer's last heartbeat, keyed by node id.
pub struct PeerHealthView {
    pub timeout_ms: u64,
    pub last_heartbeats: Map<u64, SimTime>,
}

/// Tracks heartbeat liveness for every known peer.
///
/// A peer is alive if `now - last_heartbeat < timeout_ms`, where
/// `timeout_ms = heartbeat_interval_ms * timeout_multiplier`.
#[derive(Debug)]
pub struct PeerHealthTracker {
    last_heartbeats: OrderedMap<SimTime>,
    timeout_ms: u64,
}

impl PeerHealthTracker {
    pub closed spec fn view(&self) -> PeerHealthView {
        PeerHealthView { timeout_ms: self.timeout_ms, last_heartbeats: self.last_heartbeats@ }
    }

    pub closed spec fn wf(&self) -> bool {
        self.last_heartbeats.wf()
    }

    /// The heartbeat table holds finitely many peers.
    pub proof fn lemma_finite(&self)
        requires
            self.wf(),
        ensures
            self@.last_heartbeats.dom().finite(),
    {
        self.last_heartbeats.lemma_view();
    }

    /// A tracker whose timeout window is `heartbeat_interval_ms * timeout_multiplier`.
    pub fn new(timeout_multiplier: u32, heartbeat_interval_ms: u64) -> (r: Self)
        requires
            heartbeat_interval_ms * timeout_multiplier <= u64::MAX,
        ensures
            r.wf(),
            r@.timeout_ms == heartbeat_interval_ms * timeout_multiplier,
            r@.last_heartbeats == Map::<u64, SimTime>::empty(),
    {
        let timeout_ms = heartbeat_interval_ms * (timeout_multiplier as u64);
        PeerHealthTracker { last_heartbeats: OrderedMap::new(), timeout_ms }
    }

    /// Record a heartbeat from `node_id` at `at`.
    pub fn record_heartbeat(&mut self, node_id: NodeId, at: SimTime)
        requires
            old(self).wf(),
        ensures
            final(self).wf(),
            final(self)@ == (PeerHealthView {
                last_heartbeats: old(self)@.last_heartbeats.insert(node_id.0, at),
                ..old(self)@
            }),
    {
        self.last_heartbeats.insert(node_id.0, at);
    }

    /// Whether `node_id` has been seen and its last heartbeat is within the window at `now`.
    pub fn is_alive(&self, node_id: NodeId, now: SimTime) -> (r: bool)
        requires
            self.wf(),
        ensures
            r == (self@.last_heartbeats.contains_key(node_id.0) && elapsed(now, self@.last_heartbeats[node_id.0])
                < self@.timeout_ms),
    {
        match self.last_heartbeats.get(node_id.0) {
            Some(last) => now.duration_since(*last) < self.timeout_ms,
            None => false,
        }
    }

    /// Tracked peers that have timed out at `now`, in increasing id order.
    pub fn check_timeouts(&self, now: SimTime) -> (r: Vec<NodeId>)
        requires
            self.wf(),
        ensures
            forall|n: NodeId| r@.contains(n) <==> (self@.last_heartbeats.contains_key(n.0) && elapsed(
                now,
                self@.last_heartbeats[n.0],
            ) >= self@.timeout_ms),
            forall|i: int, j: int| 0 <= i < j < r@.len() ==> r@[i].0 < r@[j].0,
    {
        let mut out: Vec<NodeId> = Vec::new();
        let n = self.last_heartbeats.len();
        let mut i: usize = 0;
        proof {
            self.last_heartbeats.lemma_view();
        }
        while i < n
            invariant
                self.wf(),
                n == self.last_heartbeats.key_seq().len(),
                i <= n,
                forall|a: int, b: int| 0 <= a < b < out@.len() ==> out@[a].0 < out@[b].0,
                i < n ==> forall|a: int| 0 <= a < out@.len() ==> out@[a].0 < self.last_heartbeats.key_seq()[i as int],
                forall|nd: NodeId| out@.contains(nd) <==> (exists|j: int| 0 <= j < i && #[trigger] self.last_heartbeats.key_seq()[j] == nd.0 && elapsed(
                    now,
                    self@.last_heartbeats[nd.0],
                ) >= self@.timeout_ms),
            decreases n - i,
        {
            proof {
                self.last_heartbeats.lemma_view();
            }
            let k = self.last_heartbeats.key_at(i);
            let last = *self.last_heartbeats.value_at(i);
            let ghost old_out = out@;
            if now.duration_since(last) >= self.timeout_ms {
                out.push(NodeId(k));
            }
            proof {
                assert forall|nd: NodeId| out@.contains(nd) <==> (exists|j: int| 0 <= j < i + 1 && #[trigger] self.last_heartbeats.key_seq()[j] == nd.0 && elapsed(
                    now,
                    self@.last_heartbeats[nd.0],
                ) >= self@.timeout_ms) by {
                    if out@.contains(nd) && !old_out.contains(nd) {
                        assert(nd == NodeId(k));
                    }
                    if old_out.contains(nd) {
                        let a = choose|a: int| 0 <= a < old_out.len() && old_out[a] == nd;
                        assert(out@[a] == nd);
                    }
                    if nd.0 == k && elapsed(now, self@.last_heartbeats[nd.0]) >= self@.timeout_ms {
                        assert(out@[out@.len() - 1] == nd);
                    }
                }
                if i + 1 < n {
                    assert(self.last_heartbeats.key_seq()[i as int] < self.last_heartbeats.key_seq()[i + 1]);
                }
            }
            i = i + 1;
        }
        proof {
            assert forall|nd: NodeId| out@.contains(nd) <==> (self@.last_heartbeats.contains_key(nd.0) && elapsed(
                now,
                self@.last_heartbeats[nd.0],
            ) >= self@.timeout_ms) by {
                if self@.last_heartbeats.contains_key(nd.0) {
                    let j = choose|j: int| 0 <= j < n && self.last_heartbeats.key_seq()[j] == nd.0;
                }
            }
        }
        out
    }

    /// Stop tracking a peer entirely.
    pub fn remove_peer(&mut self, node_id: NodeId)
        requires
            old(self).wf(),
        ensures
            final(self).wf(),
            final(self)@ == (PeerHealthView {
                last_heartbeats: old(self)@.last_heartbeats.remove(node_id.0),
                ..old(self)@
            }),
    {
        self.last_heartbeats.remove(node_id.0);
    }

    /// The last heartbeat time of a peer, if tracked.
    pub fn last_seen(&self, node_id: NodeId) -> (r: Option<SimTime>)
        requires
            self.wf(),
        ensures
            r == if self@.last_heartbeats.contains_key(node_id.0) {
                Some(self@.last_heartbeats[node_id.0])
            } else {
                None::<SimTime>
            },
    {
        match self.last_heartbeats.get(node_id.0) {
            Some(t) => Some(*t),
            None => None,
        }
    }

    /// Number of peers currently being tracked.
    pub fn tracked_count(&self) -> (r: usize)
        requires
            self.wf(),
        ensures
            r == self@.last_heartbeats.len(),
            self@.last_heartbeats.dom().finite(),
    {
        proof {
            self.last_heartbeats.lemma_view();
        }
        self.last_heartbeats.len()
    }
}

} // verus!
