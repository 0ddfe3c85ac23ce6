//! Join, leave and timeout bookkeeping for cluster membership.
use vstd::prelude::*;

use crate::ordered_map::OrderedMap;
use crate::types::{NodeId, SimTime};

verus! {

/// Describes a change resulting from a membership operation.
#[derive(Debug, Clone, Copy, PartialEq, Eq, Structural)]
pub enum MembershipChange {
    /// A new node joined.
    Joined { node_id: NodeId, at: SimTime },
    /// A node left gracefully.
    Left { node_id: NodeId, at: SimTime },
    /// A node was evicted because it missed heartbeats.
    TimedOut { node_id: NodeId, at: SimTime },
    /// A join was attempted but the node was already a member.
    AlreadyMember { node_id: NodeId },
    /// A leave or timeout was attempted but the node was not a member.
    NotMember { node_id: NodeId },
}

/// The set of nodes currently considered members of the cluster.
#[derive(Debug)]
pub struct MembershipManager {
    members: OrderedMap<()>,
}

impl MembershipManager {
    /// The ids of the current members.
    pub closed spec fn view(&self) -> Set<u64> {
        self.members@.dom()
    }

    pub closed spec fn wf(&self) -> bool {
        self.members.wf()
    }

    /// The member set is finite.
    pub proof fn lemma_finite(&self)
        requires
            self.wf(),
        ensures
            self@.finite(),
    {
        self.members.lemma_view();
    }

    /// An empty membership manager.
    pub fn new() -> (r: Self)
        ensures
            r.wf(),
            r@ == Set::<u64>::empty(),
    {
        let r = MembershipManager { members: OrderedMap::new() };
        assert(r@ =~= Set::<u64>::empty());
        r
    }

    /// Handle a join: `Joined` and the node becomes a member, or `AlreadyMember` and nothing changes.
    pub fn handle_join(&mut self, node_id: NodeId, at: SimTime) -> (r: MembershipChange)
        requires
            old(self).wf(),
        ensures
            final(self).wf(),
            final(self)@ == old(self)@.insert(node_id.0),
            r == if old(self)@.contains(node_id.0) {
                MembershipChange::AlreadyMember { node_id }
            } else {
                MembershipChange::Joined { node_id, at }
            },
    {
        if self.members.contains_key(node_id.0) {
            assert(self@ =~= old(self)@.insert(node_id.0));
            return MembershipChange::AlreadyMember { node_id };
        }
        self.members.insert(node_id.0, ());
        assert(self@ =~= old(self)@.insert(node_id.0));
        MembershipChange::Joined { node_id, at }
    }

    /// Handle a graceful leave: `Left` and the node is removed, or `NotMember`.
    pub fn handle_leave(&mut self, node_id: NodeId, at: SimTime) -> (r: MembershipChange)
        requires
            old(self).wf(),
        ensures
            final(self).wf(),
            final(self)@ == old(self)@.remove(node_id.0),
            r == if old(self)@.contains(node_id.0) {
                MembershipChange::Left { node_id, at }
            } else {
                MembershipChange::NotMember { node_id }
            },
    {
        let removed = self.members.remove(node_id.0);
        assert(self@ =~= old(self)@.remove(node_id.0));
        if removed.is_none() {
            return MembershipChange::NotMember { node_id };
        }
        MembershipChange::Left { node_id, at }
    }

    /// Handle a heartbeat timeout (forced eviction): `TimedOut` and the node is removed, or `NotMember`.
    pub fn handle_timeout(&mut self, node_id: NodeId, at: SimTime) -> (r: MembershipChange)
        requires
            old(self).wf(),
        ensures
            final(self).wf(),
            final(self)@ == old(self)@.remove(node_id.0),
            r == if old(self)@.contains(node_id.0) {
                MembershipChange::TimedOut { node_id, at }
            } else {
                MembershipChange::NotMember { node_id }
            },
    {
        let removed = self.members.remove(node_id.0);
        assert(self@ =~= old(self)@.remove(node_id.0));
        if removed.is_none() {
            return MembershipChange::NotMember { node_id };
        }
        MembershipChange::TimedOut { node_id, at }
    }

    /// Whether `node_id` is currently a member.
    pub fn is_member(&self, node_id: NodeId) -> (r: bool)
        requires
            self.wf(),
        ensures
            r == self@.contains(node_id.0),
    {
        self.members.contains_key(node_id.0)
    }

    /// All current members in increasing id order.
    pub fn members(&self) -> (r: Vec<NodeId>)
        requires
            self.wf(),
        ensures
            forall|n: NodeId| r@.contains(n) <==> self@.contains(n.0),
            forall|i: int, j: int| 0 <= i < j < r@.len() ==> r@[i].0 < r@[j].0,
            r@.len() == self@.len(),
    {
        proof {
            self.members.lemma_view();
        }
        let keys = self.members.keys();
        let mut out: Vec<NodeId> = Vec::new();
        let mut i: usize = 0;
        while i < keys.len()
            invariant
                keys@ == self.members.key_seq(),
                i <= keys@.len(),
                out@.len() == i,
                forall|a: int| 0 <= a < i ==> out@[a] == NodeId(keys@[a]),
            decreases keys.len() - i,
        {
            out.push(NodeId(keys[i]));
            i = i + 1;
        }
        proof {
            assert forall|n: NodeId| out@.contains(n) <==> self@.contains(n.0) by {
                if out@.contains(n) {
                    let a = choose|a: int| 0 <= a < out@.len() && out@[a] == n;
                    assert(keys@.contains(n.0));
                }
                if self@.contains(n.0) {
                    assert(keys@.contains(n.0));
                    let a = choose|a: int| 0 <= a < keys@.len() && keys@[a] == n.0;
                    assert(out@[a] == n);
                }
            }
        }
        out
    }

    /// Number of current members.
    pub fn member_count(&self) -> (r: usize)
        requires
            self.wf(),
        ensures
            r == self@.len(),
            self@.finite(),
    {
        proof {
            self.members.lemma_view();
        }
        self.members.len()
    }
}

impl Default for MembershipManager {
    fn default() -> (r: Self)
        ensures
            r.wf(),
            r@ == Set::<u64>::empty(),
    {
        Self::new()
    }
}

} // verus!
