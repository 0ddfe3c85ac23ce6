//! Recovery planning after a coordinator is re-elected.
use vstd::prelude::*;
use vstd::string::*;

use crate::text::{decimal_digits, push_decimal};
use crate::types::{ChunkId, NodeId, SimTime, TaskId};

verus! {

/// A plan for recovering from a coordinator crash.
#[derive(Debug, Clone)]
pub struct RecoveryPlan {
    /// Tasks that were in progress and need re-evaluation.
    pub orphaned_tasks: Vec<TaskId>,
    /// Chunks whose assigned node crashed.
    pub orphaned_chunks: Vec<ChunkId>,
    /// Nodes confirmed alive after the crash.
    pub surviving_nodes: Vec<NodeId>,
    /// Nodes confirmed dead or unreachable.
    pub dead_nodes: Vec<NodeId>,
    /// When this plan was created.
    pub created_at: SimTime,
}

/// The text of a plan summary for the given counts.
pub open spec fn summary_text(tasks: nat, chunks: nat, survivors: nat, dead: nat) -> Seq<char> {
    "RecoveryPlan: "@ + decimal_digits(tasks) + " orphaned tasks, "@ + decimal_digits(chunks)
        + " orphaned chunks, "@ + decimal_digits(survivors) + " survivors, "@ + decimal_digits(dead)
        + " dead"@
}

impl RecoveryPlan {
    /// An empty plan created at `at`.
    pub fn new(at: SimTime) -> (r: Self)
        ensures
            r.orphaned_tasks@.len() == 0,
            r.orphaned_chunks@.len() == 0,
            r.surviving_nodes@.len() == 0,
            r.dead_nodes@.len() == 0,
            r.created_at == at,
    {
        RecoveryPlan {
            orphaned_tasks: Vec::new(),
            orphaned_chunks: Vec::new(),
            surviving_nodes: Vec::new(),
            dead_nodes: Vec::new(),
            created_at: at,
        }
    }

    /// Add an orphaned task.
    pub fn add_orphaned_task(&mut self, task_id: TaskId)
        ensures
            final(self).orphaned_tasks@ == old(self).orphaned_tasks@.push(task_id),
            final(self).orphaned_chunks@ == old(self).orphaned_chunks@,
            final(self).surviving_nodes@ == old(self).surviving_nodes@,
            final(self).dead_nodes@ == old(self).dead_nodes@,
            final(self).created_at == old(self).created_at,
    {
        self.orphaned_tasks.push(task_id);
    }

    /// Add a chunk that lost its assigned node.
    pub fn add_orphaned_chunk(&mut self, chunk_id: ChunkId)
        ensures
            final(self).orphaned_chunks@ == old(self).orphaned_chunks@.push(chunk_id),
            final(self).orphaned_tasks@ == old(self).orphaned_tasks@,
            final(self).surviving_nodes@ == old(self).surviving_nodes@,
            final(self).dead_nodes@ == old(self).dead_nodes@,
            final(self).created_at == old(self).created_at,
    {
        self.orphaned_chunks.push(chunk_id);
    }

    /// Record a surviving node.
    pub fn add_survivor(&mut self, node_id: NodeId)
        ensures
            final(self).surviving_nodes@ == old(self).surviving_nodes@.push(node_id),
            final(self).orphaned_tasks@ == old(self).orphaned_tasks@,
            final(self).orphaned_chunks@ == old(self).orphaned_chunks@,
            final(self).dead_nodes@ == old(self).dead_nodes@,
            final(self).created_at == old(self).created_at,
    {
        self.surviving_nodes.push(node_id);
    }

    /// Record a dead node.
    pub fn add_dead_node(&mut self, node_id: NodeId)
        ensures
            final(self).dead_nodes@ == old(self).dead_nodes@.push(node_id),
            final(self).orphaned_tasks@ == old(self).orphaned_tasks@,
            final(self).orphaned_chunks@ == old(self).orphaned_chunks@,
            final(self).surviving_nodes@ == old(self).surviving_nodes@,
            final(self).created_at == old(self).created_at,
    {
        self.dead_nodes.push(node_id);
    }

    /// Whether there is any orphaned task or chunk to recover.
    pub fn has_work(&self) -> (r: bool)
        ensures
            r == (self.orphaned_tasks@.len() > 0 || self.orphaned_chunks@.len() > 0),
    {
        !self.orphaned_tasks.is_empty() || !self.orphaned_chunks.is_empty()
    }

    /// A one-line summary of the plan's counts.
    pub fn summary(&self) -> (r: String)
        ensures
            r@ == summary_text(
                self.orphaned_tasks@.len(),
                self.orphaned_chunks@.len(),
                self.surviving_nodes@.len(),
                self.dead_nodes@.len(),
            ),
    {
        let mut s = String::from_str("RecoveryPlan: ");
        push_decimal(&mut s, self.orphaned_tasks.len() as u64);
        s.append(" orphaned tasks, ");
        push_decimal(&mut s, self.orphaned_chunks.len() as u64);
        s.append(" orphaned chunks, ");
        push_decimal(&mut s, self.surviving_nodes.len() as u64);
        s.append(" survivors, ");
        push_decimal(&mut s, self.dead_nodes.len() as u64);
        s.append(" dead");
        s
    }
}

impl Default for RecoveryPlan {
    fn default() -> (r: Self)
        ensures
            r.orphaned_tasks@.len() == 0,
            r.orphaned_chunks@.len() == 0,
            r.surviving_nodes@.len() == 0,
            r.dead_nodes@.len() == 0,
            r.created_at == SimTime(0),
    {
        RecoveryPlan::new(SimTime(0))
    }
}

/// A member is lost when it is listed dead or is the dead coordinator.
pub open spec fn is_lost(n: NodeId, dead_nodes: Seq<NodeId>, dead_coordinator: NodeId) -> bool {
    dead_nodes.contains(n) || n == dead_coordinator
}

/// The members of `s` that are lost (`lost == true`) or that survive, in order.
pub open spec fn split_members(s: Seq<NodeId>, dead_nodes: Seq<NodeId>, dead_coordinator: NodeId, lost: bool) -> Seq<NodeId>
    decreases s.len(),
{
    if s.len() == 0 {
        Seq::empty()
    } else {
        let rest = split_members(s.drop_last(), dead_nodes, dead_coordinator, lost);
        if is_lost(s.last(), dead_nodes, dead_coordinator) == lost {
            rest.push(s.last())
        } else {
            rest
        }
    }
}

fn contains_node(s: &[NodeId], n: NodeId) -> (r: bool)
    ensures
        r == s@.contains(n),
{
    let mut i: usize = 0;
    while i < s.len()
        invariant
            i <= s@.len(),
            forall|j: int| 0 <= j < i ==> s@[j] != n,
        decreases s.len() - i,
    {
        if s[i].0 == n.0 {
            return true;
        }
        i = i + 1;
    }
    false
}

/// The recovery engine.
#[derive(Debug)]
pub struct StateRecovery;

impl StateRecovery {
    /// A plan created at `at` that splits `all_members`, in order, into the dead
    /// (listed in `dead_nodes`, or the dead coordinator) and the survivors.
    pub fn build_plan(dead_coordinator: NodeId, all_members: &[NodeId], dead_nodes: &[NodeId], at: SimTime) -> (r:
        RecoveryPlan)
        ensures
            r.dead_nodes@ == split_members(all_members@, dead_nodes@, dead_coordinator, true),
            r.surviving_nodes@ == split_members(all_members@, dead_nodes@, dead_coordinator, false),
            r.orphaned_tasks@.len() == 0,
            r.orphaned_chunks@.len() == 0,
            r.created_at == at,
    {
        let mut plan = RecoveryPlan::new(at);
        let mut i: usize = 0;
        while i < all_members.len()
            invariant
                i <= all_members@.len(),
                plan.dead_nodes@ == split_members(all_members@.take(i as int), dead_nodes@, dead_coordinator, true),
                plan.surviving_nodes@ == split_members(all_members@.take(i as int), dead_nodes@, dead_coordinator, false),
                plan.orphaned_tasks@.len() == 0,
                plan.orphaned_chunks@.len() == 0,
                plan.created_at == at,
            decreases all_members.len() - i,
        {
            let node_id = all_members[i];
            proof {
                assert(all_members@.take(i + 1).drop_last() =~= all_members@.take(i as int));
                assert(all_members@.take(i + 1).last() == node_id);
            }
            if contains_node(dead_nodes, node_id) || node_id.0 == dead_coordinator.0 {
                plan.add_dead_node(node_id);
            } else {
                plan.add_survivor(node_id);
            }
            i = i + 1;
        }
        assert(all_members@.take(i as int) =~= all_members@);
        plan
    }
}

} // verus!
