//! Priority queue of pending tasks.
//!
//! Higher priority tasks leave the queue first; among tasks of equal priority
//! the one pushed first leaves first.
use vstd::prelude::*;

use crate::task::Task;

verus! {

/// Priority level for task scheduling.
#[derive(Debug, Clone, Copy, PartialEq, Eq, PartialOrd, Ord, Hash, Structural)]
pub enum TaskPriority {
    /// Routine work.
    Normal,
    /// Work that should run before routine work.
    High,
    /// Work that must run before anything else.
    Critical,
}

/// The numeric level of a priority: `Normal` 0, `High` 1, `Critical` 2.
pub open spec fn priority_level(p: TaskPriority) -> nat {
    match p {
        TaskPriority::Normal => 0,
        TaskPriority::High => 1,
        TaskPriority::Critical => 2,
    }
}

impl TaskPriority {
    /// The numeric level of this priority; higher levels leave the queue first.
    pub fn level(&self) -> (r: u8)
        ensures
            r == priority_level(*self),
    {
        match self {
            TaskPriority::Normal => 0,
            TaskPriority::High => 1,
            TaskPriority::Critical => 2,
        }
    }
}

/// A task together with its priority and its place in push order.
#[derive(Debug, Clone)]
pub struct PrioritizedTask {
    /// The queued task.
    pub task: Task,
    /// Its priority.
    pub priority: TaskPriority,
    /// Push sequence number: earlier pushes have smaller numbers.
    pub seq: u64,
}

/// `a` leaves the queue before `b`: higher priority, or the same priority and pushed earlier.
pub open spec fn outranks(a: PrioritizedTask, b: PrioritizedTask) -> bool {
    priority_level(a.priority) > priority_level(b.priority) || (priority_level(a.priority) == priority_level(
        b.priority,
    ) && a.seq < b.seq)
}

/// Entry `i` of `s` outranks every other entry of `s`.
pub open spec fn is_next(s: Seq<PrioritizedTask>, i: int) -> bool {
    &&& 0 <= i < s.len()
    &&& forall|j: int| 0 <= j < s.len() && j != i ==> #[trigger] outranks(s[i], s[j])
}

impl PartialEq for PrioritizedTask {
    /// Two queue entries are equal when they have the same priority and sequence number.
    fn eq(&self, other: &Self) -> (r: bool) {
        self.priority == other.priority && self.seq == other.seq
    }
}

impl vstd::std_specs::cmp::PartialEqSpecImpl for PrioritizedTask {
    open spec fn obeys_eq_spec() -> bool {
        true
    }

    open spec fn eq_spec(&self, other: &Self) -> bool {
        self.priority == other.priority && self.seq == other.seq
    }
}

impl Eq for PrioritizedTask {}

/// A priority queue of tasks.
#[derive(Debug)]
pub struct TaskQueue {
    /// Entries in push order.
    entries: Vec<PrioritizedTask>,
    next_seq: u64,
}

impl TaskQueue {
    /// The queued entries, in the order they were pushed.
    pub closed spec fn view(&self) -> Seq<PrioritizedTask> {
        self.entries@
    }

    /// The sequence number the next push will use.
    pub closed spec fn next_seq(&self) -> u64 {
        self.next_seq
    }

    /// Sequence numbers increase along the queue and stay below the next one.
    pub closed spec fn wf(&self) -> bool {
        &&& forall|i: int, j: int| 0 <= i < j < self.entries@.len() ==> self.entries@[i].seq < self.entries@[j].seq
        &&& forall|i: int| 0 <= i < self.entries@.len() ==> (#[trigger] self.entries@[i]).seq < self.next_seq
    }

    /// Entries pushed earlier carry smaller sequence numbers, all below the
    /// one the next push will use.
    pub proof fn lemma_push_order(&self)
        requires
            self.wf(),
        ensures
            forall|i: int, j: int| 0 <= i < j < self@.len() ==> (#[trigger] self@[i]).seq < (#[trigger] self@[j]).seq,
            forall|i: int| 0 <= i < self@.len() ==> (#[trigger] self@[i]).seq < self.next_seq(),
    {
    }

    /// An empty queue.
    pub fn new() -> (r: Self)
        ensures
            r.wf(),
            r@ == Seq::<PrioritizedTask>::empty(),
            r.next_seq() == 0,
    {
        TaskQueue { entries: Vec::new(), next_seq: 0 }
    }

    /// Push a task with the given priority.
    pub fn push(&mut self, task: Task, priority: TaskPriority)
        requires
            old(self).wf(),
            old(self).next_seq() < u64::MAX,
        ensures
            final(self).wf(),
            final(self)@ == old(self)@.push(PrioritizedTask { task, priority, seq: old(self).next_seq() }),
            final(self).next_seq() == old(self).next_seq() + 1,
            forall|i: int| 0 <= i < old(self)@.len() ==> (#[trigger] old(self)@[i]).seq < old(self).next_seq(),
    {
        let seq = self.next_seq;
        self.next_seq = self.next_seq + 1;
        self.entries.push(PrioritizedTask { task, priority, seq });
    }

    /// Position of the entry that outranks all others.
    fn next_index(&self) -> (i: usize)
        requires
            self.wf(),
            self@.len() > 0,
        ensures
            is_next(self@, i as int),
    {
        let mut best: usize = 0;
        let mut i: usize = 1;
        while i < self.entries.len()
            invariant
                self.wf(),
                1 <= i <= self.entries@.len(),
                best < i,
                forall|j: int| 0 <= j < i ==> priority_level(#[trigger] self.entries@[j].priority) <= priority_level(
                    self.entries@[best as int].priority,
                ),
                forall|j: int| 0 <= j < best ==> priority_level(#[trigger] self.entries@[j].priority) < priority_level(
                    self.entries@[best as int].priority,
                ),
            decreases self.entries.len() - i,
        {
            if self.entries[i].priority.level() > self.entries[best].priority.level() {
                best = i;
            }
            i = i + 1;
        }
        proof {
            let s = self.entries@;
            assert forall|j: int| 0 <= j < s.len() && j != best implies #[trigger] outranks(s[best as int], s[j]) by {
                assert(priority_level(s[j].priority) <= priority_level(s[best as int].priority));
                if j > best {
                    assert(s[best as int].seq < s[j].seq);
                }
            }
        }
        best
    }

    /// Remove and return the entry that outranks all others, if any.
    pub fn pop(&mut self) -> (r: Option<PrioritizedTask>)
        requires
            old(self).wf(),
        ensures
            final(self).wf(),
            final(self).next_seq() == old(self).next_seq(),
            old(self)@.len() == 0 ==> r is None && final(self)@ == old(self)@,
            old(self)@.len() > 0 ==> exists|i: int|
                is_next(old(self)@, i) && r == Some(old(self)@[i]) && final(self)@ == old(self)@.remove(i),
    {
        if self.entries.len() == 0 {
            return None;
        }
        let i = self.next_index();
        let e = self.entries.remove(i);
        proof {
            let s = old(self)@;
            assert forall|a: int, b: int| 0 <= a < b < self.entries@.len() implies self.entries@[a].seq < self.entries@[b].seq by {
                if a >= i {
                    assert(self.entries@[a] == s[a + 1]);
                    assert(self.entries@[b] == s[b + 1]);
                } else if b >= i {
                    assert(self.entries@[b] == s[b + 1]);
                }
            }
            assert forall|a: int| 0 <= a < self.entries@.len() implies (#[trigger] self.entries@[a]).seq < self.next_seq by {
                if a >= i {
                    assert(self.entries@[a] == s[a + 1]);
                }
            }
        }
        Some(e)
    }

    /// The entry that outranks all others, without removing it.
    pub fn peek(&self) -> (r: Option<&PrioritizedTask>)
        requires
            self.wf(),
        ensures
            self@.len() == 0 ==> r is None,
            self@.len() > 0 ==> exists|i: int| is_next(self@, i) && r == Some(&self@[i]),
    {
        if self.entries.len() == 0 {
            return None;
        }
        let i = self.next_index();
        Some(&self.entries[i])
    }

    /// Number of queued entries.
    pub fn len(&self) -> (n: usize)
        ensures
            n == self@.len(),
    {
        self.entries.len()
    }

    /// Whether the queue is empty.
    pub fn is_empty(&self) -> (r: bool)
        ensures
            r == (self@.len() == 0),
    {
        self.entries.len() == 0
    }

    /// Remove every entry; sequence numbering carries on where it was.
    pub fn clear(&mut self)
        requires
            old(self).wf(),
        ensures
            final(self).wf(),
            final(self)@ == Seq::<PrioritizedTask>::empty(),
            final(self).next_seq() == old(self).next_seq(),
    {
        self.entries.clear();
    }
}

impl Default for TaskQueue {
    fn default() -> (r: Self)
        ensures
            r.wf(),
            r@ == Seq::<PrioritizedTask>::empty(),
            r.next_seq() == 0,
    {
        Self::new()
    }
}

} // verus!
