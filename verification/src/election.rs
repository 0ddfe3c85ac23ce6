//! Coordinator election: the Bully algorithm, in which the highest node id wins.
//!
//! 1. A node that misses the coordinator starts an election.
//! 2. It sends `Start` to every node with a higher id.
//! 3. A higher node answers `Alive`, and the initiator yields.
//! 4. With no answer before the timeout, the initiator declares victory.
//! 5. The winner broadcasts `Victory` to every other node.
use vstd::prelude::*;

use crate::types::{elapsed, NodeId, SimTime};

verus! {

/// The state of an election on one node.
#[derive(Debug, Clone, Copy, PartialEq, Eq, Structural)]
pub enum ElectionState {
    /// No election in progress.
    Idle,
    /// This node started an election and waits for answers.
    WaitingForResponses { started_at: SimTime, initiated_by: NodeId },
    /// A higher node answered; this node yields.
    Yielded { yielded_to: NodeId },
    /// This node won and declared victory.
    Won { term: u64, at: SimTime },
}

/// A message exchanged during an election.
#[derive(Debug, Clone, Copy, PartialEq, Eq, Structural)]
pub enum ElectionMessage {
    /// "I am starting an election", sent to nodes with higher ids.
    Start { from: NodeId },
    /// "I have a higher id, stand down", the answer of a higher node.
    Alive { from: NodeId },
    /// "I am the new coordinator", broadcast to all nodes.
    Victory { from: NodeId, term: u64 },
}

/// Number of nodes in `s` whose id is above `id`.
pub open spec fn count_above(s: Seq<NodeId>, id: u64) -> nat
    decreases s.len(),
{
    if s.len() == 0 {
        0
    } else {
        count_above(s.drop_last(), id) + if s.last().0 > id { 1nat } else { 0nat }
    }
}

/// Number of nodes in `s` other than `id`.
pub open spec fn count_other(s: Seq<NodeId>, id: u64) -> nat
    decreases s.len(),
{
    if s.len() == 0 {
        0
    } else {
        count_other(s.drop_last(), id) + if s.last().0 != id { 1nat } else { 0nat }
    }
}

/// `n` copies of the same message.
pub open spec fn repeated(m: ElectionMessage, n: nat) -> Seq<ElectionMessage> {
    Seq::new(n, |_i: int| m)
}

proof fn lemma_count_above_zero(s: Seq<NodeId>, id: u64)
    ensures
        (count_above(s, id) == 0) == (forall|i: int| 0 <= i < s.len() ==> s[i].0 <= id),
    decreases s.len(),
{
    if s.len() > 0 {
        lemma_count_above_zero(s.drop_last(), id);
        if count_above(s, id) == 0 {
            assert forall|i: int| 0 <= i < s.len() implies s[i].0 <= id by {
                if i < s.len() - 1 {
                    assert(s.drop_last()[i] == s[i]);
                }
            }
        } else {
            if count_above(s.drop_last(), id) != 0 {
                let i = choose|i: int| 0 <= i < s.drop_last().len() && !(s.drop_last()[i].0 <= id);
                assert(s[i] == s.drop_last()[i]);
            }
        }
    }
}

proof fn lemma_count_bounded(s: Seq<NodeId>, id: u64)
    ensures
        count_above(s, id) <= s.len(),
        count_other(s, id) <= s.len(),
    decreases s.len(),
{
    if s.len() > 0 {
        lemma_count_bounded(s.drop_last(), id);
    }
}

/// The election engine of a single node.
#[derive(Debug, Clone)]
pub struct BullyElection {
    node_id: NodeId,
    state: ElectionState,
    current_term: u64,
    known_coordinator: Option<NodeId>,
    election_timeout_ms: u64,
}

/// Abstract state of an election engine.
pub struct ElectionView {
    pub node_id: NodeId,
    pub state: ElectionState,
    pub current_term: u64,
    pub known_coordinator: Option<NodeId>,
    pub election_timeout_ms: u64,
}

impl BullyElection {
    pub closed spec fn view(&self) -> ElectionView {
        ElectionView {
            node_id: self.node_id,
            state: self.state,
            current_term: self.current_term,
            known_coordinator: self.known_coordinator,
            election_timeout_ms: self.election_timeout_ms,
        }
    }

    /// A new, idle election engine for `node_id` at term zero.
    pub fn new(node_id: NodeId, election_timeout_ms: u64) -> (r: Self)
        ensures
            r@ == (ElectionView {
                node_id,
                state: ElectionState::Idle,
                current_term: 0,
                known_coordinator: None,
                election_timeout_ms,
            }),
    {
        BullyElection {
            node_id,
            state: ElectionState::Idle,
            current_term: 0,
            known_coordinator: None,
            election_timeout_ms,
        }
    }

    /// This node's id.
    pub fn node_id(&self) -> (r: NodeId)
        ensures
            r == self@.node_id,
    {
        self.node_id
    }

    /// Current election state.
    pub fn state(&self) -> (r: &ElectionState)
        ensures
            *r == self@.state,
    {
        &self.state
    }

    /// Current term number.
    pub fn current_term(&self) -> (r: u64)
        ensures
            r == self@.current_term,
    {
        self.current_term
    }

    /// Who this node believes the coordinator is.
    pub fn known_coordinator(&self) -> (r: Option<NodeId>)
        ensures
            r == self@.known_coordinator,
    {
        self.known_coordinator
    }

    /// Election timeout in ms.
    pub fn election_timeout_ms(&self) -> (r: u64)
        ensures
            r == self@.election_timeout_ms,
    {
        self.election_timeout_ms
    }

    /// Victory messages for every active node other than this one.
    fn victory_messages(&self, all_active_nodes: &[NodeId]) -> (r: Vec<ElectionMessage>)
        ensures
            r@ == repeated(
                ElectionMessage::Victory { from: self.node_id, term: self.current_term },
                count_other(all_active_nodes@, self.node_id.0),
            ),
    {
        let msg = ElectionMessage::Victory { from: self.node_id, term: self.current_term };
        let mut out: Vec<ElectionMessage> = Vec::new();
        let mut i: usize = 0;
        while i < all_active_nodes.len()
            invariant
                i <= all_active_nodes@.len(),
                out@ == repeated(msg, count_other(all_active_nodes@.take(i as int), self.node_id.0)),
            decreases all_active_nodes.len() - i,
        {
            proof {
                assert(all_active_nodes@.take(i + 1).drop_last() =~= all_active_nodes@.take(i as int));
            }
            if all_active_nodes[i].0 != self.node_id.0 {
                out.push(msg);
            }
            i = i + 1;
            assert(out@ =~= repeated(msg, count_other(all_active_nodes@.take(i as int), self.node_id.0)));
        }
        assert(all_active_nodes@.take(i as int) =~= all_active_nodes@);
        out
    }

    /// Start an election.
    ///
    /// With no active node above this one, this node wins at once: the term
    /// advances, it becomes the known coordinator, and a `Victory` goes to every
    /// other active node. Otherwise it waits for answers and a `Start` goes to
    /// every higher node.
    pub fn initiate_election(&mut self, all_active_nodes: &[NodeId], at: SimTime) -> (r: Vec<ElectionMessage>)
        requires
            old(self)@.current_term < u64::MAX,
        ensures
            ({
                let me = old(self)@.node_id;
                if count_above(all_active_nodes@, me.0) == 0 {
                    &&& final(self)@ == (ElectionView {
                        state: ElectionState::Won { term: (old(self)@.current_term + 1) as u64, at },
                        current_term: (old(self)@.current_term + 1) as u64,
                        known_coordinator: Some(me),
                        ..old(self)@
                    })
                    &&& r@ == repeated(
                        ElectionMessage::Victory { from: me, term: (old(self)@.current_term + 1) as u64 },
                        count_other(all_active_nodes@, me.0),
                    )
                } else {
                    &&& final(self)@ == (ElectionView {
                        state: ElectionState::WaitingForResponses { started_at: at, initiated_by: me },
                        ..old(self)@
                    })
                    &&& r@ == repeated(ElectionMessage::Start { from: me }, count_above(all_active_nodes@, me.0))
                }
            }),
    {
        let mut higher: usize = 0;
        let mut i: usize = 0;
        while i < all_active_nodes.len()
            invariant
                i <= all_active_nodes@.len(),
                higher == count_above(all_active_nodes@.take(i as int), self.node_id.0),
                higher <= i,
            decreases all_active_nodes.len() - i,
        {
            proof {
                assert(all_active_nodes@.take(i + 1).drop_last() =~= all_active_nodes@.take(i as int));
            }
            if all_active_nodes[i].0 > self.node_id.0 {
                higher = higher + 1;
            }
            i = i + 1;
        }
        assert(all_active_nodes@.take(i as int) =~= all_active_nodes@);
        if higher == 0 {
            self.current_term = self.current_term + 1;
            self.state = ElectionState::Won { term: self.current_term, at };
            self.known_coordinator = Some(self.node_id);
            return self.victory_messages(all_active_nodes);
        }
        self.state = ElectionState::WaitingForResponses { started_at: at, initiated_by: self.node_id };
        let msg = ElectionMessage::Start { from: self.node_id };
        let mut out: Vec<ElectionMessage> = Vec::new();
        let mut j: usize = 0;
        while j < higher
            invariant
                j <= higher,
                out@ == repeated(msg, j as nat),
            decreases higher - j,
        {
            out.push(msg);
            j = j + 1;
            assert(out@ =~= repeated(msg, j as nat));
        }
        out
    }

    /// Handle a `Start` from `from`.
    ///
    /// A higher node answers `Alive` and, when idle, starts its own election;
    /// a node that is not higher says nothing and changes nothing.
    pub fn handle_election_start(&mut self, from: NodeId, all_active_nodes: &[NodeId], at: SimTime) -> (r: Vec<
        ElectionMessage,
    >)
        requires
            old(self)@.current_term < u64::MAX,
        ensures
            ({
                let me = old(self)@.node_id;
                let alive = ElectionMessage::Alive { from: me };
                if me.0 <= from.0 {
                    final(self)@ == old(self)@ && r@ == Seq::<ElectionMessage>::empty()
                } else if old(self)@.state != ElectionState::Idle {
                    final(self)@ == old(self)@ && r@ == seq![alive]
                } else if count_above(all_active_nodes@, me.0) == 0 {
                    &&& final(self)@ == (ElectionView {
                        state: ElectionState::Won { term: (old(self)@.current_term + 1) as u64, at },
                        current_term: (old(self)@.current_term + 1) as u64,
                        known_coordinator: Some(me),
                        ..old(self)@
                    })
                    &&& r@ == seq![alive] + repeated(
                        ElectionMessage::Victory { from: me, term: (old(self)@.current_term + 1) as u64 },
                        count_other(all_active_nodes@, me.0),
                    )
                } else {
                    &&& final(self)@ == (ElectionView {
                        state: ElectionState::WaitingForResponses { started_at: at, initiated_by: me },
                        ..old(self)@
                    })
                    &&& r@ == seq![alive] + repeated(
                        ElectionMessage::Start { from: me },
                        count_above(all_active_nodes@, me.0),
                    )
                }
            }),
    {
        let mut messages: Vec<ElectionMessage> = Vec::new();
        if self.node_id.0 > from.0 {
            messages.push(ElectionMessage::Alive { from: self.node_id });
            if self.state == ElectionState::Idle {
                let mut election_msgs = self.initiate_election(all_active_nodes, at);
                messages.append(&mut election_msgs);
            }
        }
        messages
    }

    /// Handle an `Alive` from `from`: yield to a higher node, ignore any other.
    pub fn handle_alive(&mut self, from: NodeId)
        ensures
            final(self)@ == if from.0 > old(self)@.node_id.0 {
                ElectionView { state: ElectionState::Yielded { yielded_to: from }, ..old(self)@ }
            } else {
                old(self)@
            },
    {
        if from.0 > self.node_id.0 {
            self.state = ElectionState::Yielded { yielded_to: from };
        }
    }

    /// Handle a `Victory`: accepted (and returns true) exactly when its term is
    /// not older than the current one; a stale victory changes nothing.
    pub fn handle_victory(&mut self, from: NodeId, term: u64) -> (r: bool)
        ensures
            r == (term >= old(self)@.current_term),
            final(self)@ == if r {
                ElectionView {
                    current_term: term,
                    known_coordinator: Some(from),
                    state: ElectionState::Idle,
                    ..old(self)@
                }
            } else {
                old(self)@
            },
    {
        if term >= self.current_term {
            self.current_term = term;
            self.known_coordinator = Some(from);
            self.state = ElectionState::Idle;
            true
        } else {
            false
        }
    }

    /// Declare victory when this node has waited at least the election timeout
    /// for answers; `None` (and no change) otherwise.
    pub fn check_timeout(&mut self, now: SimTime, all_active_nodes: &[NodeId]) -> (r: Option<Vec<ElectionMessage>>)
        requires
            old(self)@.current_term < u64::MAX,
        ensures
            ({
                let me = old(self)@.node_id;
                let expired = match old(self)@.state {
                    ElectionState::WaitingForResponses { started_at, .. } => elapsed(now, started_at)
                        >= old(self)@.election_timeout_ms,
                    _ => false,
                };
                if expired {
                    &&& r is Some
                    &&& r->0@ == repeated(
                        ElectionMessage::Victory { from: me, term: (old(self)@.current_term + 1) as u64 },
                        count_other(all_active_nodes@, me.0),
                    )
                    &&& final(self)@ == (ElectionView {
                        state: ElectionState::Won { term: (old(self)@.current_term + 1) as u64, at: now },
                        current_term: (old(self)@.current_term + 1) as u64,
                        known_coordinator: Some(me),
                        ..old(self)@
                    })
                } else {
                    r is None && final(self)@ == old(self)@
                }
            }),
    {
        if let ElectionState::WaitingForResponses { started_at, .. } = self.state {
            if now.duration_since(started_at) >= self.election_timeout_ms {
                self.current_term = self.current_term + 1;
                self.state = ElectionState::Won { term: self.current_term, at: now };
                self.known_coordinator = Some(self.node_id);
                return Some(self.victory_messages(all_active_nodes));
            }
        }
        None
    }

    /// Reset the election state to idle.
    pub fn reset(&mut self)
        ensures
            final(self)@ == (ElectionView { state: ElectionState::Idle, ..old(self)@ }),
    {
        self.state = ElectionState::Idle;
    }

    /// Whether this node believes itself to be the coordinator.
    pub fn is_coordinator(&self) -> (r: bool)
        ensures
            r == (self@.known_coordinator == Some(self@.node_id)),
    {
        match self.known_coordinator {
            Some(c) => c.0 == self.node_id.0,
            None => false,
        }
    }
}

/// The Bully winner among `active_nodes`: the highest id, or `None` when there is none.
pub fn bully_winner(active_nodes: &[NodeId]) -> (r: Option<NodeId>)
    ensures
        active_nodes@.len() == 0 <==> r is None,
        r is Some ==> active_nodes@.contains(r->0),
        r is Some ==> forall|i: int| 0 <= i < active_nodes@.len() ==> active_nodes@[i].0 <= (r->0).0,
{
    if active_nodes.len() == 0 {
        return None;
    }
    let mut best = active_nodes[0];
    let mut i: usize = 1;
    while i < active_nodes.len()
        invariant
            1 <= i <= active_nodes@.len(),
            active_nodes@.contains(best),
            forall|j: int| 0 <= j < i ==> active_nodes@[j].0 <= best.0,
        decreases active_nodes.len() - i,
    {
        if active_nodes[i].0 > best.0 {
            best = active_nodes[i];
        }
        i = i + 1;
    }
    Some(best)
}

/// Law: whenever an election started by `me` ends in immediate victory, no active
/// node has a higher id than `me`.
pub proof fn lemma_immediate_winner_is_highest(all_active_nodes: Seq<NodeId>, me: NodeId)
    requires
        count_above(all_active_nodes, me.0) == 0,
    ensures
        forall|i: int| 0 <= i < all_active_nodes.len() ==> all_active_nodes[i].0 <= me.0,
{
    lemma_count_above_zero(all_active_nodes, me.0);
}

} // verus!
