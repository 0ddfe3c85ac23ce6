//! The coordinator lifecycle state machine and the history of coordinator tenures.
//!
//! ```text
//!  Bootstrap -> Electing -> Recovering -> Active -> Dead -> Electing -> ...
//! ```
use vstd::prelude::*;

use crate::chunk::OstFragment;
use crate::types::{elapsed, NodeId, SimTime};

verus! {

/// The lifecycle state of the coordination subsystem.
#[derive(Debug, Clone, PartialEq, Eq)]
pub enum CoordinatorState {
    /// No coordinator yet: the system is bootstrapping.
    Bootstrap,
    /// An election is in progress.
    Electing { started_at: SimTime },
    /// A coordinator was elected and is recovering state from fragments.
    Recovering { coordinator: NodeId, term: u64, since: SimTime, received_fragments: Vec<OstFragment> },
    /// A coordinator is active and managing the cluster.
    Active { coordinator: NodeId, term: u64, since: SimTime },
    /// The coordinator died; waiting for re-election.
    Dead { previous: NodeId, died_at: SimTime },
}

/// A record of one coordinator's tenure.
#[derive(Debug, Clone, Copy, PartialEq, Eq, Structural)]
pub struct CoordinatorRecord {
    /// The coordinator's node id.
    pub node_id: NodeId,
    /// The term number.
    pub term: u64,
    /// When this coordinator was elected.
    pub elected_at: SimTime,
    /// How long it served in ms, or `None` while still serving.
    pub duration_ms: Option<u64>,
}

/// The history after ending the tenure of `coordinator` at `at`: when the latest
/// record belongs to `coordinator`, its duration becomes the time since its election.
pub open spec fn close_tenure(h: Seq<CoordinatorRecord>, coordinator: NodeId, at: SimTime) -> Seq<CoordinatorRecord> {
    if h.len() > 0 && h.last().node_id == coordinator {
        h.update(
            h.len() - 1,
            CoordinatorRecord { duration_ms: Some(elapsed(at, h.last().elected_at) as u64), ..h.last() },
        )
    } else {
        h
    }
}

/// The coordinator lifecycle state machine.
#[derive(Debug, Clone)]
pub struct CoordinatorLifecycle {
    state: CoordinatorState,
    history: Vec<CoordinatorRecord>,
}

impl CoordinatorLifecycle {
    /// The current state.
    pub closed spec fn spec_state(&self) -> CoordinatorState {
        self.state
    }

    /// The tenures so far, oldest first.
    pub closed spec fn spec_history(&self) -> Seq<CoordinatorRecord> {
        self.history@
    }

    /// A new lifecycle in the Bootstrap state with no history.
    pub fn new() -> (r: Self)
        ensures
            r.spec_state() == CoordinatorState::Bootstrap,
            r.spec_history() == Seq::<CoordinatorRecord>::empty(),
    {
        CoordinatorLifecycle { state: CoordinatorState::Bootstrap, history: Vec::new() }
    }

    /// The current state.
    pub fn state(&self) -> (r: &CoordinatorState)
        ensures
            *r == self.spec_state(),
    {
        &self.state
    }

    /// Whether a coordinator is active.
    pub fn is_active(&self) -> (r: bool)
        ensures
            r == (self.spec_state() is Active),
    {
        matches!(self.state, CoordinatorState::Active { .. })
    }

    /// Whether the coordinator is recovering.
    pub fn is_recovering(&self) -> (r: bool)
        ensures
            r == (self.spec_state() is Recovering),
    {
        matches!(self.state, CoordinatorState::Recovering { .. })
    }

    /// The current coordinator while it is active or recovering.
    pub fn active_coordinator(&self) -> (r: Option<NodeId>)
        ensures
            r == match self.spec_state() {
                CoordinatorState::Active { coordinator, .. } => Some(coordinator),
                CoordinatorState::Recovering { coordinator, .. } => Some(coordinator),
                _ => None::<NodeId>,
            },
    {
        match &self.state {
            CoordinatorState::Active { coordinator, .. } => Some(*coordinator),
            CoordinatorState::Recovering { coordinator, .. } => Some(*coordinator),
            _ => None,
        }
    }

    /// The current term: that of the active or recovering coordinator, else that
    /// of the latest tenure, else zero.
    pub fn current_term(&self) -> (r: u64)
        ensures
            r == match self.spec_state() {
                CoordinatorState::Active { term, .. } => term,
                CoordinatorState::Recovering { term, .. } => term,
                _ => if self.spec_history().len() > 0 { self.spec_history().last().term } else { 0 },
            },
    {
        match &self.state {
            CoordinatorState::Active { term, .. } => *term,
            CoordinatorState::Recovering { term, .. } => *term,
            _ => {
                if self.history.len() > 0 {
                    self.history[self.history.len() - 1].term
                } else {
                    0
                }
            },
        }
    }

    fn close_latest_tenure(&mut self, coordinator: NodeId, at: SimTime)
        ensures
            final(self).spec_state() == old(self).spec_state(),
            final(self).spec_history() == close_tenure(old(self).spec_history(), coordinator, at),
    {
        let n = self.history.len();
        if n > 0 && self.history[n - 1].node_id == coordinator {
            let rec = self.history[n - 1];
            let updated = CoordinatorRecord { duration_ms: Some(at.duration_since(rec.elected_at)), ..rec };
            self.history.set(n - 1, updated);
        }
    }

    /// Enter the Electing state; an active coordinator's tenure ends at `at`.
    pub fn start_election(&mut self, at: SimTime)
        ensures
            final(self).spec_state() == (CoordinatorState::Electing { started_at: at }),
            final(self).spec_history() == match old(self).spec_state() {
                CoordinatorState::Active { coordinator, .. } => close_tenure(old(self).spec_history(), coordinator, at),
                _ => old(self).spec_history(),
            },
    {
        if let CoordinatorState::Active { coordinator, .. } = &self.state {
            let c = *coordinator;
            self.close_latest_tenure(c, at);
        }
        self.state = CoordinatorState::Electing { started_at: at };
    }

    /// Record the election of `node_id` for `term`: it enters recovery with no
    /// fragments yet, and a new open tenure is appended to the history.
    pub fn declare_coordinator(&mut self, node_id: NodeId, term: u64, at: SimTime)
        ensures
            final(self).spec_state() matches CoordinatorState::Recovering { coordinator, term: t, since, received_fragments }
                && coordinator == node_id && t == term && since == at && received_fragments@.len() == 0,
            final(self).spec_history() == old(self).spec_history().push(
                CoordinatorRecord { node_id, term, elected_at: at, duration_ms: None },
            ),
    {
        self.state = CoordinatorState::Recovering {
            coordinator: node_id,
            term,
            since: at,
            received_fragments: Vec::new(),
        };
        self.history.push(CoordinatorRecord { node_id, term, elected_at: at, duration_ms: None });
    }

    /// Finish recovery: a recovering coordinator becomes active as of `at`; in any
    /// other state nothing changes.
    pub fn complete_recovery(&mut self, at: SimTime)
        ensures
            final(self).spec_history() == old(self).spec_history(),
            final(self).spec_state() == match old(self).spec_state() {
                CoordinatorState::Recovering { coordinator, term, .. } => CoordinatorState::Active {
                    coordinator,
                    term,
                    since: at,
                },
                s => s,
            },
    {
        if let CoordinatorState::Recovering { coordinator, term, .. } = &self.state {
            let c = *coordinator;
            let t = *term;
            self.state = CoordinatorState::Active { coordinator: c, term: t, since: at };
        }
    }

    /// The coordinator crashed or disconnected: an active or recovering
    /// coordinator's tenure ends at `at` and the state becomes Dead; in any other
    /// state nothing changes.
    pub fn coordinator_died(&mut self, at: SimTime)
        ensures
            match old(self).spec_state() {
                CoordinatorState::Active { coordinator, .. } => {
                    &&& final(self).spec_state() == (CoordinatorState::Dead { previous: coordinator, died_at: at })
                    &&& final(self).spec_history() == close_tenure(old(self).spec_history(), coordinator, at)
                },
                CoordinatorState::Recovering { coordinator, .. } => {
                    &&& final(self).spec_state() == (CoordinatorState::Dead { previous: coordinator, died_at: at })
                    &&& final(self).spec_history() == close_tenure(old(self).spec_history(), coordinator, at)
                },
                _ => final(self).spec_state() == old(self).spec_state() && final(self).spec_history()
                    == old(self).spec_history(),
            },
    {
        let prev = match &self.state {
            CoordinatorState::Active { coordinator, .. } => Some(*coordinator),
            CoordinatorState::Recovering { coordinator, .. } => Some(*coordinator),
            _ => None,
        };
        if let Some(previous) = prev {
            self.close_latest_tenure(previous, at);
            self.state = CoordinatorState::Dead { previous, died_at: at };
        }
    }

    /// Number of coordinators elected so far.
    pub fn transition_count(&self) -> (r: usize)
        ensures
            r == self.spec_history().len(),
    {
        self.history.len()
    }

    /// The full coordinator history, oldest first.
    pub fn history(&self) -> (r: &[CoordinatorRecord])
        ensures
            r@ == self.spec_history(),
    {
        self.history.as_slice()
    }
}

impl Default for CoordinatorLifecycle {
    fn default() -> (r: Self)
        ensures
            r.spec_state() == CoordinatorState::Bootstrap,
            r.spec_history() == Seq::<CoordinatorRecord>::empty(),
    {
        Self::new()
    }
}

} // verus!
