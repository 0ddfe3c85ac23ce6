use murmur::lifecycle::{CoordinatorLifecycle, CoordinatorState};
use murmur::types::{NodeId, SimTime};

#[test]
fn starts_in_bootstrap() {
    let lc = CoordinatorLifecycle::new();
    assert_eq!(*lc.state(), CoordinatorState::Bootstrap);
    assert!(!lc.is_active());
    assert!(lc.active_coordinator().is_none());
}

#[test]
fn lifecycle_full_lifecycle() {
    let mut lc = CoordinatorLifecycle::new();

    lc.start_election(SimTime(0));
    assert!(matches!(lc.state(), CoordinatorState::Electing { .. }));

    lc.declare_coordinator(NodeId(5), 1, SimTime(100));
    assert!(matches!(lc.state(), CoordinatorState::Recovering { .. }));
    assert!(!lc.is_active());
    assert!(lc.is_recovering());

    lc.complete_recovery(SimTime(200));
    assert!(lc.is_active());
    assert!(!lc.is_recovering());
    assert_eq!(lc.active_coordinator(), Some(NodeId(5)));
    assert_eq!(lc.current_term(), 1);

    lc.coordinator_died(SimTime(5000));
    assert!(matches!(lc.state(), CoordinatorState::Dead { .. }));
    assert!(!lc.is_active());

    lc.start_election(SimTime(5100));
    lc.declare_coordinator(NodeId(4), 2, SimTime(5200));
    lc.complete_recovery(SimTime(5300));
    assert_eq!(lc.active_coordinator(), Some(NodeId(4)));
    assert_eq!(lc.current_term(), 2);
}

#[test]
fn history_records_transitions() {
    let mut lc = CoordinatorLifecycle::new();

    lc.start_election(SimTime(0));
    lc.declare_coordinator(NodeId(5), 1, SimTime(100));
    lc.complete_recovery(SimTime(200));
    lc.coordinator_died(SimTime(5000));
    lc.start_election(SimTime(5100));
    lc.declare_coordinator(NodeId(4), 2, SimTime(5200));

    assert_eq!(lc.transition_count(), 2);

    let history = lc.history();
    assert_eq!(history[0].node_id, NodeId(5));
    assert_eq!(history[0].term, 1);
    assert_eq!(history[0].duration_ms, Some(4900));

    assert_eq!(history[1].node_id, NodeId(4));
    assert_eq!(history[1].term, 2);
    assert!(history[1].duration_ms.is_none());
}

#[test]
fn coordinator_died_only_from_active() {
    let mut lc = CoordinatorLifecycle::new();
    lc.coordinator_died(SimTime(100));
    assert_eq!(*lc.state(), CoordinatorState::Bootstrap);
}

#[test]
fn default_lifecycle_is_bootstrap() {
    let lc = CoordinatorLifecycle::default();
    assert_eq!(*lc.state(), CoordinatorState::Bootstrap);
    assert_eq!(lc.transition_count(), 0);
    assert_eq!(lc.current_term(), 0);
}
