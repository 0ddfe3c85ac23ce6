use murmur::election::{bully_winner, BullyElection, ElectionMessage, ElectionState};
use murmur::types::{NodeId, SimTime};

#[test]
fn highest_node_wins_immediately() {
    let all = vec![NodeId(1), NodeId(2), NodeId(3)];
    let mut election = BullyElection::new(NodeId(3), 5000);

    let msgs = election.initiate_election(&all, SimTime(0));

    assert_eq!(*election.state(), ElectionState::Won { term: 1, at: SimTime(0) });
    assert_eq!(msgs.len(), 2);
    assert!(msgs.iter().all(|m| matches!(m, ElectionMessage::Victory { .. })));
    assert!(election.is_coordinator());
}

#[test]
fn lower_node_sends_to_higher() {
    let all = vec![NodeId(1), NodeId(2), NodeId(3)];
    let mut election = BullyElection::new(NodeId(1), 5000);

    let msgs = election.initiate_election(&all, SimTime(0));

    assert!(matches!(election.state(), ElectionState::WaitingForResponses { .. }));
    assert_eq!(msgs.len(), 2);
    assert!(msgs.iter().all(|m| matches!(m, ElectionMessage::Start { .. })));
}

#[test]
fn higher_node_responds_alive() {
    let all = vec![NodeId(1), NodeId(2), NodeId(3)];
    let mut election3 = BullyElection::new(NodeId(3), 5000);

    let msgs = election3.handle_election_start(NodeId(1), &all, SimTime(100));

    assert!(msgs.iter().any(|m| matches!(m, ElectionMessage::Alive { .. })));
    assert!(election3.is_coordinator());
}

#[test]
fn yield_on_alive_response() {
    let all = vec![NodeId(1), NodeId(2), NodeId(3)];
    let mut election1 = BullyElection::new(NodeId(1), 5000);

    election1.initiate_election(&all, SimTime(0));
    election1.handle_alive(NodeId(3));

    assert_eq!(*election1.state(), ElectionState::Yielded { yielded_to: NodeId(3) });
    assert!(!election1.is_coordinator());
}

#[test]
fn accept_victory() {
    let mut election1 = BullyElection::new(NodeId(1), 5000);

    let accepted = election1.handle_victory(NodeId(3), 1);
    assert!(accepted);
    assert_eq!(election1.known_coordinator(), Some(NodeId(3)));
    assert_eq!(election1.current_term(), 1);
    assert_eq!(*election1.state(), ElectionState::Idle);
}

#[test]
fn reject_stale_victory() {
    let mut election = BullyElection::new(NodeId(1), 5000);
    election.handle_victory(NodeId(3), 5);

    let accepted = election.handle_victory(NodeId(2), 3);
    assert!(!accepted);
    assert_eq!(election.known_coordinator(), Some(NodeId(3)));
}

#[test]
fn timeout_triggers_victory() {
    let all = vec![NodeId(1), NodeId(2), NodeId(3)];
    let mut election2 = BullyElection::new(NodeId(2), 5000);

    election2.initiate_election(&all, SimTime(0));

    assert!(election2.check_timeout(SimTime(4999), &all).is_none());

    let msgs = election2.check_timeout(SimTime(5000), &all).unwrap();
    assert!(election2.is_coordinator());
    assert_eq!(msgs.len(), 2);
}

#[test]
fn bully_winner_utility() {
    assert_eq!(
        bully_winner(&[NodeId(3), NodeId(1), NodeId(5), NodeId(2)]),
        Some(NodeId(5))
    );
    assert_eq!(bully_winner(&[]), None);
}

#[test]
fn reset_clears_state() {
    let all = vec![NodeId(1), NodeId(2)];
    let mut election = BullyElection::new(NodeId(1), 5000);
    election.initiate_election(&all, SimTime(0));
    assert!(matches!(election.state(), ElectionState::WaitingForResponses { .. }));

    election.reset();
    assert_eq!(*election.state(), ElectionState::Idle);
}

#[test]
fn victory_carries_next_term_to_every_other_node() {
    let all = vec![NodeId(4), NodeId(9), NodeId(2)];
    let mut election = BullyElection::new(NodeId(9), 100);
    let msgs = election.initiate_election(&all, SimTime(7));
    assert_eq!(
        msgs,
        vec![ElectionMessage::Victory { from: NodeId(9), term: 1 }; 2]
    );
    assert_eq!(election.current_term(), 1);
    assert_eq!(election.known_coordinator(), Some(NodeId(9)));
}

#[test]
fn start_from_higher_node_is_not_answered() {
    let all = vec![NodeId(1), NodeId(2)];
    let mut election = BullyElection::new(NodeId(1), 100);
    let msgs = election.handle_election_start(NodeId(2), &all, SimTime(0));
    assert!(msgs.is_empty());
    assert_eq!(*election.state(), ElectionState::Idle);
}
