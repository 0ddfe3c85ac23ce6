use murmur::membership::{MembershipChange, MembershipManager};
use murmur::types::{NodeId, SimTime};

#[test]
fn join_and_query() {
    let mut mgr = MembershipManager::new();
    let change = mgr.handle_join(NodeId(1), SimTime(100));

    assert_eq!(change, MembershipChange::Joined { node_id: NodeId(1), at: SimTime(100) });
    assert!(mgr.is_member(NodeId(1)));
    assert_eq!(mgr.member_count(), 1);
}

#[test]
fn duplicate_join_returns_already_member() {
    let mut mgr = MembershipManager::new();
    mgr.handle_join(NodeId(1), SimTime(0));
    let change = mgr.handle_join(NodeId(1), SimTime(100));

    assert_eq!(change, MembershipChange::AlreadyMember { node_id: NodeId(1) });
    assert_eq!(mgr.member_count(), 1);
}

#[test]
fn leave_removes_member() {
    let mut mgr = MembershipManager::new();
    mgr.handle_join(NodeId(1), SimTime(0));
    let change = mgr.handle_leave(NodeId(1), SimTime(500));

    assert_eq!(change, MembershipChange::Left { node_id: NodeId(1), at: SimTime(500) });
    assert!(!mgr.is_member(NodeId(1)));
    assert_eq!(mgr.member_count(), 0);
}

#[test]
fn leave_nonmember_returns_not_member() {
    let mut mgr = MembershipManager::new();
    let change = mgr.handle_leave(NodeId(42), SimTime(0));
    assert_eq!(change, MembershipChange::NotMember { node_id: NodeId(42) });
}

#[test]
fn timeout_removes_member() {
    let mut mgr = MembershipManager::new();
    mgr.handle_join(NodeId(1), SimTime(0));
    let change = mgr.handle_timeout(NodeId(1), SimTime(3000));

    assert_eq!(change, MembershipChange::TimedOut { node_id: NodeId(1), at: SimTime(3000) });
    assert!(!mgr.is_member(NodeId(1)));
}

#[test]
fn timeout_nonmember_returns_not_member() {
    let mut mgr = MembershipManager::new();
    let change = mgr.handle_timeout(NodeId(99), SimTime(0));
    assert_eq!(change, MembershipChange::NotMember { node_id: NodeId(99) });
}

#[test]
fn members_sorted() {
    let mut mgr = MembershipManager::new();
    mgr.handle_join(NodeId(5), SimTime(0));
    mgr.handle_join(NodeId(1), SimTime(0));
    mgr.handle_join(NodeId(3), SimTime(0));

    assert_eq!(mgr.members(), vec![NodeId(1), NodeId(3), NodeId(5)]);
}

#[test]
fn membership_full_lifecycle() {
    let mut mgr = MembershipManager::new();

    mgr.handle_join(NodeId(1), SimTime(0));
    mgr.handle_join(NodeId(2), SimTime(0));
    mgr.handle_join(NodeId(3), SimTime(0));
    assert_eq!(mgr.member_count(), 3);

    mgr.handle_leave(NodeId(2), SimTime(1000));
    assert_eq!(mgr.member_count(), 2);
    assert!(!mgr.is_member(NodeId(2)));

    mgr.handle_timeout(NodeId(3), SimTime(5000));
    assert_eq!(mgr.member_count(), 1);
    assert_eq!(mgr.members(), vec![NodeId(1)]);
}

#[test]
fn rejoin_after_leave() {
    let mut mgr = MembershipManager::default();
    mgr.handle_join(NodeId(7), SimTime(0));
    mgr.handle_leave(NodeId(7), SimTime(1));
    assert_eq!(
        mgr.handle_join(NodeId(7), SimTime(2)),
        MembershipChange::Joined { node_id: NodeId(7), at: SimTime(2) }
    );
    assert_eq!(mgr.members(), vec![NodeId(7)]);
}
