use murmur::peer_health::PeerHealthTracker;
use murmur::types::{NodeId, SimTime};

fn tracker() -> PeerHealthTracker {
    PeerHealthTracker::new(3, 1000)
}

#[test]
fn new_tracker_is_empty() {
    let t = tracker();
    assert_eq!(t.tracked_count(), 0);
    assert!(!t.is_alive(NodeId(1), SimTime(0)));
}

#[test]
fn record_and_check_alive() {
    let mut t = tracker();
    t.record_heartbeat(NodeId(1), SimTime(1000));

    assert!(t.is_alive(NodeId(1), SimTime(2000)));
    assert_eq!(t.last_seen(NodeId(1)), Some(SimTime(1000)));
}

#[test]
fn peer_health_timeout_detection() {
    let mut t = tracker();
    t.record_heartbeat(NodeId(1), SimTime(0));
    t.record_heartbeat(NodeId(2), SimTime(1000));

    let timed_out = t.check_timeouts(SimTime(3000));
    assert_eq!(timed_out, vec![NodeId(1)]);
}

#[test]
fn heartbeat_refresh_prevents_timeout() {
    let mut t = tracker();
    t.record_heartbeat(NodeId(1), SimTime(0));
    t.record_heartbeat(NodeId(1), SimTime(2500));

    assert!(t.is_alive(NodeId(1), SimTime(3000)));
    assert!(t.check_timeouts(SimTime(3000)).is_empty());
}

#[test]
fn remove_peer_stops_tracking() {
    let mut t = tracker();
    t.record_heartbeat(NodeId(1), SimTime(0));
    assert_eq!(t.tracked_count(), 1);

    t.remove_peer(NodeId(1));
    assert_eq!(t.tracked_count(), 0);
    assert!(t.last_seen(NodeId(1)).is_none());
    assert!(!t.is_alive(NodeId(1), SimTime(0)));
}

#[test]
fn tracked_count_accurate() {
    let mut t = tracker();
    t.record_heartbeat(NodeId(1), SimTime(0));
    t.record_heartbeat(NodeId(2), SimTime(0));
    t.record_heartbeat(NodeId(3), SimTime(0));
    assert_eq!(t.tracked_count(), 3);

    t.remove_peer(NodeId(2));
    assert_eq!(t.tracked_count(), 2);
}

#[test]
fn exact_timeout_boundary() {
    let mut t = tracker();
    t.record_heartbeat(NodeId(1), SimTime(0));

    assert!(t.is_alive(NodeId(1), SimTime(2999)));
    assert!(!t.is_alive(NodeId(1), SimTime(3000)));
}

#[test]
fn multiple_timeouts_sorted() {
    let mut t = tracker();
    t.record_heartbeat(NodeId(5), SimTime(0));
    t.record_heartbeat(NodeId(1), SimTime(0));
    t.record_heartbeat(NodeId(3), SimTime(0));

    let timed_out = t.check_timeouts(SimTime(5000));
    assert_eq!(timed_out, vec![NodeId(1), NodeId(3), NodeId(5)]);
}

#[test]
fn different_timeout_config() {
    let mut t = PeerHealthTracker::new(2, 500);
    t.record_heartbeat(NodeId(1), SimTime(0));

    assert!(t.is_alive(NodeId(1), SimTime(999)));
    assert!(!t.is_alive(NodeId(1), SimTime(1000)));
}

#[test]
fn heartbeat_from_the_future_keeps_peer_alive() {
    let mut t = tracker();
    t.record_heartbeat(NodeId(4), SimTime(10_000));
    assert!(t.is_alive(NodeId(4), SimTime(0)));
    assert!(t.check_timeouts(SimTime(12_999)).is_empty());
}
