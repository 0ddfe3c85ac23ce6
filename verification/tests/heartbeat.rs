use murmur::heartbeat::HeartbeatMonitor;
use murmur::types::{NodeId, SimTime};

#[test]
fn new_monitor() {
    let monitor = HeartbeatMonitor::new(1000, 3);
    assert_eq!(monitor.interval_ms(), 1000);
    assert_eq!(monitor.timeout_ms(), 3000);
    assert_eq!(monitor.tracked_count(), 0);
}

#[test]
fn should_send_at_interval() {
    let mut monitor = HeartbeatMonitor::new(1000, 3);
    monitor.record_sent(SimTime(0));

    assert!(!monitor.should_send(SimTime(500)));
    assert!(!monitor.should_send(SimTime(999)));
    assert!(monitor.should_send(SimTime(1000)));
    assert!(monitor.should_send(SimTime(2000)));
}

#[test]
fn track_and_receive() {
    let mut monitor = HeartbeatMonitor::new(1000, 3);
    monitor.track_peer(NodeId(1), SimTime(100));

    assert_eq!(monitor.last_received_from(NodeId(1)), Some(SimTime(100)));
    assert_eq!(monitor.tracked_count(), 1);

    monitor.record_received(NodeId(1), SimTime(1100));
    assert_eq!(monitor.last_received_from(NodeId(1)), Some(SimTime(1100)));
}

#[test]
fn heartbeat_timeout_detection() {
    let mut monitor = HeartbeatMonitor::new(1000, 3);
    monitor.track_peer(NodeId(1), SimTime(0));
    monitor.track_peer(NodeId(2), SimTime(0));

    assert!(!monitor.has_timed_out(NodeId(1), SimTime(2999)));

    assert!(monitor.has_timed_out(NodeId(1), SimTime(3000)));
    assert!(monitor.has_timed_out(NodeId(2), SimTime(3000)));

    monitor.record_received(NodeId(1), SimTime(2500));

    assert!(!monitor.has_timed_out(NodeId(1), SimTime(3000)));
    assert!(monitor.has_timed_out(NodeId(2), SimTime(3000)));
}

#[test]
fn check_all_timeouts() {
    let mut monitor = HeartbeatMonitor::new(1000, 3);
    monitor.track_peer(NodeId(1), SimTime(0));
    monitor.track_peer(NodeId(2), SimTime(0));
    monitor.track_peer(NodeId(3), SimTime(1000));

    let mut timed_out = monitor.check_all_timeouts(SimTime(3000));
    timed_out.sort();
    assert_eq!(timed_out, vec![NodeId(1), NodeId(2)]);
}

#[test]
fn untracked_peer_is_timed_out() {
    let monitor = HeartbeatMonitor::new(1000, 3);
    assert!(monitor.has_timed_out(NodeId(99), SimTime(0)));
}

#[test]
fn untrack_peer() {
    let mut monitor = HeartbeatMonitor::new(1000, 3);
    monitor.track_peer(NodeId(1), SimTime(0));
    assert_eq!(monitor.tracked_count(), 1);

    monitor.untrack_peer(NodeId(1));
    assert_eq!(monitor.tracked_count(), 0);
    assert!(monitor.last_received_from(NodeId(1)).is_none());
}

#[test]
fn clear_resets_all() {
    let mut monitor = HeartbeatMonitor::new(1000, 3);
    monitor.track_peer(NodeId(1), SimTime(0));
    monitor.record_sent(SimTime(500));

    monitor.clear();
    assert_eq!(monitor.tracked_count(), 0);
    assert_eq!(monitor.last_sent(), SimTime::default());
}

#[test]
fn received_before_tracking_starts_tracking() {
    let mut monitor = HeartbeatMonitor::new(10, 2);
    monitor.record_received(NodeId(5), SimTime(40));
    assert_eq!(monitor.tracked_count(), 1);
    assert!(!monitor.has_timed_out(NodeId(5), SimTime(59)));
    assert!(monitor.has_timed_out(NodeId(5), SimTime(60)));
}
