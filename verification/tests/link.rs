use murmur::link::{Link, LinkMetrics, LinkStatus};
use murmur::types::{NodeId, SimTime};

#[test]
fn healthy_link_transfer_time() {
    let link = Link::new(NodeId(1), NodeId(2), LinkMetrics::default(), SimTime(0));
    let time = link.transfer_time_ms(1_048_576);
    assert_eq!(time, Some(22));
}

#[test]
fn severed_link_returns_none() {
    let mut link = Link::new(NodeId(1), NodeId(2), LinkMetrics::default(), SimTime(0));
    link.sever(SimTime(100));
    assert_eq!(link.transfer_time_ms(1_048_576), None);
}

#[test]
fn degrade_then_restore() {
    let mut link = Link::new(NodeId(1), NodeId(2), LinkMetrics::default(), SimTime(0));
    let slow = LinkMetrics { latency_ms: 10, throughput: 1000, jitter_ms: 0 };
    link.degrade(slow, SimTime(5));
    assert_eq!(link.status, LinkStatus::Degraded);
    assert_eq!(link.transfer_time_ms(500), Some(510));
    link.restore(LinkMetrics::default(), SimTime(9));
    assert_eq!(link.status, LinkStatus::Healthy);
    assert_eq!(link.last_measured, SimTime(9));
}

#[test]
fn zero_throughput_has_no_transfer_time() {
    let m = LinkMetrics { latency_ms: 1, throughput: 0, jitter_ms: 0 };
    let link = Link::new(NodeId(1), NodeId(2), m, SimTime(0));
    assert_eq!(link.transfer_time_ms(10), None);
}
