use murmur::chunk::OstFragment;
use murmur::event::{LeaveReason, MurmurEvent};
use murmur::types::{ManifestId, NodeId, SimTime};

#[test]
fn events_report_their_time() {
    let joined = MurmurEvent::NodeJoined { node_id: NodeId(1), at: SimTime(10) };
    assert_eq!(joined.time(), SimTime(10));
    let left = MurmurEvent::NodeLeft { node_id: NodeId(1), at: SimTime(11), reason: LeaveReason::Timeout };
    assert_eq!(left.time(), SimTime(11));
    let done = MurmurEvent::TransferCompleted { manifest_id: ManifestId(1), at: SimTime(12), total_time_ms: 5 };
    assert_eq!(done.time(), SimTime(12));
}

#[test]
fn fragment_events_use_deadline_and_send_time() {
    let req = MurmurEvent::RequestOstFragments { from_coordinator: NodeId(2), epoch: 3, deadline: SimTime(900) };
    assert_eq!(req.time(), SimTime(900));
    let fragment = OstFragment { node_id: NodeId(4), epoch: 3, owned_chunks: vec![], last_updated: SimTime(1) };
    let rep = MurmurEvent::OstFragmentReported {
        by: NodeId(4),
        to: NodeId(2),
        epoch: 3,
        fragment,
        sent_at: SimTime(450),
    };
    assert_eq!(rep.time(), SimTime(450));
}
