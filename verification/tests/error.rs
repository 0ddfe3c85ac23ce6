use murmur::error::MurmurError;
use murmur::types::{ChunkId, NodeId, TaskId};

#[test]
fn error_messages_name_their_subject() {
    assert_eq!(MurmurError::NodeNotFound(NodeId(5)).to_string(), "Node Node(5) not found in cluster");
    assert_eq!(
        MurmurError::NodeUnavailable(NodeId(7)).to_string(),
        "Node Node(7) is not available (status: dead or disconnected)"
    );
    assert_eq!(MurmurError::ChunkNotFound(ChunkId(3)).to_string(), "Chunk Chunk(3) not found in manifest");
    assert_eq!(
        MurmurError::ChunkVerificationFailed(ChunkId(0)).to_string(),
        "Chunk Chunk(0) integrity verification failed"
    );
    assert_eq!(MurmurError::TaskNotFound(TaskId(12)).to_string(), "Task Task(12) not found");
}

#[test]
fn error_messages_without_and_with_text() {
    assert_eq!(MurmurError::NoCoordinator.to_string(), "No coordinator elected");
    assert_eq!(MurmurError::EmptyCluster.to_string(), "Cluster is empty — no active nodes");
    assert_eq!(MurmurError::ClusterFull(50).to_string(), "Maximum cluster size (50) exceeded");
    assert_eq!(MurmurError::ElectionFailed("quorum".to_string()).to_string(), "Election failed: quorum");
    assert_eq!(MurmurError::SchedulerError("x".to_string()).to_string(), "Scheduler error: x");
    assert_eq!(MurmurError::TransferFailed(String::new()).to_string(), "Transfer failed: ");
    assert_eq!(MurmurError::SimulationError("y".to_string()).to_string(), "Simulation error: y");
}
