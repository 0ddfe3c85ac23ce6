//! Requests of the local control interface.
use vstd::prelude::*;

verus! {

/// A request a local client sends to the node.
#[derive(Debug, Clone, PartialEq, Eq)]
pub enum RpcRequest {
    Status,
    Seed { url: String },
    ListManifests,
    Reassemble { manifest_id: String, out_path: String },
    StartDownload { manifest_id: String },
    Progress { manifest_id: String },
    Stop,
}

} // verus!
