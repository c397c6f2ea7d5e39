use vstd::prelude::*;

use crate::ids::NodeId;
use crate::service::ServiceHealthReport;
use crate::text::{copy_strings, strings_view};
use crate::time::Timestamp;

verus! {

/// Where a node stands in its life cycle as the controller sees it.
#[derive(Clone, Copy, PartialEq, Eq, Structural, Hash, Debug)]
pub enum NodeStatus {
    Registering,
    Healthy,
    Offline,
}

/// The controller's record of one edge node.
#[derive(Debug, PartialEq, Eq)]
pub struct NodeRecord {
    pub id: NodeId,
    pub status: NodeStatus,
    pub last_heartbeat: Option<Timestamp>,
    pub capabilities: Vec<String>,
}

/// The mathematical value of a [`NodeRecord`].
pub struct NodeRecordView {
    pub id: NodeId,
    pub status: NodeStatus,
    pub last_heartbeat: Option<Timestamp>,
    pub capabilities: Seq<Seq<char>>,
}

impl View for NodeRecord {
    type V = NodeRecordView;

    open spec fn view(&self) -> NodeRecordView {
        NodeRecordView {
            id: self.id,
            status: self.status,
            last_heartbeat: self.last_heartbeat,
            capabilities: strings_view(self.capabilities@),
        }
    }
}

impl Clone for NodeRecord {
    fn clone(&self) -> (r: NodeRecord)
        ensures
            r@ == self@,
    {
        NodeRecord {
            id: self.id,
            status: self.status,
            last_heartbeat: self.last_heartbeat,
            capabilities: copy_strings(&self.capabilities),
        }
    }
}

/// What an agent sends when it registers.
#[derive(Debug)]
pub struct RegistrationRequest {
    pub node_id: NodeId,
    pub capabilities: Vec<String>,
}

/// What an agent sends with each heartbeat.
#[derive(Debug)]
pub struct HeartbeatPayload {
    pub node_id: NodeId,
    pub timestamp: Timestamp,
    pub service_statuses: Vec<ServiceHealthReport>,
}

} // verus!
