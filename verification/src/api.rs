use vstd::prelude::*;

use crate::ids::{NodeId, ServiceId};
use crate::node::{HeartbeatPayload, NodeRecord, RegistrationRequest};
use crate::service::{ServiceDefinition, ServiceHealthReport};

verus! {

/// The body of a registration.
pub type RegisterRequest = RegistrationRequest;

/// The body of a heartbeat.
pub type HeartbeatRequest = HeartbeatPayload;

/// The services placed on one node.
#[derive(Debug)]
pub struct AssignmentsResponse {
    pub node_id: NodeId,
    pub service_ids: Vec<ServiceId>,
}

/// A node with the statuses it last reported.
#[derive(Debug)]
pub struct NodeView {
    pub node: NodeRecord,
    pub services: Vec<ServiceHealthReport>,
}

/// Every node with its reported statuses.
#[derive(Debug)]
pub struct NodesResponse {
    pub nodes: Vec<NodeView>,
}

/// The answer to a registration.
#[derive(Debug)]
pub struct RegisterResponse {
    pub node: NodeRecord,
}

/// The answer to a heartbeat.
#[derive(Debug)]
pub struct HeartbeatResponse {
    pub node: NodeRecord,
}

/// The body of a service definition.
#[derive(Debug)]
pub struct CreateServiceRequest {
    pub name: String,
    pub version: String,
    pub selector: Option<String>,
}

/// The answer to a service definition.
#[derive(Debug)]
pub struct CreateServiceResponse {
    pub service: ServiceDefinition,
}

/// Every defined service.
#[derive(Debug)]
pub struct ListServicesResponse {
    pub services: Vec<ServiceDefinition>,
}

/// The body of a manual placement.
#[derive(Debug)]
pub struct AssignServiceRequest {
    pub node_id: NodeId,
}

/// The body of a service update.
#[derive(Debug)]
pub struct UpdateServiceRequest {
    pub name: String,
    pub version: String,
    pub selector: Option<String>,
}

} // verus!
