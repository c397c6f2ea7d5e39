use chrono::Utc;
use homeedge::api::{CreateServiceRequest, HeartbeatRequest, RegisterRequest, UpdateServiceRequest};
use homeedge::controller_state::ControllerState;
use homeedge::errors::AppError;
use homeedge::ids::{NodeId, ServiceId};
use homeedge::node::{NodeRecord, NodeStatus};
use homeedge::service::{ServiceDefinition, ServiceHealthReport, ServiceStatus};
use homeedge::time::Timestamp;

fn node_id(n: u128) -> NodeId {
    NodeId(n)
}

fn now() -> Timestamp {
    let t = Utc::now();
    Timestamp::new(t.timestamp(), t.timestamp_subsec_nanos())
}

fn create_request(name: &str, version: &str) -> CreateServiceRequest {
    CreateServiceRequest { name: name.to_string(), version: version.to_string(), selector: None }
}

#[test]
fn post_register_creates_node() {
    let mut state = ControllerState::default();
    let node = state.register_node(RegisterRequest { node_id: node_id(1), capabilities: vec!["docker".into()] });
    assert_eq!(node.id, node_id(1));
    assert_eq!(node.status, NodeStatus::Registering);
    assert_eq!(node.capabilities, vec!["docker"]);
}

#[test]
fn post_heartbeat_marks_registered_node_healthy() {
    let mut state = ControllerState::default();
    state.register_node(RegisterRequest { node_id: node_id(2), capabilities: vec!["mqtt".into()] });
    let ts = now();
    let node = state
        .record_heartbeat(HeartbeatRequest { node_id: node_id(2), timestamp: ts, service_statuses: vec![] })
        .unwrap();
    assert_eq!(node.id, node_id(2));
    assert_eq!(node.status, NodeStatus::Healthy);
    assert_eq!(node.last_heartbeat, Some(ts));
}

#[test]
fn post_heartbeat_for_unknown_node_returns_404() {
    let mut state = ControllerState::default();
    let err = state
        .record_heartbeat(HeartbeatRequest { node_id: node_id(999), timestamp: now(), service_statuses: vec![] })
        .unwrap_err();
    assert_eq!(err.status_code(), 404);
}

#[test]
fn get_assignments_for_registered_node_returns_empty_list() {
    let mut state = ControllerState::default();
    state.register_node(RegisterRequest { node_id: node_id(3), capabilities: vec![] });
    assert!(state.assignments_for(node_id(3)).unwrap().is_empty());
}

#[test]
fn get_assignments_for_unknown_node_returns_404() {
    let state = ControllerState::default();
    assert_eq!(state.assignments_for(node_id(99)).unwrap_err().status_code(), 404);
}

#[test]
fn get_nodes_returns_registered_nodes() {
    let mut state = ControllerState::default();
    for (id, capability) in [(10_u128, "docker"), (20_u128, "mqtt")] {
        state.register_node(RegisterRequest { node_id: node_id(id), capabilities: vec![capability.into()] });
    }
    let views = state.list_node_views();
    assert_eq!(views.len(), 2);
    assert_eq!(views[0].node.id, node_id(10));
    assert_eq!(views[1].node.id, node_id(20));
}

#[test]
fn get_assignments_returns_empty_vec_for_existing_node_with_no_assignments() {
    let id = NodeId::new();
    let mut state = ControllerState::default();
    state.nodes.insert(id.0, NodeRecord { id, status: NodeStatus::Healthy, last_heartbeat: None, capabilities: vec![] });
    assert!(state.assignments_for(id).unwrap().is_empty());
}

#[test]
fn get_assignments_returns_real_assignments_for_node() {
    let id = NodeId::new();
    let svc = ServiceDefinition::new("lighting", "v1");
    let service_id = svc.id;
    let mut state = ControllerState::default();
    state.nodes.insert(id.0, NodeRecord { id, status: NodeStatus::Healthy, last_heartbeat: None, capabilities: vec![] });
    state.services.insert(service_id.0, svc);
    state.assignments.insert(id.0, vec![service_id]);

    let result = state.assignments_for(id).unwrap();
    assert_eq!(result.len(), 1);
    assert_eq!(result[0].service_id, service_id);
    assert_eq!(result[0].node_id, id);
}

#[test]
fn get_assignments_returns_not_found_for_unknown_node() {
    let state = ControllerState::default();
    assert!(matches!(state.assignments_for(NodeId::new()), Err(AppError::NodeNotFound)));
}

#[test]
fn post_services_creates_service() {
    let mut state = ControllerState::default();
    let svc = state.create_service_from_request(create_request("lighting", "v1")).unwrap();
    assert_eq!(svc.name, "lighting");
    assert_eq!(svc.version, "v1");
}

#[test]
fn get_services_returns_created_service() {
    let mut state = ControllerState::default();
    state.create_service_from_request(create_request("lighting", "v1")).unwrap();
    let list = state.list_services();
    assert_eq!(list.len(), 1);
    assert_eq!(list[0].name, "lighting");
}

#[test]
fn post_services_rejects_empty_name() {
    let mut state = ControllerState::default();
    let err = state.create_service_from_request(create_request("", "v1")).unwrap_err();
    assert_eq!(err.status_code(), 400);
}

#[test]
fn post_services_returns_conflict_for_duplicate_name_and_version() {
    let mut state = ControllerState::default();
    state.create_service_from_request(create_request("lighting", "v1")).unwrap();
    let err = state.create_service_from_request(create_request("lighting", "v1")).unwrap_err();
    assert_eq!(err.status_code(), 409);
}

#[test]
fn creating_service_triggers_assignment_to_healthy_node() {
    let id = NodeId::new();
    let mut state = ControllerState::default();
    state.nodes.insert(id.0, NodeRecord { id, status: NodeStatus::Healthy, last_heartbeat: Some(now()), capabilities: vec![] });
    state.assignments.insert(id.0, vec![]);

    state.create_service_from_request(create_request("lighting", "v1")).unwrap();

    let assignments = state.assignments_for(id).unwrap();
    assert_eq!(assignments.len(), 1);
    assert_eq!(assignments[0].node_id, id);
}

#[test]
fn created_and_updated_services_are_trimmed() {
    let mut state = ControllerState::default();
    let svc = state
        .create_service_from_request(CreateServiceRequest {
            name: "  lighting ".to_string(),
            version: "\tv1".to_string(),
            selector: Some(" room=living ".to_string()),
        })
        .unwrap();
    assert_eq!(svc.name, "lighting");
    assert_eq!(svc.version, "v1");
    assert_eq!(svc.selector.as_deref(), Some("room=living"));

    let updated = state
        .update_service_from_request(
            svc.id,
            UpdateServiceRequest { name: " hvac ".to_string(), version: "v2".to_string(), selector: None },
        )
        .unwrap();
    assert_eq!(updated.name, "hvac");
    assert_eq!(state.get_service(svc.id).unwrap().version, "v2");
    assert!(matches!(
        state.update_service_from_request(
            ServiceId(1),
            UpdateServiceRequest { name: "x".to_string(), version: "y".to_string(), selector: None }
        ),
        Err(AppError::ServiceNotFound)
    ));
}

#[test]
fn services_are_listed_by_name_then_version_then_identity() {
    let mut state = ControllerState::default();
    let entries = [(3u128, "b", "v1"), (1, "a", "v2"), (2, "a", "v1"), (5, "a", "v1"), (4, "a", "v10")];
    for (id, name, version) in entries {
        let mut svc = ServiceDefinition::new(name, version);
        svc.id = ServiceId(id);
        state.services.insert(id, svc);
    }
    let order: Vec<u128> = state.list_services().iter().map(|s| s.id.0).collect();
    assert_eq!(order, vec![2, 5, 4, 1, 3]);
}

#[test]
fn observed_services_reports_what_the_node_sent() {
    let mut state = ControllerState::default();
    state.register_node(RegisterRequest { node_id: node_id(1), capabilities: vec![] });
    assert!(state.observed_services(node_id(1)).is_empty());
    state
        .record_heartbeat(HeartbeatRequest {
            node_id: node_id(1),
            timestamp: now(),
            service_statuses: vec![ServiceHealthReport { service_id: ServiceId(4), status: ServiceStatus::Running }],
        })
        .unwrap();
    let reports = state.observed_services(node_id(1));
    assert_eq!(reports.len(), 1);
    assert_eq!(reports[0].service_id, ServiceId(4));
    assert_eq!(reports[0].status, ServiceStatus::Running);
}
