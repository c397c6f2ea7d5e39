use chrono::{DateTime, Utc};
use homeedge::api::{HeartbeatRequest, RegisterRequest};
use homeedge::controller_state::ControllerState;
use homeedge::errors::AppError;
use homeedge::ids::{NodeId, ServiceId};
use homeedge::node::NodeStatus;
use homeedge::service::{ServiceAssignment, ServiceDefinition, ServiceHealthReport, ServiceStatus};
use homeedge::time::Timestamp;

fn node_id(n: u128) -> NodeId {
    NodeId(n)
}

fn service_id(n: u128) -> ServiceId {
    ServiceId(n)
}

fn stamp(dt: DateTime<Utc>) -> Timestamp {
    Timestamp::new(dt.timestamp(), dt.timestamp_subsec_nanos())
}

#[test]
fn register_node_creates_new_registering_node() {
    let mut state = ControllerState::default();
    let id = node_id(1);

    let node = state.register_node(RegisterRequest {
        node_id: id,
        capabilities: vec!["docker".into(), "mqtt".into()],
    });

    assert_eq!(node.id, id);
    assert_eq!(node.status, NodeStatus::Registering);
    assert_eq!(node.last_heartbeat, None);
    assert_eq!(node.capabilities, vec!["docker", "mqtt"]);

    let stored = state.nodes.get(&id.0).unwrap();
    assert_eq!(stored.status, NodeStatus::Registering);

    let assignments = state.assignments.get(&id.0).unwrap();
    assert!(assignments.is_empty());
}

#[test]
fn register_node_updates_existing_node_capabilities() {
    let mut state = ControllerState::default();
    let id = node_id(2);

    state.register_node(RegisterRequest {
        node_id: id,
        capabilities: vec!["docker".into()],
    });

    let node = state.register_node(RegisterRequest {
        node_id: id,
        capabilities: vec!["zigbee".into(), "ble".into()],
    });

    assert_eq!(node.id, id);
    assert_eq!(node.status, NodeStatus::Registering);
    assert_eq!(node.capabilities, vec!["zigbee", "ble"]);

    let stored = state.nodes.get(&id.0).unwrap();
    assert_eq!(stored.capabilities, vec!["zigbee", "ble"]);
}

#[test]
fn record_heartbeat_marks_node_healthy() {
    let mut state = ControllerState::default();
    let id = node_id(3);

    state.register_node(RegisterRequest {
        node_id: id,
        capabilities: vec!["docker".into()],
    });

    let ts = stamp(Utc::now());

    let node = state
        .record_heartbeat(HeartbeatRequest {
            node_id: id,
            timestamp: ts,
            service_statuses: vec![],
        })
        .unwrap();

    assert_eq!(node.status, NodeStatus::Healthy);
    assert_eq!(node.last_heartbeat, Some(ts));

    let stored = state.nodes.get(&id.0).unwrap();
    assert_eq!(stored.status, NodeStatus::Healthy);
    assert_eq!(stored.last_heartbeat, Some(ts));
}

#[test]
fn record_heartbeat_fails_for_unknown_node() {
    let mut state = ControllerState::default();

    let result = state.record_heartbeat(HeartbeatRequest {
        node_id: node_id(999),
        timestamp: stamp(Utc::now()),
        service_statuses: vec![],
    });

    assert!(result.is_err());
}

#[test]
fn assignments_for_known_node_without_assignments_returns_empty_vec() {
    let mut state = ControllerState::default();
    let id = node_id(4);

    state.register_node(RegisterRequest {
        node_id: id,
        capabilities: vec![],
    });

    let assignments = state.assignments_for(id).unwrap();
    assert!(assignments.is_empty());
}

#[test]
fn assignments_for_unknown_node_returns_error() {
    let state = ControllerState::default();

    let result = state.assignments_for(node_id(404));
    assert!(result.is_err());
}

#[test]
fn list_nodes_returns_sorted_nodes() {
    let mut state = ControllerState::default();

    let id_b = node_id(20);
    let id_a = node_id(10);

    state.register_node(RegisterRequest {
        node_id: id_b,
        capabilities: vec!["b".into()],
    });

    state.register_node(RegisterRequest {
        node_id: id_a,
        capabilities: vec!["a".into()],
    });

    let nodes = state.list_nodes();

    assert_eq!(nodes.len(), 2);
    assert_eq!(nodes[0].id, id_a);
    assert_eq!(nodes[1].id, id_b);
}

#[test]
fn assignments_for_returns_existing_assignments() {
    let mut state = ControllerState::default();
    let id = node_id(5);

    state.register_node(RegisterRequest {
        node_id: id,
        capabilities: vec![],
    });

    let s1 = service_id(100);
    let s2 = service_id(200);

    state.services.insert(s1.0, ServiceDefinition::new("svc1", "v1"));
    state.services.insert(s2.0, ServiceDefinition::new("svc2", "v1"));
    state.assignments.insert(id.0, vec![s1, s2]);

    let assignments = state.assignments_for(id).unwrap();
    assert_eq!(
        assignments,
        vec![
            ServiceAssignment { service_id: s1, node_id: id },
            ServiceAssignment { service_id: s2, node_id: id },
        ]
    );
}

#[test]
fn assignments_for_filters_out_stale_service_ids() {
    let mut state = ControllerState::default();
    let id = node_id(6);

    state.register_node(RegisterRequest {
        node_id: id,
        capabilities: vec![],
    });

    let valid = service_id(100);
    let stale = service_id(200);

    state.services.insert(valid.0, ServiceDefinition::new("svc1", "v1"));
    state.assignments.insert(id.0, vec![valid, stale]);

    let assignments = state.assignments_for(id).unwrap();
    assert_eq!(assignments, vec![ServiceAssignment { service_id: valid, node_id: id }]);
}

#[test]
fn record_heartbeat_updates_timestamp_on_previously_offline_node_with_stale_time() {
    let mut state = ControllerState::default();
    let id = node_id(43);

    state.register_node(RegisterRequest {
        node_id: id,
        capabilities: vec![],
    });

    let stale_ts = stamp(Utc::now() - chrono::Duration::seconds(120));
    {
        let node = state.nodes.get_mut(&id.0).unwrap();
        node.status = NodeStatus::Offline;
        node.last_heartbeat = Some(stale_ts);
    }

    let fresh_ts = stamp(Utc::now());
    let node = state
        .record_heartbeat(HeartbeatRequest {
            node_id: id,
            timestamp: fresh_ts,
            service_statuses: vec![],
        })
        .unwrap();

    assert_eq!(node.status, NodeStatus::Healthy);
    assert_eq!(node.last_heartbeat, Some(fresh_ts));
    assert_ne!(node.last_heartbeat, Some(stale_ts));
}

#[test]
fn record_heartbeat_recovers_offline_node_and_updates_timestamp() {
    let mut state = ControllerState::default();
    let id = node_id(42);

    state.register_node(RegisterRequest {
        node_id: id,
        capabilities: vec!["docker".into()],
    });

    {
        let node = state.nodes.get_mut(&id.0).unwrap();
        node.status = NodeStatus::Offline;
        node.last_heartbeat = None;
    }

    let ts = stamp(Utc::now());

    let node = state
        .record_heartbeat(HeartbeatRequest {
            node_id: id,
            timestamp: ts,
            service_statuses: vec![],
        })
        .unwrap();

    assert_eq!(node.status, NodeStatus::Healthy);
    assert_eq!(node.last_heartbeat, Some(ts));
}

#[test]
fn record_heartbeat_replaces_observed_statuses_of_the_node() {
    let mut state = ControllerState::default();
    let id = node_id(7);
    state.register_node(RegisterRequest { node_id: id, capabilities: vec![] });

    let ts = Timestamp::new(1_700_000_000, 5);
    state
        .record_heartbeat(HeartbeatRequest {
            node_id: id,
            timestamp: ts,
            service_statuses: vec![
                ServiceHealthReport { service_id: service_id(1), status: ServiceStatus::Starting },
                ServiceHealthReport { service_id: service_id(2), status: ServiceStatus::Running },
                ServiceHealthReport { service_id: service_id(1), status: ServiceStatus::Failed },
            ],
        })
        .unwrap();

    let observed = state.observed.get(&id.0).unwrap();
    assert_eq!(observed.len(), 2);
    assert_eq!(observed.get(&1), Some(&ServiceStatus::Failed));
    assert_eq!(observed.get(&2), Some(&ServiceStatus::Running));
}

#[test]
fn assign_service_moves_service_to_the_named_node() {
    let mut state = ControllerState::default();
    let a = node_id(1);
    let b = node_id(2);
    state.register_node(RegisterRequest { node_id: a, capabilities: vec![] });
    state.register_node(RegisterRequest { node_id: b, capabilities: vec![] });
    let sid = service_id(10);
    state.services.insert(sid.0, ServiceDefinition::new("lighting", "v1"));
    state.assignments.insert(a.0, vec![sid]);

    let assignment = state.assign_service(sid, b).unwrap();
    assert_eq!(assignment, ServiceAssignment { service_id: sid, node_id: b });
    assert_eq!(state.assignments.get(&a.0), Some(&vec![]));
    assert_eq!(state.assignments.get(&b.0), Some(&vec![sid]));
}

#[test]
fn assign_service_rejects_unknown_service_and_node() {
    let mut state = ControllerState::default();
    let a = node_id(1);
    state.register_node(RegisterRequest { node_id: a, capabilities: vec![] });
    let sid = service_id(10);

    assert!(matches!(state.assign_service(sid, a), Err(AppError::ServiceNotFound)));

    state.services.insert(sid.0, ServiceDefinition::new("lighting", "v1"));
    assert!(matches!(state.assign_service(sid, node_id(9)), Err(AppError::NodeNotFound)));
}

#[test]
fn create_service_rejects_blank_name_and_duplicate() {
    let mut state = ControllerState::default();
    let blank = state.create_service("   ".to_string(), "v1".to_string(), None);
    assert!(matches!(blank, Err(AppError::BadRequest(ref m)) if m == "name must not be empty"));

    let first = state.create_service("lighting".to_string(), "v1".to_string(), None).unwrap();
    assert_eq!(first.name, "lighting");
    let second = state.create_service("lighting".to_string(), "v1".to_string(), None);
    assert!(matches!(second, Err(AppError::Conflict(ref m)) if m == "service 'lighting' version 'v1' already exists"));
}

#[test]
fn delete_service_removes_it_from_every_list() {
    let mut state = ControllerState::default();
    let a = node_id(1);
    state.register_node(RegisterRequest { node_id: a, capabilities: vec![] });
    let svc = state.create_service("lighting".to_string(), "v1".to_string(), None).unwrap();
    state.assignments.insert(a.0, vec![svc.id]);

    state.delete_service(svc.id).unwrap();
    assert!(state.services.is_empty());
    assert_eq!(state.assignments.get(&a.0), Some(&vec![]));
    assert!(matches!(state.delete_service(svc.id), Err(AppError::ServiceNotFound)));
}

#[test]
fn mark_node_offline_sets_offline_or_fails_for_unknown() {
    let mut state = ControllerState::default();
    let a = node_id(1);
    state.register_node(RegisterRequest { node_id: a, capabilities: vec![] });

    state.mark_node_offline(a).unwrap();
    assert_eq!(state.nodes.get(&a.0).unwrap().status, NodeStatus::Offline);
    assert!(matches!(state.mark_node_offline(node_id(2)), Err(AppError::NodeNotFound)));
}

#[test]
fn list_assignments_orders_by_node_then_service() {
    let mut state = ControllerState::default();
    let a = node_id(2);
    let b = node_id(1);
    state.register_node(RegisterRequest { node_id: a, capabilities: vec![] });
    state.register_node(RegisterRequest { node_id: b, capabilities: vec![] });
    for n in [10u128, 20, 30] {
        state.services.insert(n, ServiceDefinition::new("svc", "v1"));
    }
    state.assignments.insert(a.0, vec![service_id(20), service_id(10)]);
    state.assignments.insert(b.0, vec![service_id(30), service_id(99)]);

    let all = state.list_assignments();
    assert_eq!(
        all,
        vec![
            ServiceAssignment { service_id: service_id(30), node_id: b },
            ServiceAssignment { service_id: service_id(10), node_id: a },
            ServiceAssignment { service_id: service_id(20), node_id: a },
        ]
    );
}

#[test]
fn unassign_service_removes_it_from_every_list_and_keeps_others() {
    let mut state = ControllerState::default();
    state.assignments.insert(1, vec![service_id(5), service_id(6), service_id(5)]);
    state.assignments.insert(2, vec![service_id(5)]);
    state.unassign_service(service_id(5)).unwrap();
    assert_eq!(state.assignments.get(&1), Some(&vec![service_id(6)]));
    assert_eq!(state.assignments.get(&2), Some(&vec![]));
}

#[test]
fn reassigning_a_service_keeps_it_on_one_node_once() {
    let mut state = ControllerState::default();
    for n in [1u128, 2] {
        state.register_node(RegisterRequest { node_id: node_id(n), capabilities: vec![] });
    }
    state.services.insert(9, ServiceDefinition::new("svc", "v1"));
    state.assign_service(service_id(9), node_id(1)).unwrap();
    state.assign_service(service_id(9), node_id(2)).unwrap();
    state.assign_service(service_id(9), node_id(2)).unwrap();
    assert_eq!(state.assignments.get(&1), Some(&vec![]));
    assert_eq!(state.assignments.get(&2), Some(&vec![service_id(9)]));
}
