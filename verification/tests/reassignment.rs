use homeedge::controller_state::ControllerState;
use homeedge::ids::{NodeId, ServiceId};
use homeedge::node::{NodeRecord, NodeStatus};
use homeedge::reassignment::reassign_from_offline_nodes;
use homeedge::service::ServiceDefinition;

fn node_id(n: u128) -> NodeId {
    NodeId(n)
}

fn service_id(n: u128) -> ServiceId {
    ServiceId(n)
}

fn node(id: NodeId, status: NodeStatus) -> NodeRecord {
    NodeRecord { id, status, last_heartbeat: None, capabilities: vec!["docker".into()] }
}

#[test]
fn reassigns_services_from_offline_node_to_healthy_node() {
    let offline = node_id(1);
    let healthy = node_id(2);
    let svc = service_id(10);

    let mut state = ControllerState::default();
    state.nodes.insert(offline.0, node(offline, NodeStatus::Offline));
    state.nodes.insert(healthy.0, node(healthy, NodeStatus::Healthy));
    state.services.insert(svc.0, ServiceDefinition::new("lighting", "v1"));
    state.assignments.insert(offline.0, vec![svc]);

    let unscheduled = reassign_from_offline_nodes(&mut state);

    assert!(unscheduled.is_empty());
    assert_eq!(state.assignments.get(&offline.0), None);
    assert_eq!(state.assignments.get(&healthy.0), Some(&vec![svc]));
}

#[test]
fn keeps_service_unscheduled_when_no_healthy_node_exists() {
    let offline = node_id(1);
    let svc = service_id(10);

    let mut state = ControllerState::default();
    state.nodes.insert(offline.0, node(offline, NodeStatus::Offline));
    state.services.insert(svc.0, ServiceDefinition::new("lighting", "v1"));
    state.assignments.insert(offline.0, vec![svc]);

    let unscheduled = reassign_from_offline_nodes(&mut state);

    assert_eq!(unscheduled, vec![svc]);
    assert_eq!(state.assignments.get(&offline.0), None);
}

#[test]
fn ignores_offline_nodes_with_no_assignments() {
    let offline = node_id(1);
    let healthy = node_id(2);

    let mut state = ControllerState::default();
    state.nodes.insert(offline.0, node(offline, NodeStatus::Offline));
    state.nodes.insert(healthy.0, node(healthy, NodeStatus::Healthy));

    let unscheduled = reassign_from_offline_nodes(&mut state);

    assert!(unscheduled.is_empty());
    assert!(state.assignments.get(&healthy.0).is_none());
}

#[test]
fn reassign_is_idempotent_when_called_twice() {
    let offline = node_id(1);
    let healthy = node_id(2);
    let svc = service_id(10);

    let mut state = ControllerState::default();
    state.nodes.insert(offline.0, node(offline, NodeStatus::Offline));
    state.nodes.insert(healthy.0, node(healthy, NodeStatus::Healthy));
    state.services.insert(svc.0, ServiceDefinition::new("lighting", "v1"));
    state.assignments.insert(offline.0, vec![svc]);

    reassign_from_offline_nodes(&mut state);
    reassign_from_offline_nodes(&mut state);

    let assignments = state.assignments.get(&healthy.0).unwrap();
    assert_eq!(assignments.len(), 1);
}

#[test]
fn reassignment_goes_to_least_healthy_node_and_clears_observed() {
    let offline = node_id(7);
    let mut state = ControllerState::default();
    state.nodes.insert(offline.0, node(offline, NodeStatus::Offline));
    state.nodes.insert(3, node(node_id(3), NodeStatus::Healthy));
    state.nodes.insert(2, node(node_id(2), NodeStatus::Healthy));
    state.nodes.insert(1, node(node_id(1), NodeStatus::Registering));
    state.services.insert(10, ServiceDefinition::new("a", "v1"));
    state.services.insert(11, ServiceDefinition::new("b", "v1"));
    state.assignments.insert(offline.0, vec![service_id(11), service_id(10)]);
    state.assignments.insert(2, vec![service_id(10)]);
    state.observed.insert(offline.0, std::collections::HashMap::new());

    let unscheduled = state.reassign_from_offline_nodes();
    assert!(unscheduled.is_empty());
    assert_eq!(state.assignments.get(&2), Some(&vec![service_id(10), service_id(11)]));
    assert!(state.observed.get(&offline.0).is_none());
}
