use std::collections::HashMap;

use chrono::Utc;
use homeedge::assignment_engine::{assign_unassigned_services, AssignmentEngine};
use homeedge::ids::{NodeId, ServiceId};
use homeedge::node::{NodeRecord, NodeStatus};
use homeedge::service::ServiceDefinition;
use homeedge::time::Timestamp;

fn now() -> Timestamp {
    let t = Utc::now();
    Timestamp::new(t.timestamp(), t.timestamp_subsec_nanos())
}

fn healthy_node() -> NodeRecord {
    NodeRecord {
        id: NodeId::new(),
        status: NodeStatus::Healthy,
        last_heartbeat: Some(now()),
        capabilities: vec![],
    }
}

fn registering_node() -> NodeRecord {
    NodeRecord {
        id: NodeId::new(),
        status: NodeStatus::Registering,
        last_heartbeat: None,
        capabilities: vec![],
    }
}

fn service(name: &str) -> (ServiceId, ServiceDefinition) {
    let svc = ServiceDefinition::new(name, "v1");
    (svc.id, svc)
}

#[test]
fn assigns_unassigned_services_to_first_healthy_node() {
    let node_a = healthy_node();
    let node_b = healthy_node();

    let node_a_id = node_a.id;
    let node_b_id = node_b.id;

    let mut nodes = HashMap::new();
    nodes.insert(node_a_id.0, node_a);
    nodes.insert(node_b_id.0, node_b);

    let (svc1_id, svc1) = service("lighting");
    let (svc2_id, svc2) = service("hvac");

    let mut services = HashMap::new();
    services.insert(svc1_id.0, svc1);
    services.insert(svc2_id.0, svc2);

    let mut assignments: HashMap<u128, Vec<ServiceId>> = HashMap::new();

    assign_unassigned_services(&nodes, &services, &mut assignments);

    let expected_node = [node_a_id, node_b_id].iter().min_by_key(|id| id.0).copied().unwrap();

    let assigned_to_first = assignments.get(&expected_node.0).unwrap();
    assert_eq!(assigned_to_first.len(), 2);

    assert!(assigned_to_first.contains(&svc1_id));
    assert!(assigned_to_first.contains(&svc2_id));

    let total_assigned: usize = assignments.values().map(Vec::len).sum();
    assert_eq!(total_assigned, 2);
}

#[test]
fn does_not_assign_when_no_healthy_nodes_exist() {
    let node = registering_node();
    let node_id = node.id;

    let mut nodes = HashMap::new();
    nodes.insert(node_id.0, node);

    let (svc_id, svc) = service("lighting");
    let mut services = HashMap::new();
    services.insert(svc_id.0, svc);

    let mut assignments = HashMap::new();

    assign_unassigned_services(&nodes, &services, &mut assignments);

    assert!(assignments.is_empty());
}

#[test]
fn does_not_reassign_already_assigned_services() {
    let node_a = healthy_node();
    let node_b = healthy_node();

    let node_a_id = node_a.id;
    let node_b_id = node_b.id;

    let mut nodes = HashMap::new();
    nodes.insert(node_a_id.0, node_a);
    nodes.insert(node_b_id.0, node_b);

    let (svc_id, svc) = service("lighting");
    let mut services = HashMap::new();
    services.insert(svc_id.0, svc);

    let mut assignments = HashMap::new();
    assignments.insert(node_b_id.0, vec![svc_id]);

    assign_unassigned_services(&nodes, &services, &mut assignments);

    let total_assigned: usize = assignments.values().map(Vec::len).sum();
    assert_eq!(total_assigned, 1);
    assert_eq!(assignments.get(&node_b_id.0), Some(&vec![svc_id]));
}

#[test]
fn only_unassigned_services_are_placed() {
    let node = healthy_node();
    let node_id = node.id;

    let mut nodes = HashMap::new();
    nodes.insert(node_id.0, node);

    let (svc1_id, svc1) = service("lighting");
    let (svc2_id, svc2) = service("hvac");

    let mut services = HashMap::new();
    services.insert(svc1_id.0, svc1);
    services.insert(svc2_id.0, svc2);

    let mut assignments = HashMap::new();
    assignments.insert(node_id.0, vec![svc1_id]);

    assign_unassigned_services(&nodes, &services, &mut assignments);

    let assigned = assignments.get(&node_id.0).unwrap();
    assert_eq!(assigned.len(), 2);
    assert!(assigned.contains(&svc1_id));
    assert!(assigned.contains(&svc2_id));
}

#[test]
fn calling_engine_twice_is_idempotent() {
    let node = healthy_node();
    let node_id = node.id;
    let mut nodes = HashMap::new();
    nodes.insert(node_id.0, node);

    let (svc_id, svc) = service("lighting");
    let mut services = HashMap::new();
    services.insert(svc_id.0, svc);

    let mut assignments = HashMap::new();
    assign_unassigned_services(&nodes, &services, &mut assignments);
    assign_unassigned_services(&nodes, &services, &mut assignments);

    let total: usize = assignments.values().map(Vec::len).sum();
    assert_eq!(total, 1);
}

#[test]
fn placement_sorts_and_dedups_every_list() {
    let mut nodes = HashMap::new();
    nodes.insert(5u128, NodeRecord { id: NodeId(5), status: NodeStatus::Healthy, last_heartbeat: None, capabilities: vec![] });
    nodes.insert(9u128, NodeRecord { id: NodeId(9), status: NodeStatus::Offline, last_heartbeat: None, capabilities: vec![] });
    let mut services = HashMap::new();
    for n in [1u128, 2, 3, 4] {
        services.insert(n, ServiceDefinition::new("svc", "v1"));
    }
    let mut assignments = HashMap::new();
    assignments.insert(9u128, vec![ServiceId(3), ServiceId(1), ServiceId(3)]);

    AssignmentEngine::reconcile(&nodes, &services, &mut assignments);

    assert_eq!(assignments.get(&9), Some(&vec![ServiceId(1), ServiceId(3)]));
    assert_eq!(assignments.get(&5), Some(&vec![ServiceId(2), ServiceId(4)]));
}
