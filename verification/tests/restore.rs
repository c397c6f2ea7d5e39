use homeedge::controller_state::ControllerState;
use homeedge::ids::{NodeId, ServiceId};
use homeedge::node::{NodeRecord, NodeStatus};
use homeedge::service::{ServiceAssignment, ServiceDefinition, ServiceHealthReport, ServiceStatus};

fn node(n: u128, status: NodeStatus) -> NodeRecord {
    NodeRecord { id: NodeId(n), status, last_heartbeat: None, capabilities: vec![] }
}

fn service(n: u128, name: &str) -> ServiceDefinition {
    let mut s = ServiceDefinition::new(name, "v1");
    s.id = ServiceId(n);
    s
}

fn asg(s: u128, n: u128) -> ServiceAssignment {
    ServiceAssignment { service_id: ServiceId(s), node_id: NodeId(n) }
}

#[test]
fn restored_state_groups_sorts_and_filters() {
    let state = ControllerState::from_records(
        vec![node(1, NodeStatus::Healthy), node(2, NodeStatus::Offline), node(1, NodeStatus::Offline)],
        vec![service(10, "a"), service(20, "b")],
        vec![asg(20, 1), asg(10, 1), asg(20, 1), asg(10, 3)],
        vec![
            (NodeId(1), vec![ServiceHealthReport { service_id: ServiceId(10), status: ServiceStatus::Running }]),
            (NodeId(2), vec![]),
            (NodeId(9), vec![ServiceHealthReport { service_id: ServiceId(10), status: ServiceStatus::Failed }]),
        ],
    );

    assert_eq!(state.nodes.len(), 2);
    assert_eq!(state.nodes.get(&1).unwrap().status, NodeStatus::Offline);
    assert_eq!(state.services.len(), 2);
    assert_eq!(state.assignments.get(&1), Some(&vec![ServiceId(10), ServiceId(20)]));
    assert_eq!(state.assignments.get(&3), Some(&vec![ServiceId(10)]));
    assert_eq!(state.assignments.len(), 2);
    assert_eq!(state.observed.len(), 1);
    assert_eq!(state.observed.get(&1).unwrap().get(&10), Some(&ServiceStatus::Running));
}

#[test]
fn nothing_stored_restores_an_empty_state() {
    let state = ControllerState::from_records(vec![], vec![], vec![], vec![]);
    assert!(state.nodes.is_empty() && state.services.is_empty());
    assert!(state.assignments.is_empty() && state.observed.is_empty());
}
