use std::collections::{HashMap, HashSet};
use std::time::Duration;

use homeedge::agent_state::AgentAppState;
use homeedge::ids::{NodeId, ServiceId};
use homeedge::reconcile::{desired_service_ids, diff, plan_reconcile};
use homeedge::service::{ServiceAssignment, ServiceDefinition, ServiceStatus};
use homeedge::service_runtime::ServiceManager;
use tokio::runtime::Runtime;
use tokio::task::JoinHandle;

fn long_running(rt: &Runtime) -> JoinHandle<()> {
    rt.spawn(async {
        loop {
            tokio::time::sleep(Duration::from_secs(10)).await;
        }
    })
}

fn make_service() -> ServiceDefinition {
    ServiceDefinition::new("lighting", "v1")
}

#[test]
fn diff_empty_desired_and_local_is_noop() {
    let (to_start, to_stop) = diff(&HashSet::new(), &HashSet::new());
    assert!(to_start.is_empty());
    assert!(to_stop.is_empty());
}

#[test]
fn diff_desired_has_new_service_produces_start() {
    let svc_id = ServiceId::new();
    let desired: HashSet<u128> = [svc_id.0].into();
    let local: HashSet<u128> = HashSet::new();

    let (to_start, to_stop) = diff(&desired, &local);
    assert_eq!(to_start, vec![svc_id]);
    assert!(to_stop.is_empty());
}

#[test]
fn diff_local_has_extra_service_produces_stop() {
    let svc_id = ServiceId::new();
    let desired: HashSet<u128> = HashSet::new();
    let local: HashSet<u128> = [svc_id.0].into();

    let (to_start, to_stop) = diff(&desired, &local);
    assert!(to_start.is_empty());
    assert_eq!(to_stop, vec![svc_id]);
}

#[test]
fn diff_same_desired_and_local_is_noop() {
    let svc_id = ServiceId::new();
    let desired: HashSet<u128> = [svc_id.0].into();
    let local: HashSet<u128> = [svc_id.0].into();

    let (to_start, to_stop) = diff(&desired, &local);
    assert!(to_start.is_empty());
    assert!(to_stop.is_empty());
}

#[test]
fn diff_lists_are_sorted_and_disjoint() {
    let desired: HashSet<u128> = [5, 1, 9, 3].into();
    let local: HashSet<u128> = [3, 7, 2].into();
    let (to_start, to_stop) = diff(&desired, &local);
    assert_eq!(to_start, vec![ServiceId(1), ServiceId(5), ServiceId(9)]);
    assert_eq!(to_stop, vec![ServiceId(2), ServiceId(7)]);
}

#[test]
fn plan_skips_missing_definitions() {
    let node = NodeId(1);
    let known = make_service();
    let unknown = ServiceId(u128::MAX);
    let assignments = vec![
        ServiceAssignment { service_id: unknown, node_id: node },
        ServiceAssignment { service_id: known.id, node_id: node },
    ];
    let mut services = HashMap::new();
    services.insert(known.id.0, known.clone());
    let running: HashSet<u128> = [42].into();
    let plan = plan_reconcile(&assignments, &services, &running);
    assert_eq!(plan.to_start, vec![known]);
    assert_eq!(plan.missing, vec![unknown]);
    assert_eq!(plan.to_stop, vec![ServiceId(42)]);
    assert_eq!(desired_service_ids(&assignments).len(), 2);
}

fn reconcile_once(
    rt: &Runtime,
    state: &mut AgentAppState,
    manager: &mut ServiceManager,
    assignments: Vec<ServiceAssignment>,
    services: Vec<ServiceDefinition>,
    fetches: &mut usize,
) {
    if state.assignments_changed(&assignments) {
        *fetches += 1;
        state.adopt(assignments, services);
    }
    state.reconcile_services(manager, |_d| long_running(rt));
}

#[test]
fn reconcile_once_starts_assigned_service() {
    let rt = Runtime::new().unwrap();
    let node_id = NodeId::new();
    let svc = make_service();
    let svc_id = svc.id;
    let mut state = AgentAppState::new(node_id);
    let mut manager = ServiceManager::new();
    let mut fetches = 0;

    reconcile_once(
        &rt,
        &mut state,
        &mut manager,
        vec![ServiceAssignment { service_id: svc_id, node_id }],
        vec![svc],
        &mut fetches,
    );

    assert_eq!(manager.len(), 1);
    manager.stop_all();
}

#[test]
fn reconcile_once_stops_service_no_longer_desired() {
    let rt = Runtime::new().unwrap();
    let node_id = NodeId::new();
    let svc = make_service();
    let mut state = AgentAppState::new(node_id);
    let mut manager = ServiceManager::new();
    manager.start(&svc, || long_running(&rt)).unwrap();
    assert_eq!(manager.len(), 1);
    let mut fetches = 0;

    reconcile_once(&rt, &mut state, &mut manager, vec![], vec![], &mut fetches);

    assert!(manager.is_empty());
}

#[test]
fn reconcile_once_is_idempotent_when_assignments_unchanged() {
    let rt = Runtime::new().unwrap();
    let node_id = NodeId::new();
    let svc = make_service();
    let svc_id = svc.id;
    let assignments = vec![ServiceAssignment { service_id: svc_id, node_id }];
    let mut state = AgentAppState::new(node_id);
    let mut manager = ServiceManager::new();
    let mut fetches = 0;

    reconcile_once(&rt, &mut state, &mut manager, assignments.clone(), vec![svc.clone()], &mut fetches);
    assert_eq!(manager.len(), 1);

    reconcile_once(&rt, &mut state, &mut manager, assignments, vec![svc], &mut fetches);
    assert_eq!(manager.len(), 1);
    assert_eq!(fetches, 1);

    manager.stop_all();
}

#[test]
fn reconcile_once_skips_service_with_missing_definition() {
    let rt = Runtime::new().unwrap();
    let node_id = NodeId::new();
    let svc_id = ServiceId::new();
    let mut state = AgentAppState::new(node_id);
    let mut manager = ServiceManager::new();
    let mut fetches = 0;

    reconcile_once(
        &rt,
        &mut state,
        &mut manager,
        vec![ServiceAssignment { service_id: svc_id, node_id }],
        vec![],
        &mut fetches,
    );

    assert!(manager.is_empty());
}

#[test]
fn reconcile_once_publishes_observed_statuses() {
    let rt = Runtime::new().unwrap();
    let node_id = NodeId::new();
    let svc = make_service();
    let svc_id = svc.id;
    let mut state = AgentAppState::new(node_id);
    let mut manager = ServiceManager::new();
    let mut fetches = 0;

    reconcile_once(
        &rt,
        &mut state,
        &mut manager,
        vec![ServiceAssignment { service_id: svc_id, node_id }],
        vec![svc],
        &mut fetches,
    );

    assert_eq!(state.observed_statuses.get(&svc_id.0).copied(), Some(ServiceStatus::Running));
    let payload = state.heartbeat_payload();
    assert_eq!(payload.service_statuses, vec![(svc_id, ServiceStatus::Running)]);
    manager.stop_all();
}

#[test]
fn reconcile_stops_service_when_assignment_is_removed() {
    let rt = Runtime::new().unwrap();
    let node_id = NodeId::new();
    let svc = make_service();
    let svc_id = svc.id;
    let mut state = AgentAppState::new(node_id);
    let mut manager = ServiceManager::new();
    manager.start(&svc, || long_running(&rt)).unwrap();
    assert_eq!(manager.len(), 1);
    let mut fetches = 0;

    reconcile_once(&rt, &mut state, &mut manager, vec![], vec![], &mut fetches);

    assert!(manager.is_empty());
    assert_eq!(manager.status(&svc_id), None);
}

#[test]
fn reconcile_starts_service_when_assignment_is_added() {
    let rt = Runtime::new().unwrap();
    let node_id = NodeId::new();
    let svc = make_service();
    let svc_id = svc.id;
    let mut state = AgentAppState::new(node_id);
    let mut manager = ServiceManager::new();
    assert!(manager.is_empty());
    let mut fetches = 0;

    reconcile_once(
        &rt,
        &mut state,
        &mut manager,
        vec![ServiceAssignment { service_id: svc_id, node_id }],
        vec![svc],
        &mut fetches,
    );

    assert_eq!(manager.len(), 1);
    assert_eq!(manager.status(&svc_id), Some(ServiceStatus::Running));
    manager.stop_all();
}

#[test]
fn apply_assignments_reports_changes_only() {
    let node_id = NodeId(3);
    let mut state = AgentAppState::new(node_id);
    let a = vec![ServiceAssignment { service_id: ServiceId(1), node_id }];
    assert!(state.apply_assignments(a.clone()));
    assert!(!state.apply_assignments(a.clone()));
    assert!(state.apply_assignments(vec![]));
    assert!(state.desired.is_empty());
}

#[test]
fn adopt_keeps_the_last_definition_of_an_identity() {
    let mut state = AgentAppState::new(NodeId(1));
    let first = make_service();
    let mut second = ServiceDefinition::new("lighting", "v2");
    second.id = first.id;
    state.adopt(vec![], vec![first, second]);
    assert_eq!(state.services.len(), 1);
    assert_eq!(state.services.values().next().unwrap().version, "v2");
}
