use std::time::Duration;

use homeedge::ids::ServiceId;
use homeedge::service::{ServiceDefinition, ServiceStatus};
use homeedge::service_runtime::{ServiceInstance, ServiceManager};
use tokio::runtime::Runtime;
use tokio::task::JoinHandle;

fn svc(name: &str) -> ServiceDefinition {
    ServiceDefinition::new(name, "v1")
}

fn runtime() -> Runtime {
    Runtime::new().unwrap()
}

fn long_running(rt: &Runtime) -> JoinHandle<()> {
    rt.spawn(async {
        loop {
            tokio::time::sleep(Duration::from_secs(10)).await;
        }
    })
}

#[test]
fn start_registers_running_instance() {
    let rt = runtime();
    let mut manager = ServiceManager::new();
    let service = svc("lighting");

    manager.start(&service, || long_running(&rt)).unwrap();

    assert_eq!(manager.len(), 1);
    assert_eq!(manager.status(&service.id), Some(ServiceStatus::Running));

    manager.stop_all();
}

#[test]
fn start_is_idempotent_for_same_service() {
    let rt = runtime();
    let mut manager = ServiceManager::new();
    let service = svc("lighting");

    manager.start(&service, || long_running(&rt)).unwrap();
    let mut spawned_again = false;
    manager
        .start(&service, || {
            spawned_again = true;
            long_running(&rt)
        })
        .unwrap();

    assert!(!spawned_again);
    assert_eq!(manager.len(), 1);
    assert_eq!(manager.status(&service.id), Some(ServiceStatus::Running));

    manager.stop_all();
}

#[test]
fn stop_removes_instance() {
    let rt = runtime();
    let mut manager = ServiceManager::new();
    let service = svc("lighting");

    manager.start(&service, || long_running(&rt)).unwrap();
    manager.stop(&service.id).unwrap();

    assert!(manager.is_empty());
    assert_eq!(manager.status(&service.id), None);
}

#[test]
fn stop_is_idempotent_for_missing_service() {
    let mut manager = ServiceManager::new();
    let service = svc("lighting");

    manager.stop(&service.id).unwrap();

    assert!(manager.is_empty());
}

#[test]
fn running_ids_returns_all_started_services() {
    let rt = runtime();
    let mut manager = ServiceManager::new();
    let lighting = svc("lighting");
    let hvac = svc("hvac");

    manager.start(&lighting, || long_running(&rt)).unwrap();
    manager.start(&hvac, || long_running(&rt)).unwrap();

    let running = manager.running_ids();

    assert_eq!(running.len(), 2);
    assert!(running.contains(&lighting.id.0));
    assert!(running.contains(&hvac.id.0));

    manager.stop_all();
}

#[test]
fn stop_all_clears_all_instances() {
    let rt = runtime();
    let mut manager = ServiceManager::new();
    manager.start(&svc("lighting"), || long_running(&rt)).unwrap();
    manager.start(&svc("hvac"), || long_running(&rt)).unwrap();
    manager.stop_all();
    assert!(manager.is_empty());
}

#[test]
fn refresh_status_marks_finished_task_as_failed() {
    let rt = runtime();
    let finished_handle = rt.spawn(async {});
    rt.block_on(async { tokio::time::sleep(Duration::from_millis(10)).await });

    let mut instance = ServiceInstance::running(svc("lighting"), finished_handle);
    instance.refresh_status();

    assert_eq!(instance.status, ServiceStatus::Failed);
    assert!(instance.task.is_none());
}

#[test]
fn assigned_instance_has_no_task() {
    let instance = ServiceInstance::assigned(svc("lighting"));
    assert_eq!(instance.status, ServiceStatus::Assigned);
    assert!(instance.task.is_none());
}

#[test]
fn simulated_worker_can_be_spawned_and_aborted() {
    let rt = runtime();
    let handle = long_running(&rt);
    rt.block_on(async { tokio::time::sleep(Duration::from_millis(50)).await });
    assert!(!handle.is_finished());
    handle.abort();
}

#[test]
fn settle_fails_only_a_running_instance_with_a_finished_task() {
    let rt = runtime();
    let mut running = ServiceInstance::running(svc("a"), long_running(&rt));
    running.settle(false);
    assert_eq!(running.status, ServiceStatus::Running);
    assert!(running.task.is_some());
    running.settle(true);
    assert_eq!(running.status, ServiceStatus::Failed);
    assert!(running.task.is_none());

    let mut starting = ServiceInstance::starting(svc("b"));
    starting.settle(true);
    assert_eq!(starting.status, ServiceStatus::Starting);

    let mut failed = ServiceInstance::failed(svc("c"));
    failed.settle(true);
    assert_eq!(failed.status, ServiceStatus::Failed);
}

#[test]
fn snapshot_lists_statuses_in_identity_order_and_reports_failures() {
    let rt = runtime();
    let mut manager = ServiceManager::new();
    let mut a = svc("a");
    a.id = ServiceId(30);
    let mut b = svc("b");
    b.id = ServiceId(10);
    manager.start(&a, || long_running(&rt)).unwrap();
    manager.start(&b, || rt.spawn(async {})).unwrap();
    rt.block_on(async { tokio::time::sleep(Duration::from_millis(20)).await });

    let snapshot = manager.snapshot_statuses();
    assert_eq!(snapshot, vec![(ServiceId(10), ServiceStatus::Failed), (ServiceId(30), ServiceStatus::Running)]);
    let running = manager.running_ids();
    assert_eq!(running.len(), 1);
    assert!(running.contains(&30));
    manager.stop_all();
}

#[test]
fn start_all_and_stop_each_follow_their_lists() {
    let rt = runtime();
    let mut manager = ServiceManager::default();
    let defs = vec![svc("a"), svc("b"), svc("c")];
    manager.start_all(&defs, |_d| long_running(&rt));
    assert_eq!(manager.len(), 3);
    manager.stop_each(&vec![defs[0].id, defs[2].id, ServiceId(1)]);
    assert_eq!(manager.len(), 1);
    assert_eq!(manager.status(&defs[1].id), Some(ServiceStatus::Running));
    manager.stop_all();
}
