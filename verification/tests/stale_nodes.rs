use std::collections::HashMap;

use chrono::{DateTime, Duration as ChronoDuration, Utc};
use homeedge::controller_state::ControllerState;
use homeedge::ids::{NodeId, ServiceId};
use homeedge::node::{NodeRecord, NodeStatus};
use homeedge::stale_nodes::stale_node_ids;
use homeedge::time::{elapsed_since, Timestamp};

const SECOND_NANOS: u128 = 1_000_000_000;

fn node_id(n: u128) -> NodeId {
    NodeId(n)
}

fn stamp(dt: DateTime<Utc>) -> Timestamp {
    Timestamp::new(dt.timestamp(), dt.timestamp_subsec_nanos())
}

#[test]
fn stale_node_ids_returns_old_heartbeat_node() {
    let now = Utc::now();
    let id = node_id(1);

    let nodes = HashMap::from([(
        id.0,
        NodeRecord {
            id,
            status: NodeStatus::Healthy,
            last_heartbeat: Some(stamp(now - ChronoDuration::seconds(31))),
            capabilities: vec!["docker".into()],
        },
    )]);

    let stale = stale_node_ids(&nodes, stamp(now), 30 * SECOND_NANOS);

    assert_eq!(stale, vec![id]);
}

#[test]
fn stale_node_ids_ignores_recent_heartbeat() {
    let now = Utc::now();
    let id = node_id(2);

    let nodes = HashMap::from([(
        id.0,
        NodeRecord {
            id,
            status: NodeStatus::Healthy,
            last_heartbeat: Some(stamp(now - ChronoDuration::seconds(5))),
            capabilities: vec!["docker".into()],
        },
    )]);

    let stale = stale_node_ids(&nodes, stamp(now), 30 * SECOND_NANOS);

    assert!(stale.is_empty());
}

#[test]
fn stale_node_ids_ignores_already_offline_node() {
    let now = Utc::now();
    let id = node_id(3);

    let nodes = HashMap::from([(
        id.0,
        NodeRecord {
            id,
            status: NodeStatus::Offline,
            last_heartbeat: Some(stamp(now - ChronoDuration::seconds(60))),
            capabilities: vec![],
        },
    )]);

    let stale = stale_node_ids(&nodes, stamp(now), 30 * SECOND_NANOS);

    assert!(stale.is_empty());
}

#[test]
fn stale_node_ids_ignores_node_without_heartbeat_and_exact_timeout() {
    let now = Timestamp::new(1_000, 0);
    let nodes = HashMap::from([
        (1u128, NodeRecord { id: node_id(1), status: NodeStatus::Registering, last_heartbeat: None, capabilities: vec![] }),
        (2u128, NodeRecord { id: node_id(2), status: NodeStatus::Healthy, last_heartbeat: Some(Timestamp::new(970, 0)), capabilities: vec![] }),
        (3u128, NodeRecord { id: node_id(3), status: NodeStatus::Healthy, last_heartbeat: Some(Timestamp::new(969, 999_999_999)), capabilities: vec![] }),
    ]);
    let stale = stale_node_ids(&nodes, now, 30 * SECOND_NANOS);
    assert_eq!(stale, vec![node_id(3)]);
}

#[test]
fn elapsed_since_is_exact_and_clamped_at_zero() {
    assert_eq!(elapsed_since(Timestamp::new(10, 5), Timestamp::new(8, 7)), 1_999_999_998);
    assert_eq!(elapsed_since(Timestamp::new(8, 7), Timestamp::new(10, 5)), 0);
    assert_eq!(elapsed_since(Timestamp::new(-1, 0), Timestamp::new(-2, 500)), 999_999_500);
}

#[test]
fn a_fresh_heartbeat_is_not_stale_and_offline_is_never_stale() {
    let now = Timestamp::new(2_000, 0);
    let mut nodes = HashMap::new();
    nodes.insert(1u128, NodeRecord { id: node_id(1), status: NodeStatus::Offline, last_heartbeat: Some(Timestamp::new(0, 0)), capabilities: vec![] });
    nodes.insert(2u128, NodeRecord { id: node_id(2), status: NodeStatus::Healthy, last_heartbeat: Some(Timestamp::new(1_990, 0)), capabilities: vec![] });
    assert!(stale_node_ids(&nodes, now, 10 * SECOND_NANOS).is_empty());
}

#[test]
fn watch_tick_takes_stale_node_offline_and_moves_its_services() {
    let now = Utc::now();
    let stale = node_id(1);
    let fresh = node_id(2);
    let silent = node_id(3);
    let svc = ServiceId(10);

    let mut state = ControllerState::default();
    state.nodes.insert(
        stale.0,
        NodeRecord {
            id: stale,
            status: NodeStatus::Healthy,
            last_heartbeat: Some(stamp(now - ChronoDuration::seconds(31))),
            capabilities: vec!["docker".into()],
        },
    );
    state.nodes.insert(
        fresh.0,
        NodeRecord {
            id: fresh,
            status: NodeStatus::Healthy,
            last_heartbeat: Some(stamp(now - ChronoDuration::seconds(5))),
            capabilities: vec!["docker".into()],
        },
    );
    state.nodes.insert(
        silent.0,
        NodeRecord { id: silent, status: NodeStatus::Healthy, last_heartbeat: None, capabilities: vec![] },
    );
    state.assignments.insert(stale.0, vec![svc]);

    let (taken, unscheduled) = state.watch_tick(stamp(now), 30 * SECOND_NANOS);

    assert_eq!(taken, vec![stale]);
    assert!(unscheduled.is_empty());
    assert_eq!(state.nodes.get(&stale.0).unwrap().status, NodeStatus::Offline);
    assert_eq!(state.nodes.get(&fresh.0).unwrap().status, NodeStatus::Healthy);
    assert_eq!(state.nodes.get(&silent.0).unwrap().status, NodeStatus::Healthy);
    assert_eq!(state.assignments.get(&stale.0), None);
    assert_eq!(state.assignments.get(&fresh.0), Some(&vec![svc]));

    let (again, unscheduled_again) = state.watch_tick(stamp(now), 30 * SECOND_NANOS);
    assert!(again.is_empty());
    assert!(unscheduled_again.is_empty());
    assert_eq!(state.assignments.get(&fresh.0), Some(&vec![svc]));
}

#[test]
fn watch_tick_without_stale_nodes_changes_nothing() {
    let now = Utc::now();
    let offline = node_id(4);
    let svc = ServiceId(11);

    let mut state = ControllerState::default();
    state.nodes.insert(
        offline.0,
        NodeRecord { id: offline, status: NodeStatus::Offline, last_heartbeat: None, capabilities: vec![] },
    );
    state.assignments.insert(offline.0, vec![svc]);

    let (taken, unscheduled) = state.watch_tick(stamp(now), 30 * SECOND_NANOS);

    assert!(taken.is_empty());
    assert!(unscheduled.is_empty());
    assert_eq!(state.assignments.get(&offline.0), Some(&vec![svc]));
}
