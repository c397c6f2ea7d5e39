use chrono::Utc;
use homeedge::ids::NodeId;
use homeedge::node::{NodeRecord, NodeStatus};
use homeedge::node_registry::{mark_offline, on_heartbeat, on_register};
use homeedge::time::Timestamp;

fn now() -> Timestamp {
    let t = Utc::now();
    Timestamp::new(t.timestamp(), t.timestamp_subsec_nanos())
}

fn sample_node(status: NodeStatus) -> NodeRecord {
    NodeRecord {
        id: NodeId::new(),
        status,
        last_heartbeat: None,
        capabilities: vec!["docker".into()],
    }
}

#[test]
fn register_unknown_node_sets_registering() {
    let incoming = sample_node(NodeStatus::Healthy);

    let updated = on_register(None, incoming);

    assert_eq!(updated.status, NodeStatus::Registering);
    assert!(updated.last_heartbeat.is_none());
}

#[test]
fn register_existing_node_resets_to_registering_and_preserves_last_heartbeat() {
    let mut existing = sample_node(NodeStatus::Healthy);
    let ts = now();
    existing.last_heartbeat = Some(ts);

    let mut incoming = sample_node(NodeStatus::Offline);
    incoming.id = existing.id;

    let updated = on_register(Some(&existing), incoming);

    assert_eq!(updated.status, NodeStatus::Registering);
    assert_eq!(updated.last_heartbeat, Some(ts));
}

#[test]
fn heartbeat_moves_registering_to_healthy() {
    let ts = now();
    let mut node = sample_node(NodeStatus::Registering);

    on_heartbeat(&mut node, ts);

    assert_eq!(node.status, NodeStatus::Healthy);
    assert_eq!(node.last_heartbeat, Some(ts));
}

#[test]
fn heartbeat_keeps_healthy_as_healthy_and_updates_timestamp() {
    let ts = now();
    let mut node = sample_node(NodeStatus::Healthy);

    on_heartbeat(&mut node, ts);

    assert_eq!(node.status, NodeStatus::Healthy);
    assert_eq!(node.last_heartbeat, Some(ts));
}

#[test]
fn heartbeat_recovers_offline_node_to_healthy() {
    let ts = now();
    let mut node = sample_node(NodeStatus::Offline);
    on_heartbeat(&mut node, ts);
    assert_eq!(node.status, NodeStatus::Healthy);
    assert_eq!(node.last_heartbeat, Some(ts));
}

#[test]
fn mark_offline_sets_status_offline() {
    let mut node = sample_node(NodeStatus::Healthy);

    mark_offline(&mut node);

    assert_eq!(node.status, NodeStatus::Offline);
}

#[test]
fn register_keeps_incoming_capabilities_and_identity() {
    let existing = sample_node(NodeStatus::Offline);
    let incoming = NodeRecord {
        id: existing.id,
        status: NodeStatus::Healthy,
        last_heartbeat: Some(Timestamp::new(5, 0)),
        capabilities: vec!["zigbee".into()],
    };
    let updated = on_register(Some(&existing), incoming);
    assert_eq!(updated.id, existing.id);
    assert_eq!(updated.capabilities, vec!["zigbee"]);
    assert_eq!(updated.last_heartbeat, None);
}
