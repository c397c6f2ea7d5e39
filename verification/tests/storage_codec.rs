use homeedge::errors::RepositoryError;
use homeedge::ids::{NodeId, ServiceId};
use homeedge::node::NodeStatus;
use homeedge::service::ServiceStatus;
use homeedge::storage_codec::{
    decode_assignment_row, decode_node_row, decode_node_status, decode_observed_row, decode_service_row,
    decode_service_status, duplicate_service_error, encode_node_status, encode_service_status, expect_rows,
    parse_node_id, AssignmentRow, NodeRow, ObservedRow, ServiceRow,
};

const ID_TEXT: &str = "01234567-89ab-cdef-0123-456789abcdef";
const ID_VALUE: u128 = 0x0123_4567_89ab_cdef_0123_4567_89ab_cdef;

#[test]
fn statuses_round_trip_through_their_texts() {
    for s in [NodeStatus::Registering, NodeStatus::Healthy, NodeStatus::Offline] {
        assert_eq!(decode_node_status(encode_node_status(s)).unwrap(), s);
    }
    for s in [ServiceStatus::Assigned, ServiceStatus::Starting, ServiceStatus::Running, ServiceStatus::Failed] {
        assert_eq!(decode_service_status(encode_service_status(s)).unwrap(), s);
    }
    assert_eq!(encode_node_status(NodeStatus::Offline), "offline");
    assert_eq!(encode_service_status(ServiceStatus::Running), "running");
}

#[test]
fn unknown_status_text_is_a_storage_error() {
    match decode_node_status("sleeping") {
        Err(RepositoryError::Storage(m)) => assert_eq!(m, "invalid node status 'sleeping'"),
        other => panic!("unexpected {other:?}"),
    }
    match decode_service_status("Running") {
        Err(RepositoryError::Storage(m)) => assert_eq!(m, "invalid service status 'Running'"),
        other => panic!("unexpected {other:?}"),
    }
}

#[test]
fn node_ids_parse_from_uuid_text() {
    assert_eq!(parse_node_id(ID_TEXT).unwrap(), NodeId(ID_VALUE));
    match parse_node_id("not-a-uuid") {
        Err(RepositoryError::Storage(m)) => assert!(m.starts_with("invalid uuid 'not-a-uuid': ")),
        other => panic!("unexpected {other:?}"),
    }
}

#[test]
fn node_row_decodes_every_field() {
    let row = NodeRow {
        node_id: ID_TEXT.to_string(),
        status: "healthy".to_string(),
        last_heartbeat: Some("2024-01-02T03:04:05.000000006+00:00".to_string()),
        capabilities_json: r#"["docker","mqtt"]"#.to_string(),
    };
    let node = decode_node_row(&row).unwrap();
    assert_eq!(node.id, NodeId(ID_VALUE));
    assert_eq!(node.status, NodeStatus::Healthy);
    let ts = node.last_heartbeat.unwrap();
    assert_eq!((ts.secs, ts.nanos), (1_704_164_645, 6));
    assert_eq!(node.capabilities, vec!["docker", "mqtt"]);
}

#[test]
fn node_row_errors_come_in_field_order() {
    let bad_time = NodeRow {
        node_id: "x".to_string(),
        status: "nope".to_string(),
        last_heartbeat: Some("yesterday".to_string()),
        capabilities_json: "[".to_string(),
    };
    assert!(matches!(decode_node_row(&bad_time), Err(RepositoryError::Storage(ref m)) if m.starts_with("invalid timestamp 'yesterday': ")));

    let bad_json = NodeRow { last_heartbeat: None, ..bad_time };
    assert!(matches!(decode_node_row(&bad_json), Err(RepositoryError::Serialization(_))));

    let bad_status = NodeRow {
        node_id: ID_TEXT.to_string(),
        status: "nope".to_string(),
        last_heartbeat: None,
        capabilities_json: "[]".to_string(),
    };
    assert!(matches!(decode_node_row(&bad_status), Err(RepositoryError::Storage(ref m)) if m == "invalid node status 'nope'"));
}

#[test]
fn service_assignment_and_observed_rows_decode() {
    let svc = decode_service_row(&ServiceRow {
        service_id: ID_TEXT.to_string(),
        name: "lighting".to_string(),
        version: "v1".to_string(),
        selector: Some("room=living".to_string()),
    })
    .unwrap();
    assert_eq!(svc.id, ServiceId(ID_VALUE));
    assert_eq!(svc.selector.as_deref(), Some("room=living"));

    let a = decode_assignment_row(&AssignmentRow { service_id: ID_TEXT.to_string(), node_id: ID_TEXT.to_string() }).unwrap();
    assert_eq!(a.service_id, ServiceId(ID_VALUE));
    assert_eq!(a.node_id, NodeId(ID_VALUE));

    let r = decode_observed_row(&ObservedRow { service_id: ID_TEXT.to_string(), status: "failed".to_string() }).unwrap();
    assert_eq!(r.status, ServiceStatus::Failed);
    assert!(decode_observed_row(&ObservedRow { service_id: "zz".to_string(), status: "failed".to_string() }).is_err());
}

#[test]
fn write_outcomes_map_to_repository_errors() {
    assert!(expect_rows(1, "node").is_ok());
    assert!(matches!(expect_rows(0, "service"), Err(RepositoryError::NotFound("service"))));
    match duplicate_service_error(&"lighting".to_string(), &"v1".to_string()) {
        RepositoryError::Conflict(m) => assert_eq!(m, "service 'lighting' version 'v1' already exists"),
        other => panic!("unexpected {other:?}"),
    }
}
