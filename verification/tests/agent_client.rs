use homeedge::controller_client::{
    api_error, assignments_status_error, next_backoff_secs, normalize_base_url, status_is_success,
    ControllerEndpoint, HeartbeatPayload, INITIAL_BACKOFF_SECS, MAX_BACKOFF_SECS,
};
use homeedge::errors::AgentError;
use homeedge::ids::{NodeId, ServiceId};
use homeedge::service::ServiceStatus;
use homeedge::time::Timestamp;

const ID_TEXT: &str = "01234567-89ab-cdef-0123-456789abcdef";
const ID_VALUE: u128 = 0x0123_4567_89ab_cdef_0123_4567_89ab_cdef;

#[test]
fn base_url_loses_trailing_slashes_only() {
    assert_eq!(normalize_base_url("http://ctl:8080///"), "http://ctl:8080");
    assert_eq!(normalize_base_url("http://ctl:8080"), "http://ctl:8080");
    assert_eq!(normalize_base_url("/"), "");
    assert_eq!(normalize_base_url("a/b/"), "a/b");
}

#[test]
fn endpoint_builds_every_url() {
    let e = ControllerEndpoint::new("http://ctl:8080/", NodeId(ID_VALUE), vec!["docker".into()]);
    assert_eq!(e.base_url, "http://ctl:8080");
    assert_eq!(e.register_url(), "http://ctl:8080/register");
    assert_eq!(e.heartbeat_url(), "http://ctl:8080/heartbeat");
    assert_eq!(e.services_url(), "http://ctl:8080/services");
    assert_eq!(e.assignments_url(), format!("http://ctl:8080/assignments/{ID_TEXT}"));
    assert_eq!(e.node_id(), NodeId(ID_VALUE));
}

#[test]
fn register_sends_correct_json_to_register_endpoint() {
    let node_id = NodeId::new();
    let e = ControllerEndpoint::new("http://ctl", node_id, vec!["docker".into()]);
    let req = e.registration();
    assert_eq!(req.node_id, node_id);
    assert_eq!(req.capabilities, vec!["docker"]);
}

#[test]
fn heartbeat_sends_correct_node_id_and_recent_timestamp() {
    let node_id = NodeId::new();
    let e = ControllerEndpoint::new("http://ctl", node_id, vec![]);
    let ts = Timestamp::new(1_700_000_000, 42);
    let req = e.heartbeat_request(
        ts,
        HeartbeatPayload { service_statuses: vec![(ServiceId(2), ServiceStatus::Running), (ServiceId(1), ServiceStatus::Failed)] },
    );
    assert_eq!(req.node_id, node_id);
    assert_eq!(req.timestamp, ts);
    assert_eq!(req.service_statuses.len(), 2);
    assert_eq!(req.service_statuses[0].service_id, ServiceId(2));
    assert_eq!(req.service_statuses[0].status, ServiceStatus::Running);
    assert_eq!(req.service_statuses[1].service_id, ServiceId(1));
    assert_eq!(req.service_statuses[1].status, ServiceStatus::Failed);
}

#[test]
fn get_assignments_maps_404_to_node_not_registered() {
    let node_id = NodeId::new();
    match assignments_status_error(node_id, 404) {
        Some(AgentError::NodeNotRegistered(id)) => assert_eq!(id, node_id),
        other => panic!("unexpected {other:?}"),
    }
    assert!(assignments_status_error(node_id, 200).is_none());
    assert!(assignments_status_error(node_id, 500).is_none());
}

#[test]
fn error_answers_carry_their_body() {
    assert!(status_is_success(200) && status_is_success(299));
    assert!(!status_is_success(199) && !status_is_success(300) && !status_is_success(404));

    match api_error("register", 500, Ok("boom".to_string())) {
        AgentError::ControllerApi { operation, status, message } => {
            assert_eq!(operation, "register");
            assert_eq!(status, 500);
            assert_eq!(message, "boom");
        }
        other => panic!("unexpected {other:?}"),
    }
    match api_error("heartbeat", 400, Ok(String::new())) {
        AgentError::ControllerApi { message, .. } => assert_eq!(message, "<empty body>"),
        other => panic!("unexpected {other:?}"),
    }
    match api_error("list_services", 502, Err("closed".to_string())) {
        AgentError::ControllerApi { message, .. } => assert_eq!(message, "<failed to read error body: closed>"),
        other => panic!("unexpected {other:?}"),
    }
}

#[test]
fn registration_backoff_doubles_up_to_the_cap() {
    let mut b = INITIAL_BACKOFF_SECS;
    let mut seen = vec![b];
    for _ in 0..6 {
        b = next_backoff_secs(b);
        seen.push(b);
    }
    assert_eq!(seen, vec![1, 2, 4, 8, 16, 30, 30]);
    assert_eq!(next_backoff_secs(u64::MAX), MAX_BACKOFF_SECS);
    assert_eq!(next_backoff_secs(15), 30);
    assert_eq!(next_backoff_secs(0), 0);
}

#[test]
fn heartbeat_payload_clone_keeps_statuses() {
    let p = HeartbeatPayload { service_statuses: vec![(ServiceId(7), ServiceStatus::Starting)] };
    assert_eq!(p.clone().service_statuses, p.service_statuses);
}
