use homeedge::ids::{NodeId, ServiceId};
use homeedge::service::ServiceDefinition;
use homeedge::service_runtime::ServiceState;

#[test]
fn service_id_default_generates_uuid() {
    let a = ServiceId::default();
    let b = ServiceId::default();
    assert_ne!(a, b);
}

#[test]
fn service_definition_new_sets_defaults() {
    let svc = ServiceDefinition::new("lighting", "v1");
    assert_eq!(svc.name, "lighting");
    assert_eq!(svc.version, "v1");
    assert_eq!(svc.selector, None);
}

#[test]
fn service_definition_with_selector_sets_selector() {
    let svc = ServiceDefinition::new("lighting", "v1").with_selector("room=living");
    assert_eq!(svc.selector.as_deref(), Some("room=living"));
}

#[test]
fn fresh_identities_are_version_four_uuids() {
    let id = NodeId::new();
    assert_eq!((id.0 >> 76) & 0xf, 4);
    assert_eq!((id.0 >> 62) & 0x3, 2);
    let text = id.to_text();
    assert_eq!(text, uuid::Uuid::from_u128(id.0).to_string());
    assert_eq!(ServiceId(0x0123_4567_89ab_cdef_0123_4567_89ab_cdef).to_text(), "01234567-89ab-cdef-0123-456789abcdef");
}

#[test]
fn service_state_can_be_made_and_cloned() {
    let s = ServiceState::new();
    let _copy = s.clone();
}

#[test]
fn new_service_definition_has_a_version_4_identity() {
    for _ in 0..32 {
        let svc = ServiceDefinition::new("lighting", "v1");
        assert_eq!((svc.id.0 >> 76) & 0xf, 4);
        assert_eq!((svc.id.0 >> 62) & 0x3, 2);
        assert_eq!(svc.id.to_text().chars().nth(14), Some('4'));
    }
}
