use vstd::prelude::*;

use crate::controller_state::{conflict_message, conflict_text};
use crate::errors::RepositoryError;
use crate::ids::{parse_uuid, uuid_parse, NodeId, ServiceId};
use crate::node::{NodeRecord, NodeRecordView, NodeStatus};
use crate::service::{ServiceAssignment, ServiceHealthReport};
use crate::service::{ServiceDefinition, ServiceDefinitionView, ServiceStatus};
use crate::text::{opt_string_view, strings_view, text_equals, copy_opt_string};
use crate::time::Timestamp;

verus! {

/// The text under which a node status is stored.
pub open spec fn node_status_text(s: NodeStatus) -> Seq<char> {
    match s {
        NodeStatus::Registering => "registering"@,
        NodeStatus::Healthy => "healthy"@,
        NodeStatus::Offline => "offline"@,
    }
}

/// The text under which a service status is stored.
pub open spec fn service_status_text(s: ServiceStatus) -> Seq<char> {
    match s {
        ServiceStatus::Assigned => "assigned"@,
        ServiceStatus::Starting => "starting"@,
        ServiceStatus::Running => "running"@,
        ServiceStatus::Failed => "failed"@,
    }
}

/// The text under which a node status is stored.
pub fn encode_node_status(status: NodeStatus) -> (t: &'static str)
    ensures
        t@ == node_status_text(status),
{
    match status {
        NodeStatus::Registering => "registering",
        NodeStatus::Healthy => "healthy",
        NodeStatus::Offline => "offline",
    }
}

/// The node status a stored text names; any other text is a storage error that quotes it.
pub fn decode_node_status(value: &str) -> (r: Result<NodeStatus, RepositoryError>)
    ensures
        match r {
            Ok(s) => node_status_text(s) == value@,
            Err(e) => {
                &&& forall|s: NodeStatus| node_status_text(s) != value@
                &&& e matches RepositoryError::Storage(m) && m@ == "invalid node status '"@ + value@ + "'"@
            },
        },
{
    if text_equals(value, "registering") {
        Ok(NodeStatus::Registering)
    } else if text_equals(value, "healthy") {
        Ok(NodeStatus::Healthy)
    } else if text_equals(value, "offline") {
        Ok(NodeStatus::Offline)
    } else {
        let mut m = String::from_str("invalid node status '");
        m.append(value);
        m.append("'");
        Err(RepositoryError::Storage(m))
    }
}

/// The text under which a service status is stored.
pub fn encode_service_status(status: ServiceStatus) -> (t: &'static str)
    ensures
        t@ == service_status_text(status),
{
    match status {
        ServiceStatus::Assigned => "assigned",
        ServiceStatus::Starting => "starting",
        ServiceStatus::Running => "running",
        ServiceStatus::Failed => "failed",
    }
}

/// The service status a stored text names; any other text is a storage error that quotes it.
pub fn decode_service_status(value: &str) -> (r: Result<ServiceStatus, RepositoryError>)
    ensures
        match r {
            Ok(s) => service_status_text(s) == value@,
            Err(e) => {
                &&& forall|s: ServiceStatus| service_status_text(s) != value@
                &&& e matches RepositoryError::Storage(m) && m@ == "invalid service status '"@ + value@ + "'"@
            },
        },
{
    if text_equals(value, "assigned") {
        Ok(ServiceStatus::Assigned)
    } else if text_equals(value, "starting") {
        Ok(ServiceStatus::Starting)
    } else if text_equals(value, "running") {
        Ok(ServiceStatus::Running)
    } else if text_equals(value, "failed") {
        Ok(ServiceStatus::Failed)
    } else {
        let mut m = String::from_str("invalid service status '");
        m.append(value);
        m.append("'");
        Err(RepositoryError::Storage(m))
    }
}

/// The storage error for a text that is no UUID.
pub open spec fn invalid_uuid_message(value: Seq<char>, error: Seq<char>) -> Seq<char> {
    "invalid uuid '"@ + value + "': "@ + error
}

/// The UUID a stored text holds; a text that is none is a storage error quoting the text
/// and the parser's complaint.
pub fn parse_uuid_value(value: &str) -> (r: Result<u128, RepositoryError>)
    ensures
        match uuid_parse(value@) {
            Ok(v) => r == Ok::<u128, RepositoryError>(v),
            Err(e) => r matches Err(RepositoryError::Storage(m)) && m@ == invalid_uuid_message(value@, e),
        },
{
    match parse_uuid(value) {
        Ok(v) => Ok(v),
        Err(e) => {
            let mut m = String::from_str("invalid uuid '");
            m.append(value);
            m.append("': ");
            m.append(e.as_str());
            Err(RepositoryError::Storage(m))
        },
    }
}

/// The node identity a stored text holds.
pub fn parse_node_id(value: &str) -> (r: Result<NodeId, RepositoryError>)
    ensures
        match uuid_parse(value@) {
            Ok(v) => r == Ok::<NodeId, RepositoryError>(NodeId(v)),
            Err(e) => r matches Err(RepositoryError::Storage(m)) && m@ == invalid_uuid_message(value@, e),
        },
{
    match parse_uuid_value(value) {
        Ok(v) => Ok(NodeId(v)),
        Err(e) => Err(e),
    }
}

/// The service identity a stored text holds.
pub fn parse_service_id(value: &str) -> (r: Result<ServiceId, RepositoryError>)
    ensures
        match uuid_parse(value@) {
            Ok(v) => r == Ok::<ServiceId, RepositoryError>(ServiceId(v)),
            Err(e) => r matches Err(RepositoryError::Storage(m)) && m@ == invalid_uuid_message(value@, e),
        },
{
    match parse_uuid_value(value) {
        Ok(v) => Ok(ServiceId(v)),
        Err(e) => Err(e),
    }
}


/// What `chrono::DateTime::parse_from_rfc3339` yields for a text: the instant as whole
/// seconds and nanoseconds since the epoch, or the text of the parse error.
pub uninterp spec fn rfc3339_parse(text: Seq<char>) -> Result<(i64, u32), Seq<char>>;

/// What `serde_json::from_str::<Vec<String>>` yields for a text: the strings, or the text of
/// the error.
pub uninterp spec fn json_string_list(text: Seq<char>) -> Result<Seq<Seq<char>>, Seq<char>>;

/// Calls `chrono::DateTime::parse_from_rfc3339` and reads the instant back as seconds and
/// nanoseconds since the epoch; the result is the named result `rfc3339_parse` of the text.
#[verifier::external_body]
fn parse_rfc3339(text: &str) -> (r: Result<Timestamp, String>)
    ensures
        match r {
            Ok(t) => rfc3339_parse(text@) == Ok::<(i64, u32), Seq<char>>((t.secs, t.nanos)),
            Err(e) => rfc3339_parse(text@) == Err::<(i64, u32), Seq<char>>(e@),
        },
{
    match chrono::DateTime::parse_from_rfc3339(text) {
        Ok(dt) => Ok(Timestamp { secs: dt.timestamp(), nanos: dt.timestamp_subsec_nanos() }),
        Err(e) => Err(e.to_string()),
    }
}

/// Calls `serde_json::from_str::<Vec<String>>`; the result is the named result
/// `json_string_list` of the text.
#[verifier::external_body]
fn parse_json_strings(text: &str) -> (r: Result<Vec<String>, String>)
    ensures
        match r {
            Ok(v) => json_string_list(text@) == Ok::<Seq<Seq<char>>, Seq<char>>(strings_view(v@)),
            Err(e) => json_string_list(text@) == Err::<Seq<Seq<char>>, Seq<char>>(e@),
        },
{
    match serde_json::from_str::<Vec<String>>(text) {
        Ok(v) => Ok(v),
        Err(e) => Err(e.to_string()),
    }
}

/// A stored node row, as the texts the store holds.
#[derive(Debug)]
pub struct NodeRow {
    pub node_id: String,
    pub status: String,
    pub last_heartbeat: Option<String>,
    pub capabilities_json: String,
}

/// A stored service row.
#[derive(Debug)]
pub struct ServiceRow {
    pub service_id: String,
    pub name: String,
    pub version: String,
    pub selector: Option<String>,
}

/// A stored assignment row.
#[derive(Debug)]
pub struct AssignmentRow {
    pub service_id: String,
    pub node_id: String,
}

/// A stored observed-status row.
#[derive(Debug)]
pub struct ObservedRow {
    pub service_id: String,
    pub status: String,
}

/// The storage error for a text that is no RFC 3339 timestamp.
pub open spec fn invalid_timestamp_message(value: Seq<char>, error: Seq<char>) -> Seq<char> {
    "invalid timestamp '"@ + value + "': "@ + error
}

/// Every field of a node row decodes.
pub open spec fn node_row_decodes(row: NodeRow) -> bool {
    &&& (row.last_heartbeat matches Some(ts) ==> rfc3339_parse(ts@) is Ok)
    &&& json_string_list(row.capabilities_json@) is Ok
    &&& uuid_parse(row.node_id@) is Ok
    &&& exists|s: NodeStatus| node_status_text(s) == row.status@
}

/// The record of a node row; a field that does not decode is an error, the fields tried in
/// the order last heartbeat, capabilities, identity, status.
pub fn decode_node_row(row: &NodeRow) -> (r: Result<NodeRecord, RepositoryError>)
    ensures
        r is Ok <==> node_row_decodes(*row),
        match r {
            Ok(node) => {
                &&& node.id == NodeId(uuid_parse(row.node_id@)->Ok_0)
                &&& node_status_text(node.status) == row.status@
                &&& match row.last_heartbeat {
                    Some(ts) => node.last_heartbeat matches Some(t) && rfc3339_parse(ts@)->Ok_0 == (t.secs, t.nanos),
                    None => node.last_heartbeat is None,
                }
                &&& node@.capabilities == json_string_list(row.capabilities_json@)->Ok_0
            },
            Err(e) => {
                if row.last_heartbeat is Some && rfc3339_parse(row.last_heartbeat->Some_0@) is Err {
                    e matches RepositoryError::Storage(m) && m@ == invalid_timestamp_message(
                        row.last_heartbeat->Some_0@, rfc3339_parse(row.last_heartbeat->Some_0@)->Err_0)
                } else if json_string_list(row.capabilities_json@) is Err {
                    e matches RepositoryError::Serialization(m) && m@ == json_string_list(row.capabilities_json@)->Err_0
                } else if uuid_parse(row.node_id@) is Err {
                    e matches RepositoryError::Storage(m) && m@ == invalid_uuid_message(row.node_id@, uuid_parse(row.node_id@)->Err_0)
                } else {
                    e matches RepositoryError::Storage(m) && m@ == "invalid node status '"@ + row.status@ + "'"@
                }
            },
        },
{
    let last_heartbeat = match &row.last_heartbeat {
        Some(ts) => match parse_rfc3339(ts.as_str()) {
            Ok(t) => Some(t),
            Err(e) => {
                let mut m = String::from_str("invalid timestamp '");
                m.append(ts.as_str());
                m.append("': ");
                m.append(e.as_str());
                return Err(RepositoryError::Storage(m));
            },
        },
        None => None,
    };
    let capabilities = match parse_json_strings(row.capabilities_json.as_str()) {
        Ok(v) => v,
        Err(e) => {
            return Err(RepositoryError::Serialization(e));
        },
    };
    let id = match parse_node_id(row.node_id.as_str()) {
        Ok(id) => id,
        Err(e) => {
            return Err(e);
        },
    };
    let status = match decode_node_status(row.status.as_str()) {
        Ok(s) => s,
        Err(e) => {
            return Err(e);
        },
    };
    Ok(NodeRecord { id, status, last_heartbeat, capabilities })
}

/// The definition of a service row; an identity that does not decode is an error.
pub fn decode_service_row(row: &ServiceRow) -> (r: Result<ServiceDefinition, RepositoryError>)
    ensures
        r is Ok <==> uuid_parse(row.service_id@) is Ok,
        match r {
            Ok(s) => s@ == ServiceDefinitionView {
                id: ServiceId(uuid_parse(row.service_id@)->Ok_0),
                name: row.name@,
                version: row.version@,
                selector: opt_string_view(row.selector),
            },
            Err(e) => e matches RepositoryError::Storage(m)
                && m@ == invalid_uuid_message(row.service_id@, uuid_parse(row.service_id@)->Err_0),
        },
{
    let id = match parse_service_id(row.service_id.as_str()) {
        Ok(id) => id,
        Err(e) => {
            return Err(e);
        },
    };
    Ok(ServiceDefinition {
        id,
        name: row.name.clone(),
        version: row.version.clone(),
        selector: copy_opt_string(&row.selector),
    })
}

/// The assignment of an assignment row; the service identity is decoded first.
pub fn decode_assignment_row(row: &AssignmentRow) -> (r: Result<ServiceAssignment, RepositoryError>)
    ensures
        r is Ok <==> (uuid_parse(row.service_id@) is Ok && uuid_parse(row.node_id@) is Ok),
        match r {
            Ok(a) => a == ServiceAssignment {
                service_id: ServiceId(uuid_parse(row.service_id@)->Ok_0),
                node_id: NodeId(uuid_parse(row.node_id@)->Ok_0),
            },
            Err(e) => if uuid_parse(row.service_id@) is Err {
                e matches RepositoryError::Storage(m)
                    && m@ == invalid_uuid_message(row.service_id@, uuid_parse(row.service_id@)->Err_0)
            } else {
                e matches RepositoryError::Storage(m)
                    && m@ == invalid_uuid_message(row.node_id@, uuid_parse(row.node_id@)->Err_0)
            },
        },
{
    let service_id = match parse_service_id(row.service_id.as_str()) {
        Ok(id) => id,
        Err(e) => {
            return Err(e);
        },
    };
    let node_id = match parse_node_id(row.node_id.as_str()) {
        Ok(id) => id,
        Err(e) => {
            return Err(e);
        },
    };
    Ok(ServiceAssignment { service_id, node_id })
}

/// The report of an observed-status row; the service identity is decoded first.
pub fn decode_observed_row(row: &ObservedRow) -> (r: Result<ServiceHealthReport, RepositoryError>)
    ensures
        r is Ok <==> (uuid_parse(row.service_id@) is Ok && exists|s: ServiceStatus| service_status_text(s) == row.status@),
        match r {
            Ok(rep) => rep.service_id == ServiceId(uuid_parse(row.service_id@)->Ok_0)
                && service_status_text(rep.status) == row.status@,
            Err(e) => if uuid_parse(row.service_id@) is Err {
                e matches RepositoryError::Storage(m)
                    && m@ == invalid_uuid_message(row.service_id@, uuid_parse(row.service_id@)->Err_0)
            } else {
                e matches RepositoryError::Storage(m) && m@ == "invalid service status '"@ + row.status@ + "'"@
            },
        },
{
    let service_id = match parse_service_id(row.service_id.as_str()) {
        Ok(id) => id,
        Err(e) => {
            return Err(e);
        },
    };
    let status = match decode_service_status(row.status.as_str()) {
        Ok(s) => s,
        Err(e) => {
            return Err(e);
        },
    };
    Ok(ServiceHealthReport { service_id, status })
}

/// Decoding a stored status gives back the status that was stored.
pub proof fn node_status_round_trip(s: NodeStatus, t: NodeStatus)
    ensures
        node_status_text(s) == node_status_text(t) <==> s == t,
{
    reveal_strlit("registering");
    reveal_strlit("healthy");
    reveal_strlit("offline");
    if s != t {
        match (s, t) {
            (NodeStatus::Registering, NodeStatus::Healthy) | (NodeStatus::Healthy, NodeStatus::Registering) => {
                assert(node_status_text(s).len() != node_status_text(t).len());
            },
            (NodeStatus::Registering, NodeStatus::Offline) | (NodeStatus::Offline, NodeStatus::Registering) => {
                assert(node_status_text(s).len() != node_status_text(t).len());
            },
            (NodeStatus::Healthy, NodeStatus::Offline) | (NodeStatus::Offline, NodeStatus::Healthy) => {
                assert(node_status_text(s)[0] != node_status_text(t)[0]);
            },
            _ => {},
        }
    }
}

/// Distinct service statuses are stored under distinct texts.
pub proof fn service_status_round_trip(s: ServiceStatus, t: ServiceStatus)
    ensures
        service_status_text(s) == service_status_text(t) <==> s == t,
{
    reveal_strlit("assigned");
    reveal_strlit("starting");
    reveal_strlit("running");
    reveal_strlit("failed");
    if s != t {
        assert(service_status_text(s)[0] != service_status_text(t)[0]
            || service_status_text(s).len() != service_status_text(t).len());
    }
}

/// What a write that must touch a row answers: nothing when it touched one, and that the
/// entity is missing when it touched none.
pub fn expect_rows(rows_affected: u64, entity: &'static str) -> (r: Result<(), RepositoryError>)
    ensures
        rows_affected > 0 ==> r is Ok,
        rows_affected == 0 ==> (r matches Err(RepositoryError::NotFound(e)) && e == entity),
{
    if rows_affected == 0 {
        Err(RepositoryError::NotFound(entity))
    } else {
        Ok(())
    }
}

/// The failure of a service write that would give two services the same name and version.
pub fn duplicate_service_error(name: &String, version: &String) -> (e: RepositoryError)
    ensures
        e matches RepositoryError::Conflict(m) && m@ == conflict_message(name@, version@),
{
    RepositoryError::Conflict(conflict_text(name, version))
}

} // verus!
