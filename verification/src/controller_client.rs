use vstd::prelude::*;

use crate::errors::AgentError;
use crate::ids::{uuid_text, NodeId, ServiceId};
use crate::node::{HeartbeatPayload as HeartbeatRequestBody, RegistrationRequest};
use crate::service::{ServiceHealthReport, ServiceStatus};
use crate::text::{copy_strings, strings_view};
use crate::time::Timestamp;

verus! {

/// The statuses an agent reports in one heartbeat, each service with its status.
#[derive(Debug)]
pub struct HeartbeatPayload {
    pub service_statuses: Vec<(ServiceId, ServiceStatus)>,
}

impl Clone for HeartbeatPayload {
    fn clone(&self) -> (r: HeartbeatPayload)
        ensures
            r.service_statuses@ == self.service_statuses@,
    {
        let mut copy: Vec<(ServiceId, ServiceStatus)> = Vec::new();
        let mut i: usize = 0;
        while i < self.service_statuses.len()
            invariant
                i <= self.service_statuses.len(),
                copy@ == self.service_statuses@.take(i as int),
            decreases self.service_statuses.len() - i,
        {
            copy.push(self.service_statuses[i]);
            assert(copy@ =~= self.service_statuses@.take(i + 1));
            i = i + 1;
        }
        assert(self.service_statuses@.take(i as int) =~= self.service_statuses@);
        HeartbeatPayload { service_statuses: copy }
    }
}

/// `s` without the `'/'` characters it ends with.
pub open spec fn without_trailing_slashes(s: Seq<char>) -> Seq<char>
    decreases s.len(),
{
    if s.len() > 0 && s.last() == '/' {
        without_trailing_slashes(s.drop_last())
    } else {
        s
    }
}

/// The URL without the `'/'` characters it ends with.
pub fn normalize_base_url(url: &str) -> (r: String)
    ensures
        r@ == without_trailing_slashes(url@),
{
    let n = url.unicode_len();
    let mut end: usize = n;
    assert(url@.subrange(0, n as int) =~= url@);
    while end > 0 && url.get_char(end - 1) == '/'
        invariant
            end <= n,
            n == url@.len(),
            without_trailing_slashes(url@) == without_trailing_slashes(url@.subrange(0, end as int)),
        decreases end,
    {
        assert(url@.subrange(0, end as int).drop_last() =~= url@.subrange(0, end - 1));
        end = end - 1;
    }
    let kept = url.substring_char(0, end);
    String::from_str(kept)
}

/// The reports that a heartbeat's statuses become, in the same order.
pub open spec fn reports_of(s: Seq<(ServiceId, ServiceStatus)>) -> Seq<ServiceHealthReport> {
    s.map_values(|p: (ServiceId, ServiceStatus)| ServiceHealthReport { service_id: p.0, status: p.1 })
}

/// Where and as which node an agent talks to the controller.
#[derive(Debug)]
pub struct ControllerEndpoint {
    pub base_url: String,
    pub node_id: NodeId,
    pub capabilities: Vec<String>,
}

fn joined(base: &String, path: &str) -> (r: String)
    ensures
        r@ == base@ + path@,
{
    let mut r = base.clone();
    r.append(path);
    r
}

impl ControllerEndpoint {
    /// The endpoint of a controller at `base_url`, whose trailing `'/'` characters are dropped.
    pub fn new(base_url: &str, node_id: NodeId, capabilities: Vec<String>) -> (e: ControllerEndpoint)
        ensures
            e.base_url@ == without_trailing_slashes(base_url@),
            e.node_id == node_id,
            e.capabilities@ == capabilities@,
    {
        ControllerEndpoint { base_url: normalize_base_url(base_url), node_id, capabilities }
    }

    /// The node this agent speaks for.
    pub fn node_id(&self) -> (id: NodeId)
        ensures
            id == self.node_id,
    {
        self.node_id
    }

    /// The URL a registration is posted to.
    pub fn register_url(&self) -> (u: String)
        ensures
            u@ == self.base_url@ + "/register"@,
    {
        joined(&self.base_url, "/register")
    }

    /// The URL a heartbeat is posted to.
    pub fn heartbeat_url(&self) -> (u: String)
        ensures
            u@ == self.base_url@ + "/heartbeat"@,
    {
        joined(&self.base_url, "/heartbeat")
    }

    /// The URL the service definitions are read from.
    pub fn services_url(&self) -> (u: String)
        ensures
            u@ == self.base_url@ + "/services"@,
    {
        joined(&self.base_url, "/services")
    }

    /// The URL this node's assignments are read from.
    pub fn assignments_url(&self) -> (u: String)
        ensures
            u@ == self.base_url@ + "/assignments/"@ + uuid_text(self.node_id.0),
    {
        let mut u = joined(&self.base_url, "/assignments/");
        let id = self.node_id.to_text();
        u.append(id.as_str());
        u
    }

    /// The registration this node sends: its identity and its capabilities.
    pub fn registration(&self) -> (r: RegistrationRequest)
        ensures
            r.node_id == self.node_id,
            strings_view(r.capabilities@) == strings_view(self.capabilities@),
    {
        RegistrationRequest { node_id: self.node_id, capabilities: copy_strings(&self.capabilities) }
    }

    /// The heartbeat this node sends at `timestamp` with the statuses of `payload`.
    pub fn heartbeat_request(&self, timestamp: Timestamp, payload: HeartbeatPayload) -> (r: HeartbeatRequestBody)
        ensures
            r.node_id == self.node_id,
            r.timestamp == timestamp,
            r.service_statuses@ == reports_of(payload.service_statuses@),
    {
        let statuses = payload.service_statuses;
        let mut reports: Vec<ServiceHealthReport> = Vec::new();
        let mut i: usize = 0;
        while i < statuses.len()
            invariant
                i <= statuses.len(),
                reports@ == reports_of(statuses@.take(i as int)),
            decreases statuses.len() - i,
        {
            let (service_id, status) = statuses[i];
            reports.push(ServiceHealthReport { service_id, status });
            proof {
                assert(reports@ =~= reports_of(statuses@.take(i + 1)));
            }
            i = i + 1;
        }
        assert(statuses@.take(i as int) == statuses@);
        HeartbeatRequestBody { node_id: self.node_id, timestamp, service_statuses: reports }
    }
}

/// Whether an HTTP status code is a success (the 2xx range).
pub fn status_is_success(status: u16) -> (b: bool)
    ensures
        b == (200 <= status && status <= 299),
{
    200 <= status && status <= 299
}

/// What an error answer's body is reported as: the body itself when it has text, a marker
/// when it is empty, and the reason when it could not be read.
pub open spec fn body_message(body: Result<Seq<char>, Seq<char>>) -> Seq<char> {
    match body {
        Ok(b) => if b.len() > 0 { b } else { "<empty body>"@ },
        Err(e) => "<failed to read error body: "@ + e + ">"@,
    }
}

/// The error for a controller answer that is not a success, with what its body holds.
pub fn api_error(operation: &'static str, status: u16, body: Result<String, String>) -> (e: AgentError)
    ensures
        match e {
            AgentError::ControllerApi { operation: op, status: st, message } => {
                &&& op == operation
                &&& st == status
                &&& message@ == body_message(match body {
                    Ok(b) => Ok::<Seq<char>, Seq<char>>(b@),
                    Err(r) => Err::<Seq<char>, Seq<char>>(r@),
                })
            },
            _ => false,
        },
{
    let message = match body {
        Ok(b) => {
            if b.unicode_len() > 0 {
                b
            } else {
                String::from_str("<empty body>")
            }
        },
        Err(reason) => {
            let mut m = String::from_str("<failed to read error body: ");
            m.append(reason.as_str());
            m.append(">");
            m
        },
    };
    AgentError::ControllerApi { operation, status, message }
}

/// The error a read of this node's assignments is answered with before its body is looked
/// at: a 404 means that the controller does not know the node.
pub fn assignments_status_error(node_id: NodeId, status: u16) -> (e: Option<AgentError>)
    ensures
        status == 404 ==> (e matches Some(AgentError::NodeNotRegistered(n)) && n == node_id),
        status != 404 ==> e is None,
{
    if status == 404 {
        Some(AgentError::NodeNotRegistered(node_id))
    } else {
        None
    }
}

/// The first wait, in seconds, between registration attempts.
pub const INITIAL_BACKOFF_SECS: u64 = 1;

/// The longest wait, in seconds, between registration attempts.
pub const MAX_BACKOFF_SECS: u64 = 30;

/// The wait after a failed registration attempt: twice the last one, at most
/// [`MAX_BACKOFF_SECS`].
pub fn next_backoff_secs(current: u64) -> (next: u64)
    ensures
        next == (if 2 * current <= MAX_BACKOFF_SECS { 2 * current } else { MAX_BACKOFF_SECS as int }),
{
    if current <= MAX_BACKOFF_SECS / 2 {
        current * 2
    } else {
        MAX_BACKOFF_SECS
    }
}

} // verus!
