use vstd::prelude::*;
use std::collections::HashMap;

use crate::assignment_engine::{asg_view, list_or_empty};
use crate::collections::keys_of;
use crate::errors::AppError;
use crate::ids::{NodeId, ServiceId};
use crate::node::{HeartbeatPayload, NodeRecord, NodeRecordView, NodeStatus, RegistrationRequest};
use crate::node_registry::{heartbeat_seen, on_heartbeat, on_register, registered};
use crate::service::{
    ServiceAssignment, ServiceDefinition, ServiceDefinitionView, ServiceHealthReport, ServiceStatus,
};
use crate::text::{copy_opt_string, is_blank, opt_string_view, strings_view, trimmed};

verus! {

broadcast use vstd::std_specs::hash::group_hash_axioms;

/// The controller's whole desired and observed state, each table keyed by the 128-bit
/// value of the identity it is about.
#[derive(Debug)]
pub struct ControllerState {
    pub nodes: HashMap<u128, NodeRecord>,
    pub services: HashMap<u128, ServiceDefinition>,
    pub assignments: HashMap<u128, Vec<ServiceId>>,
    pub observed: HashMap<u128, HashMap<u128, ServiceStatus>>,
}

/// The mathematical value of a [`ControllerState`].
pub struct ControllerStateView {
    pub nodes: Map<u128, NodeRecordView>,
    pub services: Map<u128, ServiceDefinitionView>,
    pub assignments: Map<u128, Seq<ServiceId>>,
    pub observed: Map<u128, Map<u128, ServiceStatus>>,
}

pub open spec fn nodes_view(m: HashMap<u128, NodeRecord>) -> Map<u128, NodeRecordView> {
    m@.map_values(|r: NodeRecord| r@)
}

pub open spec fn services_view(m: HashMap<u128, ServiceDefinition>) -> Map<u128, ServiceDefinitionView> {
    m@.map_values(|s: ServiceDefinition| s@)
}

pub open spec fn observed_view(m: HashMap<u128, HashMap<u128, ServiceStatus>>) -> Map<u128, Map<u128, ServiceStatus>> {
    m@.map_values(|x: HashMap<u128, ServiceStatus>| x@)
}

impl View for ControllerState {
    type V = ControllerStateView;

    open spec fn view(&self) -> ControllerStateView {
        ControllerStateView {
            nodes: nodes_view(self.nodes),
            services: services_view(self.services),
            assignments: asg_view(self.assignments),
            observed: observed_view(self.observed),
        }
    }
}

impl Default for ControllerState {
    fn default() -> (s: ControllerState)
        ensures
            s@.nodes == Map::<u128, NodeRecordView>::empty(),
            s@.services == Map::<u128, ServiceDefinitionView>::empty(),
            s@.assignments == Map::<u128, Seq<ServiceId>>::empty(),
            s@.observed == Map::<u128, Map<u128, ServiceStatus>>::empty(),
    {
        let s = ControllerState {
            nodes: HashMap::new(),
            services: HashMap::new(),
            assignments: HashMap::new(),
            observed: HashMap::new(),
        };
        assert(s@.nodes =~= Map::<u128, NodeRecordView>::empty());
        assert(s@.services =~= Map::<u128, ServiceDefinitionView>::empty());
        assert(s@.assignments =~= Map::<u128, Seq<ServiceId>>::empty());
        assert(s@.observed =~= Map::<u128, Map<u128, ServiceStatus>>::empty());
        s
    }
}

/// The statuses a heartbeat reports, as a map from service to status; a later report
/// about the same service replaces an earlier one.
pub open spec fn reports_to_map(s: Seq<ServiceHealthReport>) -> Map<u128, ServiceStatus>
    decreases s.len(),
{
    if s.len() == 0 {
        Map::empty()
    } else {
        reports_to_map(s.drop_last()).insert(s.last().service_id.0, s.last().status)
    }
}

/// The statuses a list of reports gives, by service; a later report about the same service
/// replaces an earlier one.
pub fn statuses_map(reports: &Vec<ServiceHealthReport>) -> (m: HashMap<u128, ServiceStatus>)
    ensures
        m@ == reports_to_map(reports@),
{
    let mut m: HashMap<u128, ServiceStatus> = HashMap::new();
    let mut i: usize = 0;
    while i < reports.len()
        invariant
            i <= reports.len(),
            m@ == reports_to_map(reports@.take(i as int)),
        decreases reports.len() - i,
    {
        let report = reports[i];
        m.insert(report.service_id.0, report.status);
        assert(reports@.take(i + 1).drop_last() == reports@.take(i as int));
        i = i + 1;
    }
    assert(reports@.take(i as int) == reports@);
    m
}

/// `s` with every occurrence of `x` removed, the rest in order.
pub open spec fn without(s: Seq<ServiceId>, x: ServiceId) -> Seq<ServiceId>
    decreases s.len(),
{
    if s.len() == 0 {
        Seq::empty()
    } else if s.last() == x {
        without(s.drop_last(), x)
    } else {
        without(s.drop_last(), x).push(s.last())
    }
}

/// Every node's list with `x` removed.
pub open spec fn strip_everywhere(asg: Map<u128, Seq<ServiceId>>, x: ServiceId) -> Map<u128, Seq<ServiceId>> {
    asg.map_values(|s: Seq<ServiceId>| without(s, x))
}

/// The services of `s` that are defined, in order.
pub open spec fn known_only(s: Seq<ServiceId>, services: Set<u128>) -> Seq<ServiceId>
    decreases s.len(),
{
    if s.len() == 0 {
        Seq::empty()
    } else if services.contains(s.last().0) {
        known_only(s.drop_last(), services).push(s.last())
    } else {
        known_only(s.drop_last(), services)
    }
}

/// The assignments of the services in `s` to node `n`, in order.
pub open spec fn paired_with(s: Seq<ServiceId>, n: NodeId) -> Seq<ServiceAssignment> {
    s.map_values(|sid: ServiceId| ServiceAssignment { service_id: sid, node_id: n })
}

/// `s` without `x`, the rest in order.
fn remove_service(s: &Vec<ServiceId>, x: ServiceId) -> (r: Vec<ServiceId>)
    ensures
        r@ == without(s@, x),
{
    let mut r: Vec<ServiceId> = Vec::new();
    let mut i: usize = 0;
    while i < s.len()
        invariant
            i <= s.len(),
            r@ == without(s@.take(i as int), x),
        decreases s.len() - i,
    {
        assert(s@.take(i + 1).drop_last() == s@.take(i as int));
        if s[i] != x {
            r.push(s[i]);
        }
        i = i + 1;
    }
    assert(s@.take(i as int) == s@);
    r
}

/// Removes `x` from every node's list.
fn strip_service_everywhere(assignments: &mut HashMap<u128, Vec<ServiceId>>, x: ServiceId)
    ensures
        asg_view(*final(assignments)) == strip_everywhere(asg_view(*old(assignments)), x),
{
    let ghost a0 = asg_view(*assignments);
    let ks = keys_of(assignments);
    let mut i: usize = 0;
    while i < ks.len()
        invariant
            i <= ks.len(),
            ks@.no_duplicates(),
            ks@.to_set() == a0.dom(),
            asg_view(*assignments).dom() == a0.dom(),
            forall|k: u128| #[trigger] a0.contains_key(k) ==> asg_view(*assignments)[k] == (
                if ks@.take(i as int).contains(k) { without(a0[k], x) } else { a0[k] }),
        decreases ks.len() - i,
    {
        let k = ks[i];
        assert(ks@.to_set().contains(k));
        proof {
            assert(!ks@.take(i as int).contains(k)) by {
                if ks@.take(i as int).contains(k) {
                    let q = choose|q: int| 0 <= q < i && #[trigger] ks@.take(i as int)[q] == k;
                    assert(ks@[q] == ks@[i as int]);
                }
            }
        }
        let list = assignments.remove(&k).unwrap();
        let stripped = remove_service(&list, x);
        assignments.insert(k, stripped);
        proof {
            assert forall|y: u128| ks@.take(i + 1).contains(y) <==> (ks@.take(i as int).contains(y) || y == k) by {
                crate::collections::lemma_take_next_contains(ks@, i as int);
            }
            assert(asg_view(*assignments).dom() =~= a0.dom());
        }
        i = i + 1;
    }
    proof {
        assert(ks@.take(i as int) == ks@);
        assert forall|k: u128| a0.contains_key(k) implies ks@.contains(k) by {
            assert(ks@.to_set().contains(k));
        }
        assert(asg_view(*assignments) =~= strip_everywhere(a0, x));
    }
}

impl ControllerState {
    /// Registers a node: it is (again) `Registering`, with the capabilities it reported and
    /// the last heartbeat it had before, and it has an assignment list.
    pub fn register_node(&mut self, req: RegistrationRequest) -> (node: NodeRecord)
        ensures
            node@ == registered(
                if old(self)@.nodes.contains_key(req.node_id.0) {
                    Some(old(self)@.nodes[req.node_id.0])
                } else {
                    None
                },
                NodeRecordView {
                    id: req.node_id,
                    status: NodeStatus::Registering,
                    last_heartbeat: None,
                    capabilities: strings_view(req.capabilities@),
                },
            ),
            final(self)@.nodes == old(self)@.nodes.insert(req.node_id.0, node@),
            final(self)@.assignments == if old(self)@.assignments.contains_key(req.node_id.0) {
                old(self)@.assignments
            } else {
                old(self)@.assignments.insert(req.node_id.0, Seq::empty())
            },
            final(self)@.services == old(self)@.services,
            final(self)@.observed == old(self)@.observed,
    {
        let id = req.node_id;
        let incoming = NodeRecord {
            id,
            status: NodeStatus::Registering,
            last_heartbeat: None,
            capabilities: req.capabilities,
        };
        let updated = on_register(self.nodes.get(&id.0), incoming);
        if !self.assignments.contains_key(&id.0) {
            self.assignments.insert(id.0, Vec::new());
        }
        let stored = updated.clone();
        self.nodes.insert(id.0, stored);
        proof {
            assert(asg_view(self.assignments) =~= (if old(self)@.assignments.contains_key(id.0) {
                old(self)@.assignments
            } else {
                old(self)@.assignments.insert(id.0, Seq::empty())
            }));
            assert(nodes_view(self.nodes) =~= old(self)@.nodes.insert(id.0, updated@));
        }
        updated
    }

    /// Records a heartbeat of a known node: it is healthy as of the heartbeat's time, and its
    /// observed statuses are the reported ones. An unknown node is an error.
    pub fn record_heartbeat(&mut self, req: HeartbeatPayload) -> (r: Result<NodeRecord, AppError>)
        ensures
            r is Err <==> !old(self)@.nodes.contains_key(req.node_id.0),
            match r {
                Err(e) => e is NodeNotFound && final(self)@ == old(self)@,
                Ok(node) => {
                    &&& node@ == heartbeat_seen(old(self)@.nodes[req.node_id.0], req.timestamp)
                    &&& final(self)@.nodes == old(self)@.nodes.insert(req.node_id.0, node@)
                    &&& final(self)@.observed == old(self)@.observed.insert(
                        req.node_id.0,
                        reports_to_map(req.service_statuses@),
                    )
                    &&& final(self)@.services == old(self)@.services
                    &&& final(self)@.assignments == old(self)@.assignments
                },
            },
    {
        let id = req.node_id.0;
        if !self.nodes.contains_key(&id) {
            return Err(AppError::NodeNotFound);
        }
        let mut node = self.nodes.remove(&id).unwrap();
        on_heartbeat(&mut node, req.timestamp);
        let observed = statuses_map(&req.service_statuses);
        self.observed.insert(id, observed);
        let result = node.clone();
        self.nodes.insert(id, node);
        proof {
            assert(nodes_view(self.nodes) =~= old(self)@.nodes.insert(id, result@));
            assert(observed_view(self.observed) =~= old(self)@.observed.insert(id, reports_to_map(req.service_statuses@)));
        }
        Ok(result)
    }

    /// The assignments of a known node to the services it holds that are still defined, in
    /// the order of its list. An unknown node is an error.
    pub fn assignments_for(&self, node_id: NodeId) -> (r: Result<Vec<ServiceAssignment>, AppError>)
        ensures
            r is Err <==> !self@.nodes.contains_key(node_id.0),
            match r {
                Err(e) => e is NodeNotFound,
                Ok(v) => v@ == paired_with(
                    known_only(list_or_empty(self@.assignments, node_id.0), self@.services.dom()),
                    node_id,
                ),
            },
    {
        if !self.nodes.contains_key(&node_id.0) {
            return Err(AppError::NodeNotFound);
        }
        let mut result: Vec<ServiceAssignment> = Vec::new();
        match self.assignments.get(&node_id.0) {
            None => {
                assert(result@ =~= paired_with(
                    known_only(list_or_empty(self@.assignments, node_id.0), self@.services.dom()),
                    node_id,
                ));
            },
            Some(list) => {
                let ghost dom = self@.services.dom();
                let mut i: usize = 0;
                while i < list.len()
                    invariant
                        i <= list.len(),
                        dom == self@.services.dom(),
                        result@ == paired_with(known_only(list@.take(i as int), dom), node_id),
                    decreases list.len() - i,
                {
                    let sid = list[i];
                    assert(list@.take(i + 1).drop_last() == list@.take(i as int));
                    if self.services.contains_key(&sid.0) {
                        result.push(ServiceAssignment { service_id: sid, node_id });
                        assert(result@ =~= paired_with(known_only(list@.take(i + 1), dom), node_id));
                    }
                    i = i + 1;
                }
                assert(list@.take(i as int) == list@);
            },
        }
        Ok(result)
    }

    /// A copy of a defined service; an undefined one is an error.
    pub fn get_service(&self, service_id: ServiceId) -> (r: Result<ServiceDefinition, AppError>)
        ensures
            r is Err <==> !self@.services.contains_key(service_id.0),
            match r {
                Err(e) => e is ServiceNotFound,
                Ok(s) => s@ == self@.services[service_id.0],
            },
    {
        match self.services.get(&service_id.0) {
            Some(s) => Ok(s.clone()),
            None => Err(AppError::ServiceNotFound),
        }
    }

    /// Marks a known node offline; an unknown node is an error.
    pub fn mark_node_offline(&mut self, node_id: NodeId) -> (r: Result<(), AppError>)
        ensures
            r is Err <==> !old(self)@.nodes.contains_key(node_id.0),
            match r {
                Err(e) => e is NodeNotFound && final(self)@ == old(self)@,
                Ok(_) => final(self)@ == (ControllerStateView {
                    nodes: old(self)@.nodes.insert(
                        node_id.0,
                        NodeRecordView { status: NodeStatus::Offline, ..old(self)@.nodes[node_id.0] },
                    ),
                    ..old(self)@
                }),
            },
    {
        if !self.nodes.contains_key(&node_id.0) {
            return Err(AppError::NodeNotFound);
        }
        let mut node = self.nodes.remove(&node_id.0).unwrap();
        crate::node_registry::mark_offline(&mut node);
        self.nodes.insert(node_id.0, node);
        assert(nodes_view(self.nodes) =~= old(self)@.nodes.insert(
            node_id.0,
            NodeRecordView { status: NodeStatus::Offline, ..old(self)@.nodes[node_id.0] },
        ));
        Ok(())
    }

    /// Removes the service from every node's list; never fails.
    pub fn unassign_service(&mut self, service_id: ServiceId) -> (r: Result<(), AppError>)
        ensures
            r is Ok,
            final(self)@ == (ControllerStateView {
                assignments: strip_everywhere(old(self)@.assignments, service_id),
                ..old(self)@
            }),
    {
        strip_service_everywhere(&mut self.assignments, service_id);
        Ok(())
    }

    /// Deletes a defined service and removes it from every node's list; an undefined one is
    /// an error.
    pub fn delete_service(&mut self, service_id: ServiceId) -> (r: Result<(), AppError>)
        ensures
            r is Err <==> !old(self)@.services.contains_key(service_id.0),
            match r {
                Err(e) => e is ServiceNotFound && final(self)@ == old(self)@,
                Ok(_) => final(self)@ == (ControllerStateView {
                    services: old(self)@.services.remove(service_id.0),
                    assignments: strip_everywhere(old(self)@.assignments, service_id),
                    ..old(self)@
                }),
            },
    {
        if !self.services.contains_key(&service_id.0) {
            return Err(AppError::ServiceNotFound);
        }
        self.services.remove(&service_id.0);
        strip_service_everywhere(&mut self.assignments, service_id);
        assert(services_view(self.services) =~= old(self)@.services.remove(service_id.0));
        Ok(())
    }

    /// Moves a defined service to a known node: it leaves every other list and ends the
    /// node's list. An undefined service or an unknown node is an error.
    pub fn assign_service(&mut self, service_id: ServiceId, node_id: NodeId) -> (r: Result<ServiceAssignment, AppError>)
        ensures
            r is Err <==> (!old(self)@.services.contains_key(service_id.0) || !old(self)@.nodes.contains_key(node_id.0)),
            match r {
                Err(e) => final(self)@ == old(self)@ && if !old(self)@.services.contains_key(service_id.0) {
                    e is ServiceNotFound
                } else {
                    e is NodeNotFound
                },
                Ok(a) => {
                    &&& a == ServiceAssignment { service_id, node_id }
                    &&& final(self)@ == (ControllerStateView {
                        assignments: strip_everywhere(old(self)@.assignments, service_id).insert(
                            node_id.0,
                            list_or_empty(strip_everywhere(old(self)@.assignments, service_id), node_id.0).push(service_id),
                        ),
                        ..old(self)@
                    })
                },
            },
    {
        if !self.services.contains_key(&service_id.0) {
            return Err(AppError::ServiceNotFound);
        }
        if !self.nodes.contains_key(&node_id.0) {
            return Err(AppError::NodeNotFound);
        }
        strip_service_everywhere(&mut self.assignments, service_id);
        let ghost stripped = asg_view(self.assignments);
        let mut list = match self.assignments.remove(&node_id.0) {
            Some(l) => l,
            None => Vec::new(),
        };
        assert(list@ == list_or_empty(stripped, node_id.0));
        proof {
            if old(self)@.assignments.contains_key(node_id.0) {
                lemma_without_absent(old(self)@.assignments[node_id.0], service_id);
            }
        }
        if !vec_contains_service(&list, service_id) {
            list.push(service_id);
        }
        self.assignments.insert(node_id.0, list);
        assert(asg_view(self.assignments) =~= stripped.insert(node_id.0, list_or_empty(stripped, node_id.0).push(service_id)));
        Ok(ServiceAssignment { service_id, node_id })
    }
}


/// Some defined service other than `except` has this name and version.
pub open spec fn name_version_taken(
    services: Map<u128, ServiceDefinitionView>,
    name: Seq<char>,
    version: Seq<char>,
    except: Option<ServiceId>,
) -> bool {
    exists|k: u128|
        #![trigger services[k]]
        services.contains_key(k) && services[k].name == name && services[k].version == version
            && except != Some(services[k].id)
}

/// A service that is stored under its own identity and whose name and version no other
/// service carries can be given that same name and version again: the conflict check of an
/// update never counts the service being updated.
pub proof fn own_name_and_version_never_conflict(services: Map<u128, ServiceDefinitionView>, id: ServiceId)
    requires
        services.contains_key(id.0),
        services[id.0].id == id,
        forall|k: u128| #[trigger] services.contains_key(k) && k != id.0 ==> !(services[k].name == services[id.0].name
            && services[k].version == services[id.0].version),
    ensures
        !name_version_taken(services, services[id.0].name, services[id.0].version, Some(id)),
{
}

/// Another service with the same name and version makes an update of `id` to them a
/// conflict.
pub proof fn another_service_with_the_name_and_version_conflicts(
    services: Map<u128, ServiceDefinitionView>,
    id: ServiceId,
    k: u128,
)
    requires
        services.contains_key(k),
        services[k].id != id,
    ensures
        name_version_taken(services, services[k].name, services[k].version, Some(id)),
{
}

/// The message of a name and version conflict.
pub open spec fn conflict_message(name: Seq<char>, version: Seq<char>) -> Seq<char> {
    "service '"@ + name + "' version '"@ + version + "' already exists"@
}

/// Whether some service other than `except` has this name and version.
fn find_name_version(
    services: &HashMap<u128, ServiceDefinition>,
    name: &String,
    version: &String,
    except: Option<ServiceId>,
) -> (b: bool)
    ensures
        b == name_version_taken(services_view(*services), name@, version@, except),
{
    let ghost sv = services_view(*services);
    let ks = keys_of(services);
    let mut i: usize = 0;
    while i < ks.len()
        invariant
            i <= ks.len(),
            ks@.to_set() == services@.dom(),
            sv == services_view(*services),
            forall|j: int| #![trigger ks@[j]] 0 <= j < i ==> !(sv[ks@[j]].name == name@ && sv[ks@[j]].version == version@
                && except != Some(sv[ks@[j]].id)),
        decreases ks.len() - i,
    {
        let k = ks[i];
        assert(ks@.to_set().contains(k));
        let s = services.get(&k).unwrap();
        let excluded = match except {
            Some(e) => s.id == e,
            None => false,
        };
        if s.name == *name && s.version == *version && !excluded {
            assert(sv.contains_key(k) && sv[k].name == name@ && sv[k].version == version@ && except != Some(sv[k].id));
            return true;
        }
        i = i + 1;
    }
    proof {
        if name_version_taken(sv, name@, version@, except) {
            let k = choose|k: u128| #![trigger sv[k]] sv.contains_key(k) && sv[k].name == name@ && sv[k].version == version@
                && except != Some(sv[k].id);
            assert(ks@.to_set().contains(k));
            let j = choose|j: int| 0 <= j < ks@.len() && ks@[j] == k;
            assert(!(sv[ks@[j]].name == name@ && sv[ks@[j]].version == version@ && except != Some(sv[ks@[j]].id)));
        }
    }
    false
}

pub(crate) fn conflict_text(name: &String, version: &String) -> (m: String)
    ensures
        m@ == conflict_message(name@, version@),
{
    let mut m = String::from_str("service '");
    m.append(name.as_str());
    m.append("' version '");
    m.append(version.as_str());
    m.append("' already exists");
    m
}

impl ControllerState {
    /// Defines a service under the given identity. A blank name or version is a bad request;
    /// a name and version that some service already has is a conflict.
    pub fn create_service_with_id(
        &mut self,
        id: ServiceId,
        name: String,
        version: String,
        selector: Option<String>,
    ) -> (r: Result<ServiceDefinition, AppError>)
        ensures
            r is Ok <==> (trimmed(name@).len() != 0 && trimmed(version@).len() != 0
                && !name_version_taken(old(self)@.services, name@, version@, None)),
            match r {
                Err(e) => final(self)@ == old(self)@ && if trimmed(name@).len() == 0 {
                    e matches AppError::BadRequest(m) && m@ == "name must not be empty"@
                } else if trimmed(version@).len() == 0 {
                    e matches AppError::BadRequest(m) && m@ == "version must not be empty"@
                } else {
                    e matches AppError::Conflict(m) && m@ == conflict_message(name@, version@)
                },
                Ok(s) => {
                    &&& s@ == ServiceDefinitionView {
                        id,
                        name: name@,
                        version: version@,
                        selector: opt_string_view(selector),
                    }
                    &&& final(self)@ == (ControllerStateView {
                        services: old(self)@.services.insert(id.0, s@),
                        ..old(self)@
                    })
                },
            },
    {
        if is_blank(name.as_str()) {
            return Err(AppError::BadRequest(String::from_str("name must not be empty")));
        }
        if is_blank(version.as_str()) {
            return Err(AppError::BadRequest(String::from_str("version must not be empty")));
        }
        if find_name_version(&self.services, &name, &version, None) {
            return Err(AppError::Conflict(conflict_text(&name, &version)));
        }
        let service = ServiceDefinition { id, name, version, selector };
        let stored = service.clone();
        self.services.insert(id.0, stored);
        assert(services_view(self.services) =~= old(self)@.services.insert(id.0, service@));
        Ok(service)
    }

    /// Defines a service under a fresh random identity; see [`Self::create_service_with_id`].
    pub fn create_service(&mut self, name: String, version: String, selector: Option<String>) -> (r: Result<ServiceDefinition, AppError>)
        ensures
            r is Ok <==> (trimmed(name@).len() != 0 && trimmed(version@).len() != 0
                && !name_version_taken(old(self)@.services, name@, version@, None)),
            match r {
                Err(e) => final(self)@ == old(self)@ && if trimmed(name@).len() == 0 {
                    e matches AppError::BadRequest(m) && m@ == "name must not be empty"@
                } else if trimmed(version@).len() == 0 {
                    e matches AppError::BadRequest(m) && m@ == "version must not be empty"@
                } else {
                    e matches AppError::Conflict(m) && m@ == conflict_message(name@, version@)
                },
                Ok(s) => {
                    &&& s@ == ServiceDefinitionView {
                        id: s.id,
                        name: name@,
                        version: version@,
                        selector: opt_string_view(selector),
                    }
                    &&& final(self)@ == (ControllerStateView {
                        services: old(self)@.services.insert(s.id.0, s@),
                        ..old(self)@
                    })
                    &&& (s.id.0 >> 76u128) & 0xfu128 == 4u128
                    &&& (s.id.0 >> 62u128) & 0x3u128 == 2u128
                },
            },
    {
        self.create_service_with_id(ServiceId::new(), name, version, selector)
    }

    /// Renames, re-versions and re-selects a defined service. A blank name or version is a bad
    /// request; a name and version that another service has is a conflict; an undefined
    /// service is not found. The checks run in that order.
    pub fn update_service(
        &mut self,
        service_id: ServiceId,
        name: String,
        version: String,
        selector: Option<String>,
    ) -> (r: Result<ServiceDefinition, AppError>)
        ensures
            r is Ok <==> (trimmed(name@).len() != 0 && trimmed(version@).len() != 0
                && !name_version_taken(old(self)@.services, name@, version@, Some(service_id))
                && old(self)@.services.contains_key(service_id.0)),
            r matches Err(AppError::Conflict(_)) ==> exists|k: u128|
                #![trigger old(self)@.services[k]]
                old(self)@.services.contains_key(k) && old(self)@.services[k].name == name@
                    && old(self)@.services[k].version == version@ && old(self)@.services[k].id != service_id,
            match r {
                Err(e) => final(self)@ == old(self)@ && if trimmed(name@).len() == 0 {
                    e matches AppError::BadRequest(m) && m@ == "name must not be empty"@
                } else if trimmed(version@).len() == 0 {
                    e matches AppError::BadRequest(m) && m@ == "version must not be empty"@
                } else if name_version_taken(old(self)@.services, name@, version@, Some(service_id)) {
                    e matches AppError::Conflict(m) && m@ == conflict_message(name@, version@)
                } else {
                    e is ServiceNotFound
                },
                Ok(s) => {
                    &&& s@ == ServiceDefinitionView {
                        name: name@,
                        version: version@,
                        selector: opt_string_view(selector),
                        ..old(self)@.services[service_id.0]
                    }
                    &&& final(self)@ == (ControllerStateView {
                        services: old(self)@.services.insert(service_id.0, s@),
                        ..old(self)@
                    })
                },
            },
    {
        if is_blank(name.as_str()) {
            return Err(AppError::BadRequest(String::from_str("name must not be empty")));
        }
        if is_blank(version.as_str()) {
            return Err(AppError::BadRequest(String::from_str("version must not be empty")));
        }
        if find_name_version(&self.services, &name, &version, Some(service_id)) {
            return Err(AppError::Conflict(conflict_text(&name, &version)));
        }
        if !self.services.contains_key(&service_id.0) {
            return Err(AppError::ServiceNotFound);
        }
        let mut service = self.services.remove(&service_id.0).unwrap();
        service.name = name;
        service.version = version;
        service.selector = selector;
        let result = service.clone();
        self.services.insert(service_id.0, service);
        assert(services_view(self.services) =~= old(self)@.services.insert(service_id.0, result@));
        Ok(result)
    }
}

/// Whether `x` is in `s`.
pub fn vec_contains_service(s: &Vec<ServiceId>, x: ServiceId) -> (b: bool)
    ensures
        b == s@.contains(x),
{
    let mut i: usize = 0;
    while i < s.len()
        invariant
            i <= s.len(),
            forall|j: int| 0 <= j < i ==> s@[j] != x,
        decreases s.len() - i,
    {
        if s[i] == x {
            return true;
        }
        i = i + 1;
    }
    false
}

/// Removing `x` leaves no `x`, and keeps every other element.
pub proof fn lemma_without_absent(s: Seq<ServiceId>, x: ServiceId)
    ensures
        !without(s, x).contains(x),
        forall|y: ServiceId| y != x ==> (#[trigger] without(s, x).contains(y) <==> s.contains(y)),
    decreases s.len(),
{
    if s.len() > 0 {
        let d = s.drop_last();
        lemma_without_absent(d, x);
        let w = without(d, x);
        let r = without(s, x);
        assert(s == d.push(s.last()));
        assert forall|y: ServiceId| y != x implies (#[trigger] without(s, x).contains(y) <==> s.contains(y)) by {
            assert(w.contains(y) <==> d.contains(y));
            if s.last() == x {
                assert(r == w);
                if s.contains(y) {
                    let q = choose|q: int| 0 <= q < s.len() && #[trigger] s[q] == y;
                    assert(q < d.len());
                    assert(d[q] == y);
                }
                if d.contains(y) {
                    let q = choose|q: int| 0 <= q < d.len() && #[trigger] d[q] == y;
                    assert(s[q] == y);
                }
            } else {
                assert(r == w.push(s.last()));
                if s.contains(y) {
                    let q = choose|q: int| 0 <= q < s.len() && #[trigger] s[q] == y;
                    if q < d.len() {
                        assert(d[q] == y);
                        let q2 = choose|q2: int| 0 <= q2 < w.len() && #[trigger] w[q2] == y;
                        assert(r[q2] == y);
                    } else {
                        assert(r[w.len() as int] == y);
                    }
                }
                if r.contains(y) {
                    let q = choose|q: int| 0 <= q < r.len() && #[trigger] r[q] == y;
                    if q < w.len() {
                        assert(w[q] == y);
                        let q2 = choose|q2: int| 0 <= q2 < d.len() && #[trigger] d[q2] == y;
                        assert(s[q2] == y);
                    } else {
                        assert(s[s.len() - 1] == y);
                    }
                }
            }
        }
        if r.contains(x) {
            let q = choose|q: int| 0 <= q < r.len() && #[trigger] r[q] == x;
            if s.last() == x {
                assert(w[q] == x);
            } else {
                assert(r == w.push(s.last()));
                if q < w.len() {
                    assert(w[q] == x);
                }
            }
        }
    }
}


/// After a service is assigned to a node, that node's list holds it exactly once and no
/// other node's list holds it.
pub proof fn assigned_service_is_on_that_node_only(asg: Map<u128, Seq<ServiceId>>, service_id: ServiceId, node: u128)
    ensures
        ({
            let stripped = strip_everywhere(asg, service_id);
            let after = stripped.insert(node, list_or_empty(stripped, node).push(service_id));
            &&& forall|k: u128| #[trigger] after.contains_key(k) ==> (after[k].contains(service_id) <==> k == node)
            &&& after[node].to_multiset().count(service_id) == 1
        }),
{
    broadcast use vstd::seq_lib::group_to_multiset_ensures;
    let stripped = strip_everywhere(asg, service_id);
    let after = stripped.insert(node, list_or_empty(stripped, node).push(service_id));
    assert forall|k: u128| #[trigger] stripped.contains_key(k) implies !stripped[k].contains(service_id) by {
        lemma_without_absent(asg[k], service_id);
    }
    let base = list_or_empty(stripped, node);
    assert(!base.contains(service_id));
    assert(base.push(service_id)[base.len() as int] == service_id);
    assert(base.to_multiset().count(service_id) == 0);
    assert(after[node].to_multiset() == base.to_multiset().insert(service_id));
}

/// After a service is unassigned or deleted, no node's list holds it, and every other
/// service stays on the lists that held it.
pub proof fn stripped_service_is_on_no_list(asg: Map<u128, Seq<ServiceId>>, service_id: ServiceId)
    ensures
        strip_everywhere(asg, service_id).dom() == asg.dom(),
        forall|k: u128| #[trigger] strip_everywhere(asg, service_id).contains_key(k)
            ==> !strip_everywhere(asg, service_id)[k].contains(service_id),
        forall|k: u128, other: ServiceId| other != service_id && asg.contains_key(k)
            ==> (#[trigger] strip_everywhere(asg, service_id)[k].contains(other) <==> asg[k].contains(other)),
{
    let stripped = strip_everywhere(asg, service_id);
    assert(stripped.dom() =~= asg.dom());
    assert forall|k: u128| #[trigger] stripped.contains_key(k) implies !stripped[k].contains(service_id) by {
        lemma_without_absent(asg[k], service_id);
    }
    assert forall|k: u128, other: ServiceId| other != service_id && asg.contains_key(k)
        implies (#[trigger] stripped[k].contains(other) <==> asg[k].contains(other)) by {
        lemma_without_absent(asg[k], service_id);
    }
}

} // verus!
