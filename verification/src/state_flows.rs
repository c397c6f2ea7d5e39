use vstd::prelude::*;

use crate::api::{CreateServiceRequest, UpdateServiceRequest};
use crate::assignment_engine::{asg_view, assign_unassigned_services, assigned_ids, first_healthy, placed, placement_keeps_and_completes, list_or_empty};
use crate::collections::{sort_dedup_ids, sorted_unique, keys_of};
use crate::controller_state::{
    conflict_message, name_version_taken, nodes_view, reports_to_map, services_view, ControllerState,
    ControllerStateView,
};
use crate::errors::AppError;
use crate::ids::{NodeId, ServiceId};
use crate::node::{NodeRecord, NodeRecordView, NodeStatus};
use crate::service::{ServiceAssignment, ServiceDefinition, ServiceDefinitionView, ServiceHealthReport, ServiceStatus};
use crate::text::{lemma_trimmed_idempotent, opt_string_view, trimmed, trimmed_string};

verus! {

broadcast use vstd::std_specs::hash::group_hash_axioms;

/// The trimmed view of an optional text.
pub open spec fn trimmed_opt(s: Option<String>) -> Option<Seq<char>> {
    match s {
        Some(x) => Some(trimmed(x@)),
        None => None,
    }
}

fn trim_opt(s: &Option<String>) -> (r: Option<String>)
    ensures
        opt_string_view(r) == trimmed_opt(*s),
{
    match s {
        Some(x) => Some(trimmed_string(x.as_str())),
        None => None,
    }
}

impl ControllerState {
    /// Defines the service a request describes, its texts trimmed, and then places every
    /// unassigned service; see [`ControllerState::create_service`] and
    /// [`assign_unassigned_services`].
    pub fn create_service_from_request(&mut self, req: CreateServiceRequest) -> (r: Result<ServiceDefinition, AppError>)
        ensures
            r is Ok <==> (trimmed(req.name@).len() != 0 && trimmed(req.version@).len() != 0
                && !name_version_taken(old(self)@.services, trimmed(req.name@), trimmed(req.version@), None)),
            match r {
                Err(e) => final(self)@ == old(self)@ && if trimmed(req.name@).len() == 0 {
                    e matches AppError::BadRequest(m) && m@ == "name must not be empty"@
                } else if trimmed(req.version@).len() == 0 {
                    e matches AppError::BadRequest(m) && m@ == "version must not be empty"@
                } else {
                    e matches AppError::Conflict(m) && m@ == conflict_message(trimmed(req.name@), trimmed(req.version@))
                },
                Ok(s) => {
                    &&& s@ == ServiceDefinitionView {
                        id: s.id,
                        name: trimmed(req.name@),
                        version: trimmed(req.version@),
                        selector: trimmed_opt(req.selector),
                    }
                    &&& final(self)@.services == old(self)@.services.insert(s.id.0, s@)
                    &&& final(self)@.assignments == placed(
                        old(self)@.nodes,
                        old(self)@.services.insert(s.id.0, s@).dom(),
                        old(self)@.assignments,
                    )
                    &&& final(self)@.nodes == old(self)@.nodes
                    &&& final(self)@.observed == old(self)@.observed
                    &&& (s.id.0 >> 76u128) & 0xfu128 == 4u128
                    &&& (s.id.0 >> 62u128) & 0x3u128 == 2u128
                },
            },
    {
        proof {
            lemma_trimmed_idempotent(req.name@);
            lemma_trimmed_idempotent(req.version@);
        }
        let name = trimmed_string(req.name.as_str());
        let version = trimmed_string(req.version.as_str());
        let selector = trim_opt(&req.selector);
        let service = match self.create_service(name, version, selector) {
            Ok(s) => s,
            Err(e) => {
                return Err(e);
            },
        };
        assert(self.services@.dom() =~= services_view(self.services).dom());
        assert(self.services@.dom() =~= old(self)@.services.insert(service.id.0, service@).dom());
        assign_unassigned_services(&self.nodes, &self.services, &mut self.assignments);
        Ok(service)
    }

    /// Updates a service as a request describes, its texts trimmed; see
    /// [`ControllerState::update_service`].
    pub fn update_service_from_request(&mut self, service_id: ServiceId, req: UpdateServiceRequest) -> (r: Result<ServiceDefinition, AppError>)
        ensures
            r is Ok <==> (trimmed(req.name@).len() != 0 && trimmed(req.version@).len() != 0
                && !name_version_taken(old(self)@.services, trimmed(req.name@), trimmed(req.version@), Some(service_id))
                && old(self)@.services.contains_key(service_id.0)),
            r matches Err(AppError::Conflict(_)) ==> exists|k: u128|
                #![trigger old(self)@.services[k]]
                old(self)@.services.contains_key(k) && old(self)@.services[k].name == trimmed(req.name@)
                    && old(self)@.services[k].version == trimmed(req.version@) && old(self)@.services[k].id != service_id,
            match r {
                Err(e) => final(self)@ == old(self)@ && if trimmed(req.name@).len() == 0 {
                    e matches AppError::BadRequest(m) && m@ == "name must not be empty"@
                } else if trimmed(req.version@).len() == 0 {
                    e matches AppError::BadRequest(m) && m@ == "version must not be empty"@
                } else if name_version_taken(old(self)@.services, trimmed(req.name@), trimmed(req.version@), Some(service_id)) {
                    e matches AppError::Conflict(m) && m@ == conflict_message(trimmed(req.name@), trimmed(req.version@))
                } else {
                    e is ServiceNotFound
                },
                Ok(s) => {
                    &&& s@ == ServiceDefinitionView {
                        name: trimmed(req.name@),
                        version: trimmed(req.version@),
                        selector: trimmed_opt(req.selector),
                        ..old(self)@.services[service_id.0]
                    }
                    &&& final(self)@ == (ControllerStateView {
                        services: old(self)@.services.insert(service_id.0, s@),
                        ..old(self)@
                    })
                },
            },
    {
        proof {
            lemma_trimmed_idempotent(req.name@);
            lemma_trimmed_idempotent(req.version@);
        }
        let name = trimmed_string(req.name.as_str());
        let version = trimmed_string(req.version.as_str());
        let selector = trim_opt(&req.selector);
        self.update_service(service_id, name, version, selector)
    }
}

/// A newly defined service stands on some node afterwards when some node is healthy.
pub proof fn created_service_is_placed(
    nodes: Map<u128, NodeRecordView>,
    services: Map<u128, ServiceDefinitionView>,
    asg: Map<u128, Seq<ServiceId>>,
    s: ServiceDefinitionView,
)
    requires
        services.dom().finite(),
        first_healthy(nodes) is Some,
    ensures
        assigned_ids(placed(nodes, services.insert(s.id.0, s).dom(), asg)).contains(s.id),
{
    let dom = services.insert(s.id.0, s).dom();
    assert(dom == services.dom().insert(s.id.0));
    placement_keeps_and_completes(nodes, dom, asg);
    assert(dom.contains(s.id.0));
    assert(ServiceId(s.id.0) == s.id);
}

} // verus!
