use vstd::prelude::*;

use crate::ids::{NodeId, ServiceId};
use crate::text::{copy_opt_string, opt_string_view};

verus! {

/// A service that the controller can place on a node.
#[derive(Debug, PartialEq, Eq)]
pub struct ServiceDefinition {
    pub id: ServiceId,
    pub name: String,
    pub version: String,
    pub selector: Option<String>,
}

/// The mathematical value of a [`ServiceDefinition`].
pub struct ServiceDefinitionView {
    pub id: ServiceId,
    pub name: Seq<char>,
    pub version: Seq<char>,
    pub selector: Option<Seq<char>>,
}

impl View for ServiceDefinition {
    type V = ServiceDefinitionView;

    open spec fn view(&self) -> ServiceDefinitionView {
        ServiceDefinitionView {
            id: self.id,
            name: self.name@,
            version: self.version@,
            selector: opt_string_view(self.selector),
        }
    }
}

impl Clone for ServiceDefinition {
    fn clone(&self) -> (r: ServiceDefinition)
        ensures
            r@ == self@,
    {
        ServiceDefinition {
            id: self.id,
            name: self.name.clone(),
            version: self.version.clone(),
            selector: copy_opt_string(&self.selector),
        }
    }
}

impl ServiceDefinition {
    /// A definition with a fresh random (version 4) identity and no selector.
    pub fn new(name: &str, version: &str) -> (svc: ServiceDefinition)
        ensures
            svc.name@ == name@,
            svc.version@ == version@,
            svc.selector.is_none(),
            (svc.id.0 >> 76u128) & 0xfu128 == 4u128,
            (svc.id.0 >> 62u128) & 0x3u128 == 2u128,
    {
        ServiceDefinition {
            id: ServiceId::new(),
            name: String::from_str(name),
            version: String::from_str(version),
            selector: None,
        }
    }

    /// The same definition with the given selector.
    pub fn with_selector(self, selector: &str) -> (svc: ServiceDefinition)
        ensures
            svc@ == (ServiceDefinitionView { selector: Some(selector@), ..self@ }),
    {
        let mut svc = self;
        svc.selector = Some(String::from_str(selector));
        svc
    }
}

/// A list of definitions as a map by identity; a later definition of the same identity
/// replaces an earlier one.
pub open spec fn definitions_by_id(s: Seq<ServiceDefinitionView>) -> Map<u128, ServiceDefinitionView>
    decreases s.len(),
{
    if s.len() == 0 {
        Map::empty()
    } else {
        definitions_by_id(s.drop_last()).insert(s.last().id.0, s.last())
    }
}

/// The placement of one service on one node.
#[derive(Clone, Copy, PartialEq, Eq, Structural, Hash, Debug)]
pub struct ServiceAssignment {
    pub service_id: ServiceId,
    pub node_id: NodeId,
}

/// The life-cycle state of a service instance on a node.
#[derive(Clone, Copy, PartialEq, Eq, Structural, Hash, Debug)]
pub enum ServiceStatus {
    Assigned,
    Starting,
    Running,
    Failed,
}

/// The state of one service as its node reports it.
#[derive(Clone, Copy, PartialEq, Eq, Structural, Debug)]
pub struct ServiceHealthReport {
    pub service_id: ServiceId,
    pub status: ServiceStatus,
}

} // verus!
