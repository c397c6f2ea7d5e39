use vstd::prelude::*;
use std::collections::HashMap;

use crate::assignment_engine::asg_view;
use crate::collections::{ids_increasing, insert_sorted_id, lemma_sorted_ids_of, sorted_ids};
use crate::controller_state::{
    nodes_view, observed_view, reports_to_map, services_view, statuses_map, ControllerState,
};
use crate::ids::{NodeId, ServiceId};
use crate::node::{NodeRecord, NodeRecordView};
use crate::service::{
    definitions_by_id, ServiceAssignment, ServiceDefinition, ServiceDefinitionView, ServiceHealthReport,
    ServiceStatus,
};

verus! {

broadcast use vstd::std_specs::hash::group_hash_axioms;

/// A list of node records as a map by identity; a later record of the same node replaces an
/// earlier one.
pub open spec fn records_by_id(s: Seq<NodeRecordView>) -> Map<u128, NodeRecordView>
    decreases s.len(),
{
    if s.len() == 0 {
        Map::empty()
    } else {
        records_by_id(s.drop_last()).insert(s.last().id.0, s.last())
    }
}

/// The nodes that some assignment of the list places a service on.
pub open spec fn assigned_nodes(s: Seq<ServiceAssignment>) -> Set<u128> {
    Set::new(|k: u128| exists|i: int| 0 <= i < s.len() && #[trigger] s[i].node_id.0 == k)
}

/// The services that the list assigns to node `k`.
pub open spec fn services_on(s: Seq<ServiceAssignment>, k: u128) -> Set<ServiceId> {
    Set::new(|sid: ServiceId| exists|i: int| 0 <= i < s.len() && #[trigger] s[i] == (ServiceAssignment { service_id: sid, node_id: NodeId(k) }))
}

/// Each node that an assignment names, with the services assigned to it in increasing order
/// of identity, each once.
pub open spec fn grouped_assignments(s: Seq<ServiceAssignment>) -> Map<u128, Seq<ServiceId>> {
    Map::new(|k: u128| assigned_nodes(s).contains(k), |k: u128| sorted_ids(services_on(s, k)))
}

/// The statuses that were stored per node, kept for the known nodes that have some; a later
/// entry for the same node replaces an earlier one.
pub open spec fn restored_observed(
    known: Set<u128>,
    obs: Seq<(NodeId, Seq<ServiceHealthReport>)>,
) -> Map<u128, Map<u128, ServiceStatus>>
    decreases obs.len(),
{
    if obs.len() == 0 {
        Map::empty()
    } else {
        let m = restored_observed(known, obs.drop_last());
        let (n, reports) = obs.last();
        if known.contains(n.0) && reports.len() > 0 {
            m.insert(n.0, reports_to_map(reports))
        } else {
            m
        }
    }
}

/// The views of a list of node records.
pub open spec fn records_view(s: Seq<NodeRecord>) -> Seq<NodeRecordView> {
    s.map_values(|r: NodeRecord| r@)
}

/// The views of a list of service definitions.
pub open spec fn definitions_of(s: Seq<ServiceDefinition>) -> Seq<ServiceDefinitionView> {
    s.map_values(|d: ServiceDefinition| d@)
}

/// The stored per-node statuses with each list of reports by its view.
pub open spec fn observed_records_view(s: Seq<(NodeId, Vec<ServiceHealthReport>)>) -> Seq<(NodeId, Seq<ServiceHealthReport>)> {
    s.map_values(|p: (NodeId, Vec<ServiceHealthReport>)| (p.0, p.1@))
}

fn nodes_by_id(nodes: &Vec<NodeRecord>) -> (m: HashMap<u128, NodeRecord>)
    ensures
        nodes_view(m) == records_by_id(records_view(nodes@)),
{
    let mut m: HashMap<u128, NodeRecord> = HashMap::new();
    assert(nodes_view(m) =~= Map::<u128, NodeRecordView>::empty());
    let mut i: usize = 0;
    while i < nodes.len()
        invariant
            i <= nodes.len(),
            nodes_view(m) == records_by_id(records_view(nodes@.take(i as int))),
        decreases nodes.len() - i,
    {
        let r = nodes[i].clone();
        let ghost rv = r@;
        let ghost before = nodes_view(m);
        m.insert(r.id.0, r);
        proof {
            let t = records_view(nodes@.take(i + 1));
            assert(t.drop_last() =~= records_view(nodes@.take(i as int)));
            assert(t.last() == rv);
            assert(nodes_view(m) =~= before.insert(rv.id.0, rv));
        }
        i = i + 1;
    }
    assert(nodes@.take(i as int) =~= nodes@);
    m
}

fn services_by_id(services: &Vec<ServiceDefinition>) -> (m: HashMap<u128, ServiceDefinition>)
    ensures
        services_view(m) == definitions_by_id(definitions_of(services@)),
{
    let mut m: HashMap<u128, ServiceDefinition> = HashMap::new();
    assert(services_view(m) =~= Map::<u128, ServiceDefinitionView>::empty());
    let mut i: usize = 0;
    while i < services.len()
        invariant
            i <= services.len(),
            services_view(m) == definitions_by_id(definitions_of(services@.take(i as int))),
        decreases services.len() - i,
    {
        let d = services[i].clone();
        let ghost dv = d@;
        let ghost before = services_view(m);
        m.insert(d.id.0, d);
        proof {
            let t = definitions_of(services@.take(i + 1));
            assert(t.drop_last() =~= definitions_of(services@.take(i as int)));
            assert(t.last() == dv);
            assert(services_view(m) =~= before.insert(dv.id.0, dv));
        }
        i = i + 1;
    }
    assert(services@.take(i as int) =~= services@);
    m
}

fn group_assignments(assignments: &Vec<ServiceAssignment>) -> (m: HashMap<u128, Vec<ServiceId>>)
    ensures
        asg_view(m) == grouped_assignments(assignments@),
{
    let mut m: HashMap<u128, Vec<ServiceId>> = HashMap::new();
    let mut i: usize = 0;
    while i < assignments.len()
        invariant
            i <= assignments.len(),
            asg_view(m).dom() == assigned_nodes(assignments@.take(i as int)),
            forall|k: u128| #[trigger] asg_view(m).contains_key(k) ==> ids_increasing(asg_view(m)[k])
                && asg_view(m)[k].to_set() == services_on(assignments@.take(i as int), k),
        decreases assignments.len() - i,
    {
        let a = assignments[i];
        let k = a.node_id.0;
        let ghost before = asg_view(m);
        let mut list: Vec<ServiceId> = match m.remove(&k) {
            Some(l) => l,
            None => Vec::new(),
        };
        assert(before.contains_key(k) ==> list@ == before[k]);
        assert(!before.contains_key(k) ==> list@ == Seq::<ServiceId>::empty());
        insert_sorted_id(&mut list, a.service_id);
        let ghost list_view = list@;
        m.insert(k, list);
        proof {
            let t = assignments@.take(i + 1);
            let t0 = assignments@.take(i as int);
            assert(t[i as int] == a);
            assert forall|x: u128| assigned_nodes(t).contains(x) <==> (assigned_nodes(t0).contains(x) || x == k) by {
                if assigned_nodes(t).contains(x) {
                    let q = choose|q: int| 0 <= q < t.len() && #[trigger] t[q].node_id.0 == x;
                    if q < i {
                        assert(t0[q] == t[q]);
                    }
                }
                if assigned_nodes(t0).contains(x) {
                    let q = choose|q: int| 0 <= q < t0.len() && #[trigger] t0[q].node_id.0 == x;
                    assert(t[q] == t0[q]);
                }
            }
            assert(asg_view(m).dom() =~= assigned_nodes(t));
            assert forall|x: u128, sid: ServiceId| services_on(t, x).contains(sid) <==> (services_on(t0, x).contains(sid)
                || (x == k && sid == a.service_id)) by {
                let target = ServiceAssignment { service_id: sid, node_id: NodeId(x) };
                if services_on(t, x).contains(sid) {
                    let q = choose|q: int| 0 <= q < t.len() && #[trigger] t[q] == target;
                    if q < i {
                        assert(t0[q] == t[q]);
                    }
                }
                if services_on(t0, x).contains(sid) {
                    let q = choose|q: int| 0 <= q < t0.len() && #[trigger] t0[q] == target;
                    assert(t[q] == t0[q]);
                }
                if x == k && sid == a.service_id {
                    assert(t[i as int] == target);
                }
            }
            assert forall|x: u128| #[trigger] asg_view(m).contains_key(x) implies ids_increasing(asg_view(m)[x])
                && asg_view(m)[x].to_set() == services_on(t, x) by {
                if x == k {
                    assert(asg_view(m)[x] == list_view);
                    if before.contains_key(k) {
                        assert(list_view.to_set() =~= services_on(t, x));
                    } else {
                        assert(services_on(t0, x) =~= Set::<ServiceId>::empty()) by {
                            assert forall|sid: ServiceId| !services_on(t0, x).contains(sid) by {
                                if services_on(t0, x).contains(sid) {
                                    let target = ServiceAssignment { service_id: sid, node_id: NodeId(x) };
                                    let q = choose|q: int| 0 <= q < t0.len() && #[trigger] t0[q] == target;
                                    assert(t0[q].node_id.0 == x);
                                    assert(assigned_nodes(t0).contains(x));
                                }
                            }
                        }
                        assert(Seq::<ServiceId>::empty().to_set() =~= Set::<ServiceId>::empty());
                        assert(list_view.to_set() =~= services_on(t, x));
                    }
                } else {
                    assert(asg_view(m)[x] == before[x]);
                    assert(services_on(t, x) =~= services_on(t0, x));
                }
            }
        }
        i = i + 1;
    }
    proof {
        assert(assignments@.take(i as int) =~= assignments@);
        assert forall|k: u128| #[trigger] asg_view(m).contains_key(k) implies asg_view(m)[k]
            == sorted_ids(services_on(assignments@, k)) by {
            lemma_sorted_ids_of(asg_view(m)[k]);
        }
        assert(asg_view(m) =~= grouped_assignments(assignments@));
    }
    m
}

impl ControllerState {
    /// The state that stored records describe: the nodes and the services by identity (a
    /// later record of the same identity wins), each node's assigned services in increasing
    /// order of identity and each once, and the stored statuses of the known nodes that have
    /// some.
    pub fn from_records(
        nodes: Vec<NodeRecord>,
        services: Vec<ServiceDefinition>,
        assignments: Vec<ServiceAssignment>,
        observed: Vec<(NodeId, Vec<ServiceHealthReport>)>,
    ) -> (s: ControllerState)
        ensures
            s@.nodes == records_by_id(records_view(nodes@)),
            s@.services == definitions_by_id(definitions_of(services@)),
            s@.assignments == grouped_assignments(assignments@),
            s@.observed == restored_observed(
                records_by_id(records_view(nodes@)).dom(),
                observed_records_view(observed@),
            ),
    {
        let node_map = nodes_by_id(&nodes);
        let service_map = services_by_id(&services);
        let assignment_map = group_assignments(&assignments);
        let ghost known = nodes_view(node_map).dom();
        let mut observed_map: HashMap<u128, HashMap<u128, ServiceStatus>> = HashMap::new();
        assert(observed_view(observed_map) =~= restored_observed(known, observed_records_view(observed@.take(0))));
        let mut i: usize = 0;
        while i < observed.len()
            invariant
                i <= observed.len(),
                known == nodes_view(node_map).dom(),
                observed_view(observed_map) == restored_observed(known, observed_records_view(observed@.take(i as int))),
            decreases observed.len() - i,
        {
            let entry = &observed[i];
            let n = entry.0;
            let ghost before = observed_view(observed_map);
            proof {
                let t = observed_records_view(observed@.take(i + 1));
                assert(t.drop_last() =~= observed_records_view(observed@.take(i as int)));
                assert(t.last() == (n, entry.1@));
            }
            if node_map.contains_key(&n.0) && entry.1.len() > 0 {
                let statuses = statuses_map(&entry.1);
                let ghost sv = statuses@;
                observed_map.insert(n.0, statuses);
                proof {
                    assert(observed_view(observed_map) =~= before.insert(n.0, sv));
                }
            }
            i = i + 1;
        }
        assert(observed@.take(i as int) =~= observed@);
        ControllerState {
            nodes: node_map,
            services: service_map,
            assignments: assignment_map,
            observed: observed_map,
        }
    }
}

} // verus!
