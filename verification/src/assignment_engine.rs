use vstd::prelude::*;
use std::collections::{HashMap, HashSet};

use crate::collections::{
    ids_increasing, increasing, insert_sorted_id, insert_sorted_int, keys_of, lemma_push_to_set,
    lemma_sorted_ids, lemma_sorted_ids_of, sort_dedup_ids, sorted_ids, sorted_unique,
};
use crate::ids::ServiceId;
use crate::controller_state::nodes_view;
use crate::node::{NodeRecord, NodeRecordView, NodeStatus};
use crate::service::ServiceDefinition;

verus! {

broadcast use vstd::std_specs::hash::group_hash_axioms;

/// The assignment table as a map from node keys to the sequences of service identities.
pub open spec fn asg_view(m: HashMap<u128, Vec<ServiceId>>) -> Map<u128, Seq<ServiceId>> {
    m@.map_values(|v: Vec<ServiceId>| v@)
}

/// The keys of the nodes whose status is healthy.
pub open spec fn healthy_keys(nodes: Map<u128, NodeRecordView>) -> Set<u128> {
    nodes.dom().filter(|k: u128| nodes[k].status == NodeStatus::Healthy)
}

/// `t` is the least element of `s`.
pub open spec fn is_least(s: Set<u128>, t: u128) -> bool {
    s.contains(t) && forall|k: u128| s.contains(k) ==> t <= k
}

/// The least key of a healthy node, if there is one.
pub open spec fn first_healthy(nodes: Map<u128, NodeRecordView>) -> Option<u128> {
    if exists|t: u128| is_least(healthy_keys(nodes), t) {
        Some(choose|t: u128| is_least(healthy_keys(nodes), t))
    } else {
        None
    }
}

/// Every service identity that appears in some node's list.
pub open spec fn assigned_ids(asg: Map<u128, Seq<ServiceId>>) -> Set<ServiceId> {
    Set::new(|s: ServiceId| exists|k: u128| asg.contains_key(k) && asg[k].contains(s))
}

/// The defined services that appear in no node's list.
pub open spec fn unassigned_ids(services: Set<u128>, asg: Map<u128, Seq<ServiceId>>) -> Set<ServiceId> {
    Set::new(|s: ServiceId| services.contains(s.0) && !assigned_ids(asg).contains(s))
}

/// The list of a node, or the empty list where the node has none.
pub open spec fn list_or_empty(asg: Map<u128, Seq<ServiceId>>, k: u128) -> Seq<ServiceId> {
    if asg.contains_key(k) {
        asg[k]
    } else {
        Seq::empty()
    }
}

/// The table after first-fit placement: when there is a healthy node, every unassigned
/// service joins the list of the healthy node with the least key, and every list is then
/// sorted with duplicates removed; when there is none, the table stays as it is.
pub open spec fn placed(
    nodes: Map<u128, NodeRecordView>,
    services: Set<u128>,
    asg: Map<u128, Seq<ServiceId>>,
) -> Map<u128, Seq<ServiceId>> {
    match first_healthy(nodes) {
        None => asg,
        Some(t) => {
            let u = unassigned_ids(services, asg);
            Map::new(
                |k: u128| asg.contains_key(k) || (k == t && u != Set::<ServiceId>::empty()),
                |k: u128|
                    sorted_ids(
                        list_or_empty(asg, k).to_set() + (if k == t {
                            u
                        } else {
                            Set::<ServiceId>::empty()
                        }),
                    ),
            )
        },
    }
}


proof fn lemma_unassigned_finite(services: Set<u128>, asg: Map<u128, Seq<ServiceId>>)
    requires
        services.finite(),
    ensures
        unassigned_ids(services, asg).finite(),
{
    let f = |k: u128| ServiceId(k);
    services.lemma_map_finite(f);
    let img = services.map(f);
    assert forall|s: ServiceId| unassigned_ids(services, asg).contains(s) implies img.contains(s) by {
        assert(services.contains(s.0) && f(s.0) == s);
    }
    vstd::set_lib::lemma_set_subset_finite(img, unassigned_ids(services, asg));
}

proof fn lemma_placed_lists(
    nodes: Map<u128, NodeRecordView>,
    services: Set<u128>,
    asg: Map<u128, Seq<ServiceId>>,
    t: u128,
    k: u128,
)
    requires
        services.finite(),
        first_healthy(nodes) == Some(t),
        placed(nodes, services, asg).contains_key(k),
    ensures
        ids_increasing(placed(nodes, services, asg)[k]),
        placed(nodes, services, asg)[k].to_set() == list_or_empty(asg, k).to_set() + (if k == t {
            unassigned_ids(services, asg)
        } else {
            Set::<ServiceId>::empty()
        }),
{
    lemma_unassigned_finite(services, asg);
    let extra = if k == t { unassigned_ids(services, asg) } else { Set::<ServiceId>::empty() };
    lemma_sorted_ids(list_or_empty(asg, k).to_set() + extra);
}

/// Placement never moves a service off a node: what a node held before it holds after.
/// When some node is healthy, placement leaves every defined service on some node, puts every
/// service that stood on no node on the healthy node with the least key, and leaves every
/// list in strictly increasing order without duplicates.
pub proof fn placement_keeps_and_completes(
    nodes: Map<u128, NodeRecordView>,
    services: Set<u128>,
    asg: Map<u128, Seq<ServiceId>>,
)
    requires
        services.finite(),
    ensures
        forall|k: u128, x: ServiceId| asg.contains_key(k) && asg[k].contains(x) ==>
            placed(nodes, services, asg).contains_key(k) && placed(nodes, services, asg)[k].contains(x),
        first_healthy(nodes) is Some ==> forall|s: u128| #[trigger] services.contains(s) ==>
            assigned_ids(placed(nodes, services, asg)).contains(ServiceId(s)),
        first_healthy(nodes) matches Some(t) ==> forall|x: ServiceId|
            #[trigger] unassigned_ids(services, asg).contains(x) ==> placed(nodes, services, asg)[t].contains(x),
        first_healthy(nodes) is Some ==> forall|k: u128| #[trigger] placed(nodes, services, asg).contains_key(k) ==>
            ids_increasing(placed(nodes, services, asg)[k]),
{
    let p = placed(nodes, services, asg);
    match first_healthy(nodes) {
        None => {},
        Some(t) => {
            let u = unassigned_ids(services, asg);
            assert forall|k: u128, x: ServiceId| asg.contains_key(k) && asg[k].contains(x) implies
                p.contains_key(k) && p[k].contains(x) by {
                lemma_placed_lists(nodes, services, asg, t, k);
                assert(list_or_empty(asg, k).to_set().contains(x));
                assert(p[k].to_set().contains(x));
            }
            assert forall|x: ServiceId| #[trigger] u.contains(x) implies p[t].contains(x) by {
                assert(u != Set::<ServiceId>::empty()) by {
                    assert(u.contains(x));
                }
                assert(p.contains_key(t));
                lemma_placed_lists(nodes, services, asg, t, t);
                assert(p[t].to_set().contains(x));
            }
            assert forall|s: u128| #[trigger] services.contains(s) implies assigned_ids(p).contains(ServiceId(s)) by {
                let x = ServiceId(s);
                if assigned_ids(asg).contains(x) {
                    let k = choose|k: u128| asg.contains_key(k) && asg[k].contains(x);
                    lemma_placed_lists(nodes, services, asg, t, k);
                    assert(list_or_empty(asg, k).to_set().contains(x));
                    assert(p[k].to_set().contains(x));
                    assert(p.contains_key(k) && p[k].contains(x));
                } else {
                    assert(u.contains(x));
                    assert(u != Set::<ServiceId>::empty());
                    lemma_placed_lists(nodes, services, asg, t, t);
                    assert(p[t].to_set().contains(x));
                    assert(p.contains_key(t) && p[t].contains(x));
                }
            }
            assert forall|k: u128| #[trigger] p.contains_key(k) implies ids_increasing(p[k]) by {
                lemma_placed_lists(nodes, services, asg, t, k);
            }
        },
    }
}

/// Placing twice gives what placing once gives.
pub proof fn placement_is_idempotent(
    nodes: Map<u128, NodeRecordView>,
    services: Set<u128>,
    asg: Map<u128, Seq<ServiceId>>,
)
    requires
        services.finite(),
    ensures
        placed(nodes, services, placed(nodes, services, asg)) == placed(nodes, services, asg),
{
    let p = placed(nodes, services, asg);
    match first_healthy(nodes) {
        None => {},
        Some(t) => {
            placement_keeps_and_completes(nodes, services, asg);
            let u2 = unassigned_ids(services, p);
            assert(u2 =~= Set::<ServiceId>::empty()) by {
                assert forall|x: ServiceId| !u2.contains(x) by {
                    if u2.contains(x) {
                        assert(services.contains(x.0));
                        assert(assigned_ids(p).contains(ServiceId(x.0)));
                        assert(ServiceId(x.0) == x);
                    }
                }
            }
            let p2 = placed(nodes, services, p);
            assert forall|k: u128| #[trigger] p2.contains_key(k) implies p2[k] == p[k] by {
                assert(p.contains_key(k));
                assert(ids_increasing(p[k]));
                assert(list_or_empty(p, k).to_set() + Set::<ServiceId>::empty() =~= p[k].to_set());
                lemma_sorted_ids_of(p[k]);
            }
            assert(p2 =~= p);
        },
    }
}

/// The keys of the healthy nodes in increasing order.
pub fn sorted_healthy_node_ids(nodes: &HashMap<u128, NodeRecord>) -> (r: Vec<u128>)
    ensures
        increasing(r@),
        r@.to_set() == healthy_keys(nodes_view(*nodes)),
{
    let ks = keys_of(nodes);
    let mut r: Vec<u128> = Vec::new();
    let mut i: usize = 0;
    while i < ks.len()
        invariant
            i <= ks.len(),
            ks@.to_set() == nodes@.dom(),
            increasing(r@),
            r@.to_set() == ks@.take(i as int).to_set().filter(
                |k: u128| nodes_view(*nodes)[k].status == NodeStatus::Healthy,
            ),
        decreases ks.len() - i,
    {
        let k = ks[i];
        assert(ks@.to_set().contains(k));
        let rec = nodes.get(&k).unwrap();
        let ghost before = r@.to_set();
        if rec.status == NodeStatus::Healthy {
            insert_sorted_int(&mut r, k);
        }
        proof {
            assert(ks@.take(i + 1) == ks@.take(i as int).push(k));
            lemma_push_to_set(ks@.take(i as int), k);
            assert(r@.to_set() =~= ks@.take(i + 1).to_set().filter(
                |k: u128| nodes_view(*nodes)[k].status == NodeStatus::Healthy,
            ));
        }
        i = i + 1;
    }
    proof {
        assert(ks@.take(i as int) == ks@);
        assert(r@.to_set() =~= healthy_keys(nodes_view(*nodes)));
    }
    r
}

/// The values of every service identity that appears in some node's list.
fn currently_assigned_service_ids(assignments: &HashMap<u128, Vec<ServiceId>>) -> (r: HashSet<u128>)
    ensures
        forall|x: u128| r@.contains(x) <==> assigned_ids(asg_view(*assignments)).contains(ServiceId(x)),
{
    let ghost a = asg_view(*assignments);
    let ks = keys_of(assignments);
    let mut r: HashSet<u128> = HashSet::new();
    let mut i: usize = 0;
    while i < ks.len()
        invariant
            i <= ks.len(),
            ks@.to_set() == assignments@.dom(),
            a == asg_view(*assignments),
            forall|x: u128| r@.contains(x) <==> exists|j: int| 0 <= j < i && a[ks@[j]].contains(ServiceId(x)),
        decreases ks.len() - i,
    {
        let k = ks[i];
        assert(ks@.to_set().contains(k));
        let list = assignments.get(&k).unwrap();
        assert(list@ == a[k]);
        let mut p: usize = 0;
        while p < list.len()
            invariant
                p <= list.len(),
                i < ks.len(),
                k == ks@[i as int],
                list@ == a[k],
                forall|x: u128| r@.contains(x) <==> (
                    (exists|j: int| 0 <= j < i && a[ks@[j]].contains(ServiceId(x)))
                    || list@.take(p as int).contains(ServiceId(x))),
            decreases list.len() - p,
        {
            let s = list[p];
            r.insert(s.0);
            proof {
                assert(list@.take(p + 1) == list@.take(p as int).push(s));
                assert forall|x: u128| r@.contains(x) <==> (
                    (exists|j: int| 0 <= j < i && a[ks@[j]].contains(ServiceId(x)))
                    || list@.take(p + 1).contains(ServiceId(x))) by {
                    if list@.take(p + 1).contains(ServiceId(x)) {
                        let q = choose|q: int| 0 <= q < p + 1 && #[trigger] list@.take(p + 1)[q] == ServiceId(x);
                        if q < p {
                            assert(list@.take(p as int)[q] == ServiceId(x));
                        }
                    }
                    if list@.take(p as int).contains(ServiceId(x)) {
                        let q = choose|q: int| 0 <= q < p && #[trigger] list@.take(p as int)[q] == ServiceId(x);
                        assert(list@.take(p + 1)[q] == ServiceId(x));
                    }
                    if x == s.0 {
                        assert(list@.take(p + 1)[p as int] == s);
                    }
                }
            }
            p = p + 1;
        }
        proof {
            assert(list@.take(p as int) == list@);
            assert forall|x: u128| r@.contains(x) <==> exists|j: int| 0 <= j < i + 1 && a[ks@[j]].contains(ServiceId(x)) by {
                if a[k].contains(ServiceId(x)) {
                    assert(0 <= i < i + 1 && a[ks@[i as int]].contains(ServiceId(x)));
                }
                if exists|j: int| 0 <= j < i + 1 && a[ks@[j]].contains(ServiceId(x)) {
                    let j = choose|j: int| 0 <= j < i + 1 && a[ks@[j]].contains(ServiceId(x));
                    if j < i {
                    } else {
                        assert(j == i);
                    }
                }
            }
        }
        i = i + 1;
    }
    proof {
        assert forall|x: u128| r@.contains(x) <==> assigned_ids(a).contains(ServiceId(x)) by {
            if r@.contains(x) {
                let j = choose|j: int| 0 <= j < i && a[ks@[j]].contains(ServiceId(x));
                assert(ks@.to_set().contains(ks@[j]));
                assert(a.contains_key(ks@[j]));
            }
            if assigned_ids(a).contains(ServiceId(x)) {
                let k = choose|k: u128| a.contains_key(k) && a[k].contains(ServiceId(x));
                assert(ks@.to_set().contains(k));
                let j = choose|j: int| 0 <= j < ks@.len() && ks@[j] == k;
                assert(a[ks@[j]].contains(ServiceId(x)));
            }
        }
    }
    r
}

/// The defined services that no node holds, in increasing order of identity.
fn sorted_unassigned_ids(
    services: &HashMap<u128, ServiceDefinition>,
    assigned: &HashSet<u128>,
    Ghost(a): Ghost<Map<u128, Seq<ServiceId>>>,
) -> (r: Vec<ServiceId>)
    requires
        forall|x: u128| assigned@.contains(x) <==> assigned_ids(a).contains(ServiceId(x)),
    ensures
        ids_increasing(r@),
        r@.to_set() == unassigned_ids(services@.dom(), a),
{
    let ks = keys_of(services);
    let mut r: Vec<ServiceId> = Vec::new();
    let mut i: usize = 0;
    while i < ks.len()
        invariant
            i <= ks.len(),
            ks@.to_set() == services@.dom(),
            forall|x: u128| assigned@.contains(x) <==> assigned_ids(a).contains(ServiceId(x)),
            ids_increasing(r@),
            r@.to_set() == Set::new(
                |s: ServiceId| ks@.take(i as int).contains(s.0) && !assigned_ids(a).contains(s),
            ),
        decreases ks.len() - i,
    {
        let k = ks[i];
        let ghost before = r@.to_set();
        let is_assigned = assigned.contains(&k);
        if !is_assigned {
            insert_sorted_id(&mut r, ServiceId(k));
        }
        proof {
            assert(is_assigned == assigned_ids(a).contains(ServiceId(k)));
            if is_assigned {
                assert(r@.to_set() == before);
            } else {
                assert(r@.to_set() == before.insert(ServiceId(k)));
            }
            assert(ks@.take(i + 1) == ks@.take(i as int).push(k));
            assert forall|s: ServiceId| ks@.take(i + 1).contains(s.0) <==> (ks@.take(i as int).contains(s.0) || s.0 == k) by {
                crate::collections::lemma_take_next_contains(ks@, i as int);
            }
            assert forall|s: ServiceId| r@.to_set().contains(s) <==> (ks@.take(i + 1).contains(s.0) && !assigned_ids(a).contains(s)) by {
                assert(before.contains(s) == (ks@.take(i as int).contains(s.0) && !assigned_ids(a).contains(s)));
                assert(ks@.take(i + 1).contains(s.0) <==> (ks@.take(i as int).contains(s.0) || s.0 == k));
                if s.0 == k {
                    assert(s == ServiceId(k));
                }
            }
            assert(r@.to_set() =~= Set::new(
                |s: ServiceId| ks@.take(i + 1).contains(s.0) && !assigned_ids(a).contains(s),
            ));
        }
        i = i + 1;
    }
    proof {
        assert(ks@.take(i as int) == ks@);
        assert forall|s: ServiceId| ks@.contains(s.0) <==> services@.dom().contains(s.0) by {
            assert(ks@.to_set().contains(s.0) == ks@.contains(s.0));
        }
        assert(r@.to_set() =~= unassigned_ids(services@.dom(), a));
    }
    r
}

/// First-fit placement of every unassigned service on the healthy node with the least key,
/// after which every node's list is sorted and free of duplicates. With no healthy node
/// nothing changes.
pub fn assign_unassigned_services(
    nodes: &HashMap<u128, NodeRecord>,
    services: &HashMap<u128, ServiceDefinition>,
    assignments: &mut HashMap<u128, Vec<ServiceId>>,
)
    ensures
        asg_view(*final(assignments)) == placed(nodes_view(*nodes), services@.dom(), asg_view(*old(assignments))),
{
    let ghost a0 = asg_view(*assignments);
    let healthy = sorted_healthy_node_ids(nodes);
    if healthy.len() == 0 {
        proof {
            assert(healthy_keys(nodes_view(*nodes)) =~= Set::<u128>::empty()) by {
                assert forall|k: u128| !healthy_keys(nodes_view(*nodes)).contains(k) by {
                    if healthy_keys(nodes_view(*nodes)).contains(k) {
                        assert(healthy@.to_set().contains(k));
                    }
                }
            }
            assert(!exists|t: u128| is_least(healthy_keys(nodes_view(*nodes)), t));
        }
        return;
    }
    let t = healthy[0];
    proof {
        assert(healthy@.to_set().contains(t));
        assert forall|k: u128| healthy_keys(nodes_view(*nodes)).contains(k) implies t <= k by {
            assert(healthy@.to_set().contains(k));
            let q = choose|q: int| 0 <= q < healthy@.len() && #[trigger] healthy@[q] == k;
            if q > 0 {
                assert(healthy@[0] < healthy@[q]);
            }
        }
        assert(is_least(healthy_keys(nodes_view(*nodes)), t));
        let c = choose|c: u128| is_least(healthy_keys(nodes_view(*nodes)), c);
        assert(c <= t && t <= c);
        assert(first_healthy(nodes_view(*nodes)) == Some(t));
    }
    let assigned = currently_assigned_service_ids(assignments);
    let unassigned = sorted_unassigned_ids(services, &assigned, Ghost(a0));
    let ghost u = unassigned_ids(services@.dom(), a0);

    if unassigned.len() > 0 {
        let mut list: Vec<ServiceId> = match assignments.remove(&t) {
            Some(l) => l,
            None => Vec::new(),
        };
        assert(list@ == list_or_empty(a0, t));
        let mut q: usize = 0;
        while q < unassigned.len()
            invariant
                q <= unassigned.len(),
                list@ == list_or_empty(a0, t) + unassigned@.take(q as int),
            decreases unassigned.len() - q,
        {
            list.push(unassigned[q]);
            assert(unassigned@.take(q + 1) == unassigned@.take(q as int).push(unassigned@[q as int]));
            q = q + 1;
        }
        assignments.insert(t, list);
    }
    let ghost a1 = asg_view(*assignments);
    proof {
        assert(unassigned@.take(unassigned@.len() as int) == unassigned@);
        if unassigned@.len() > 0 {
            assert(u != Set::<ServiceId>::empty()) by {
                assert(unassigned@.to_set().contains(unassigned@[0]));
            }
        } else {
            assert(u =~= Set::<ServiceId>::empty()) by {
                assert forall|s: ServiceId| !u.contains(s) by {
                    if u.contains(s) {
                        assert(unassigned@.to_set().contains(s));
                    }
                }
            }
        }
    }

    let ks = keys_of(assignments);
    let mut i: usize = 0;
    while i < ks.len()
        invariant
            i <= ks.len(),
            ks@.no_duplicates(),
            ks@.to_set() == a1.dom(),
            asg_view(*assignments).dom() == a1.dom(),
            forall|k: u128| #[trigger] a1.contains_key(k) ==> asg_view(*assignments)[k] == (
                if ks@.take(i as int).contains(k) { sorted_unique(a1[k]) } else { a1[k] }),
        decreases ks.len() - i,
    {
        let k = ks[i];
        assert(ks@.to_set().contains(k));
        let ghost before = asg_view(*assignments);
        let list = assignments.remove(&k).unwrap();
        proof {
            assert(!ks@.take(i as int).contains(k)) by {
                if ks@.take(i as int).contains(k) {
                    let q = choose|q: int| 0 <= q < i && #[trigger] ks@.take(i as int)[q] == k;
                    assert(ks@[q] == ks@[i as int]);
                }
            }
        }
        let normalized = sort_dedup_ids(&list);
        assignments.insert(k, normalized);
        proof {
            assert(ks@.take(i + 1) == ks@.take(i as int).push(k));
            assert forall|x: u128| ks@.take(i + 1).contains(x) <==> (ks@.take(i as int).contains(x) || x == k) by {
                crate::collections::lemma_take_next_contains(ks@, i as int);
            }
            assert(asg_view(*assignments).dom() =~= a1.dom());
        }
        i = i + 1;
    }
    proof {
        assert(ks@.take(i as int) == ks@);
        let p = placed(nodes_view(*nodes), services@.dom(), a0);
        let fin = asg_view(*assignments);
        assert forall|k: u128| fin.dom().contains(k) <==> p.dom().contains(k) by {
            if unassigned@.len() > 0 {
                assert(a1.dom() == a0.dom().insert(t));
            } else {
                assert(a1.dom() == a0.dom());
            }
        }
        assert forall|k: u128| #[trigger] fin.contains_key(k) implies fin[k] == p[k] by {
            assert(ks@.to_set().contains(k));
            let extra = if k == t { u } else { Set::<ServiceId>::empty() };
            assert(a1[k].to_set() == list_or_empty(a0, k).to_set() + extra) by {
                if unassigned@.len() > 0 && k == t {
                    vstd::seq_lib::seq_to_set_distributes_over_add(list_or_empty(a0, t), unassigned@);
                } else {
                    assert(list_or_empty(a0, k).to_set() + extra =~= list_or_empty(a0, k).to_set());
                }
            }
        }
        assert(fin =~= p);
    }
}

/// The placement step that the controller runs after the desired state changes.
pub struct AssignmentEngine;

impl AssignmentEngine {
    /// Places every unassigned service; see [`assign_unassigned_services`].
    pub fn reconcile(
        nodes: &HashMap<u128, NodeRecord>,
        services: &HashMap<u128, ServiceDefinition>,
        assignments: &mut HashMap<u128, Vec<ServiceId>>,
    )
        ensures
            asg_view(*final(assignments)) == placed(nodes_view(*nodes), services@.dom(), asg_view(*old(assignments))),
    {
        assign_unassigned_services(nodes, services, assignments);
    }
}

} // verus!
