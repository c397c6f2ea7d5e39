use vstd::prelude::*;
use std::collections::HashMap;

use crate::assignment_engine::{is_least, list_or_empty};
use crate::collections::keys_of;
use crate::controller_state::{vec_contains_service, ControllerState, ControllerStateView, nodes_view};
use crate::ids::{NodeId, ServiceId};
use crate::node::{NodeRecord, NodeRecordView, NodeStatus};
use crate::service::ServiceStatus;

verus! {

broadcast use vstd::std_specs::hash::group_hash_axioms;

/// The identities of the healthy records other than `o`.
pub open spec fn healthy_ids_except(nodes: Map<u128, NodeRecordView>, o: NodeId) -> Set<u128> {
    Set::new(
        |x: u128|
            exists|k: u128|
                #![trigger nodes[k]]
                nodes.contains_key(k) && nodes[k].status == NodeStatus::Healthy && nodes[k].id.0 == x
                    && nodes[k].id != o,
    )
}

/// Where the services of offline node `o` go: the least identity of a healthy node other
/// than `o`, if there is one.
pub open spec fn target_for(nodes: Map<u128, NodeRecordView>, o: NodeId) -> Option<u128> {
    if exists|t: u128| is_least(healthy_ids_except(nodes, o), t) {
        Some(choose|t: u128| is_least(healthy_ids_except(nodes, o), t))
    } else {
        None
    }
}

/// `list` followed by the elements of `items` that are not yet in it, in order.
pub open spec fn append_absent(list: Seq<ServiceId>, items: Seq<ServiceId>) -> Seq<ServiceId>
    decreases items.len(),
{
    if items.len() == 0 {
        list
    } else {
        let l = append_absent(list, items.drop_last());
        if l.contains(items.last()) {
            l
        } else {
            l.push(items.last())
        }
    }
}

/// The assignment table, the observed statuses and the services that found no node.
pub struct ReassignOutcome {
    pub assignments: Map<u128, Seq<ServiceId>>,
    pub observed: Map<u128, Map<u128, ServiceStatus>>,
    pub unscheduled: Seq<ServiceId>,
}

/// Reassignment away from one offline node `o`: its list and its observed statuses go; its
/// services join the target's list (those not there yet), or, with no target, the
/// unscheduled services.
pub open spec fn reassign_step(nodes: Map<u128, NodeRecordView>, st: ReassignOutcome, o: NodeId) -> ReassignOutcome {
    let orphaned = list_or_empty(st.assignments, o.0);
    let a1 = st.assignments.remove(o.0);
    let b1 = st.observed.remove(o.0);
    match target_for(nodes, o) {
        Some(t) => ReassignOutcome {
            assignments: if orphaned.len() == 0 {
                a1
            } else {
                a1.insert(t, append_absent(list_or_empty(a1, t), orphaned))
            },
            observed: b1,
            unscheduled: st.unscheduled,
        },
        None => ReassignOutcome { assignments: a1, observed: b1, unscheduled: st.unscheduled + orphaned },
    }
}

/// Reassignment away from each node of `offs` in turn.
pub open spec fn reassign_all(nodes: Map<u128, NodeRecordView>, st: ReassignOutcome, offs: Seq<NodeId>) -> ReassignOutcome
    decreases offs.len(),
{
    if offs.len() == 0 {
        st
    } else {
        reassign_step(nodes, reassign_all(nodes, st, offs.drop_last()), offs.last())
    }
}

/// The identities of the offline records among the keys `ks`, in the order of `ks`.
pub open spec fn offline_ids(ks: Seq<u128>, nodes: Map<u128, NodeRecordView>) -> Seq<NodeId>
    decreases ks.len(),
{
    if ks.len() == 0 {
        Seq::empty()
    } else if nodes[ks.last()].status == NodeStatus::Offline {
        offline_ids(ks.drop_last(), nodes).push(nodes[ks.last()].id)
    } else {
        offline_ids(ks.drop_last(), nodes)
    }
}

/// `offs` lists the identities of the offline records in some order of the node table.
pub open spec fn lists_offline(nodes: Map<u128, NodeRecordView>, offs: Seq<NodeId>) -> bool {
    exists|ks: Seq<u128>| ks.no_duplicates() && ks.to_set() == nodes.dom() && offs == offline_ids(ks, nodes)
}

/// The outcome that the controller state starts reassignment from.
pub open spec fn start_of(s: ControllerStateView) -> ReassignOutcome {
    ReassignOutcome { assignments: s.assignments, observed: s.observed, unscheduled: Seq::empty() }
}


/// Every record is stored under the value of its own identity.
pub open spec fn keyed_by_id(nodes: Map<u128, NodeRecordView>) -> bool {
    forall|k: u128| #[trigger] nodes.contains_key(k) ==> nodes[k].id.0 == k
}

/// `o` is the identity of an offline record stored under it.
pub open spec fn is_offline_id(nodes: Map<u128, NodeRecordView>, o: NodeId) -> bool {
    nodes.contains_key(o.0) && nodes[o.0].status == NodeStatus::Offline
}

proof fn lemma_offline_ids_members(ks: Seq<u128>, nodes: Map<u128, NodeRecordView>)
    ensures
        forall|x: NodeId| #[trigger] offline_ids(ks, nodes).contains(x) ==> exists|k: u128|
            #![trigger nodes[k]] ks.contains(k) && nodes[k].status == NodeStatus::Offline && nodes[k].id == x,
        forall|k: u128| #[trigger] ks.contains(k) && nodes[k].status == NodeStatus::Offline ==> offline_ids(ks, nodes).contains(nodes[k].id),
    decreases ks.len(),
{
    if ks.len() > 0 {
        let d = ks.drop_last();
        lemma_offline_ids_members(d, nodes);
        let r = offline_ids(ks, nodes);
        let rd = offline_ids(d, nodes);
        assert forall|x: NodeId| #[trigger] r.contains(x) implies exists|k: u128|
            #![trigger nodes[k]] ks.contains(k) && nodes[k].status == NodeStatus::Offline && nodes[k].id == x by {
            let q = choose|q: int| 0 <= q < r.len() && #[trigger] r[q] == x;
            if q < rd.len() {
                assert(rd[q] == x);
                assert(rd.contains(x));
                let k = choose|k: u128| #![trigger nodes[k]] d.contains(k) && nodes[k].status == NodeStatus::Offline && nodes[k].id == x;
                let p = choose|p: int| 0 <= p < d.len() && #[trigger] d[p] == k;
                assert(ks[p] == k);
                assert(ks.contains(k));
            } else {
                assert(ks[ks.len() - 1] == ks.last());
                assert(ks.contains(ks.last()));
            }
        }
        assert forall|k: u128| #[trigger] ks.contains(k) && nodes[k].status == NodeStatus::Offline implies r.contains(nodes[k].id) by {
            let p = choose|p: int| 0 <= p < ks.len() && #[trigger] ks[p] == k;
            if p < d.len() {
                assert(d[p] == k);
                assert(d.contains(k));
                assert(rd.contains(nodes[k].id));
                let q = choose|q: int| 0 <= q < rd.len() && #[trigger] rd[q] == nodes[k].id;
                assert(r[q] == nodes[k].id);
            } else {
                assert(r[r.len() - 1] == nodes[k].id);
            }
        }
    }
}

/// Under identity keys, a listing of the offline records holds exactly the offline
/// identities, each once.
proof fn lemma_listing(nodes: Map<u128, NodeRecordView>, offs: Seq<NodeId>)
    requires
        keyed_by_id(nodes),
        lists_offline(nodes, offs),
    ensures
        forall|x: NodeId| #[trigger] offs.contains(x) ==> is_offline_id(nodes, x),
        forall|k: u128| nodes.contains_key(k) && #[trigger] nodes[k].status == NodeStatus::Offline ==> offs.contains(NodeId(k)),
{
    let ks = choose|ks: Seq<u128>| ks.no_duplicates() && ks.to_set() == nodes.dom() && offs == offline_ids(ks, nodes);
    lemma_offline_ids_members(ks, nodes);
    assert forall|x: NodeId| #[trigger] offs.contains(x) implies is_offline_id(nodes, x) by {
        let k = choose|k: u128| #![trigger nodes[k]] ks.contains(k) && nodes[k].status == NodeStatus::Offline && nodes[k].id == x;
        assert(ks.to_set().contains(k));
        assert(nodes.contains_key(k));
        assert(x.0 == k);
    }
    assert forall|k: u128| nodes.contains_key(k) && #[trigger] nodes[k].status == NodeStatus::Offline implies offs.contains(NodeId(k)) by {
        assert(ks.to_set().contains(k));
        assert(ks.contains(k));
        assert(nodes[k].id == NodeId(k));
    }
}

proof fn lemma_target_is_healthy(nodes: Map<u128, NodeRecordView>, o: NodeId)
    requires
        keyed_by_id(nodes),
    ensures
        target_for(nodes, o) matches Some(t) ==> nodes.contains_key(t) && nodes[t].status == NodeStatus::Healthy,
{
    if let Some(t) = target_for(nodes, o) {
        let h = healthy_ids_except(nodes, o);
        assert(is_least(h, t));
        assert(h.contains(t));
        let k = choose|k: u128| #![trigger nodes[k]] nodes.contains_key(k) && nodes[k].status == NodeStatus::Healthy && nodes[k].id.0 == t && nodes[k].id != o;
        assert(nodes[k].id.0 == k);
    }
}

/// `o` is the identity carried by some offline record.
pub open spec fn is_offline_record_id(nodes: Map<u128, NodeRecordView>, o: NodeId) -> bool {
    exists|k: u128| #![trigger nodes[k]] nodes.contains_key(k) && nodes[k].status == NodeStatus::Offline && nodes[k].id == o
}

/// No healthy record carries the identity of an offline record.
pub open spec fn offline_ids_apart(nodes: Map<u128, NodeRecordView>) -> bool {
    forall|j: u128, k: u128|
        #![trigger nodes[j], nodes[k]]
        nodes.contains_key(j) && nodes.contains_key(k) && nodes[j].status == NodeStatus::Healthy
            && nodes[k].status == NodeStatus::Offline ==> nodes[j].id != nodes[k].id
}

/// A table keyed by identity keeps healthy and offline identities apart.
pub proof fn lemma_keyed_ids_apart(nodes: Map<u128, NodeRecordView>)
    requires
        keyed_by_id(nodes),
    ensures
        offline_ids_apart(nodes),
{
    assert forall|j: u128, k: u128|
        #![trigger nodes[j], nodes[k]]
        nodes.contains_key(j) && nodes.contains_key(k) && nodes[j].status == NodeStatus::Healthy
            && nodes[k].status == NodeStatus::Offline implies nodes[j].id != nodes[k].id by {
        assert(nodes[j].id.0 == j && nodes[k].id.0 == k);
    }
}

/// A listing of the offline records holds exactly the identities of offline records.
proof fn lemma_listing_ids(nodes: Map<u128, NodeRecordView>, offs: Seq<NodeId>)
    requires
        lists_offline(nodes, offs),
    ensures
        forall|x: NodeId| #[trigger] offs.contains(x) ==> is_offline_record_id(nodes, x),
        forall|k: u128| nodes.contains_key(k) && #[trigger] nodes[k].status == NodeStatus::Offline ==> offs.contains(nodes[k].id),
{
    let ks = choose|ks: Seq<u128>| ks.no_duplicates() && ks.to_set() == nodes.dom() && offs == offline_ids(ks, nodes);
    lemma_offline_ids_members(ks, nodes);
    assert forall|x: NodeId| #[trigger] offs.contains(x) implies is_offline_record_id(nodes, x) by {
        let k = choose|k: u128| #![trigger nodes[k]] ks.contains(k) && nodes[k].status == NodeStatus::Offline && nodes[k].id == x;
        assert(ks.to_set().contains(k));
    }
    assert forall|k: u128| nodes.contains_key(k) && #[trigger] nodes[k].status == NodeStatus::Offline implies offs.contains(nodes[k].id) by {
        assert(ks.to_set().contains(k));
        assert(ks.contains(k));
    }
}

/// The target of any offline node is not the identity of an offline record.
proof fn lemma_target_not_offline(nodes: Map<u128, NodeRecordView>, o: NodeId, x: NodeId)
    requires
        offline_ids_apart(nodes),
        is_offline_record_id(nodes, x),
    ensures
        target_for(nodes, o) matches Some(t) ==> t != x.0,
{
    if let Some(t) = target_for(nodes, o) {
        let h = healthy_ids_except(nodes, o);
        assert(is_least(h, t));
        assert(h.contains(t));
        let j = choose|j: u128| #![trigger nodes[j]] nodes.contains_key(j) && nodes[j].status == NodeStatus::Healthy && nodes[j].id.0 == t && nodes[j].id != o;
        let k = choose|k: u128| #![trigger nodes[k]] nodes.contains_key(k) && nodes[k].status == NodeStatus::Offline && nodes[k].id == x;
        assert(nodes[j].id != nodes[k].id);
        if t == x.0 {
            assert(nodes[j].id == NodeId(nodes[j].id.0));
            assert(x == NodeId(x.0));
        }
    }
}

/// Every offline identity listed has neither a list nor observed statuses afterwards.
proof fn lemma_reassign_clears(nodes: Map<u128, NodeRecordView>, st: ReassignOutcome, offs: Seq<NodeId>)
    requires
        offline_ids_apart(nodes),
        forall|x: NodeId| #[trigger] offs.contains(x) ==> is_offline_record_id(nodes, x),
    ensures
        forall|x: NodeId| #[trigger] offs.contains(x) ==> !reassign_all(nodes, st, offs).assignments.contains_key(x.0)
            && !reassign_all(nodes, st, offs).observed.contains_key(x.0),
    decreases offs.len(),
{
    if offs.len() > 0 {
        let d = offs.drop_last();
        assert forall|x: NodeId| #[trigger] d.contains(x) implies is_offline_record_id(nodes, x) by {
            let q = choose|q: int| 0 <= q < d.len() && #[trigger] d[q] == x;
            assert(offs[q] == x);
            assert(offs.contains(x));
        }
        lemma_reassign_clears(nodes, st, d);
        let o = offs.last();
        assert(offs.contains(o)) by { assert(offs[offs.len() - 1] == o); }
        let prev = reassign_all(nodes, st, d);
        let r = reassign_step(nodes, prev, o);
        assert forall|x: NodeId| #[trigger] offs.contains(x) implies !r.assignments.contains_key(x.0) && !r.observed.contains_key(x.0) by {
            let q = choose|q: int| 0 <= q < offs.len() && #[trigger] offs[q] == x;
            if q < d.len() {
                assert(d[q] == x);
                assert(d.contains(x));
            }
            assert(is_offline_record_id(nodes, x));
            lemma_target_not_offline(nodes, o, x);
        }
    }
}

/// Reassignment away from an offline node that has neither a list nor observed statuses
/// changes nothing.
proof fn lemma_reassign_noop(nodes: Map<u128, NodeRecordView>, st: ReassignOutcome, offs: Seq<NodeId>)
    requires
        forall|x: NodeId| #[trigger] offs.contains(x) ==> !st.assignments.contains_key(x.0) && !st.observed.contains_key(x.0),
    ensures
        reassign_all(nodes, st, offs) == st,
    decreases offs.len(),
{
    if offs.len() > 0 {
        let d = offs.drop_last();
        assert forall|x: NodeId| #[trigger] d.contains(x) implies !st.assignments.contains_key(x.0) && !st.observed.contains_key(x.0) by {
            let q = choose|q: int| 0 <= q < d.len() && #[trigger] d[q] == x;
            assert(offs[q] == x);
            assert(offs.contains(x));
        }
        lemma_reassign_noop(nodes, st, d);
        let o = offs.last();
        assert(offs.contains(o)) by { assert(offs[offs.len() - 1] == o); }
        assert(list_or_empty(st.assignments, o.0) == Seq::<ServiceId>::empty());
        assert(st.assignments.remove(o.0) =~= st.assignments);
        assert(st.observed.remove(o.0) =~= st.observed);
        assert(st.unscheduled + Seq::<ServiceId>::empty() =~= st.unscheduled);
    }
}

/// When no healthy record carries the identity of an offline record, no offline node keeps a
/// list or observed statuses under its identity after reassignment.
pub proof fn reassignment_clears_offline_nodes(s: ControllerStateView, offs: Seq<NodeId>)
    requires
        offline_ids_apart(s.nodes),
        lists_offline(s.nodes, offs),
    ensures
        forall|k: u128| s.nodes.contains_key(k) && #[trigger] s.nodes[k].status == NodeStatus::Offline ==>
            !reassign_all(s.nodes, start_of(s), offs).assignments.contains_key(s.nodes[k].id.0)
            && !reassign_all(s.nodes, start_of(s), offs).observed.contains_key(s.nodes[k].id.0),
{
    lemma_listing_ids(s.nodes, offs);
    lemma_reassign_clears(s.nodes, start_of(s), offs);
    assert forall|k: u128| s.nodes.contains_key(k) && #[trigger] s.nodes[k].status == NodeStatus::Offline implies
        !reassign_all(s.nodes, start_of(s), offs).assignments.contains_key(s.nodes[k].id.0)
        && !reassign_all(s.nodes, start_of(s), offs).observed.contains_key(s.nodes[k].id.0) by {
        assert(offs.contains(s.nodes[k].id));
    }
}

/// When no healthy record carries the identity of an offline record, a second reassignment,
/// whatever order it visits the offline nodes in, changes nothing and leaves nothing
/// unscheduled.
pub proof fn reassignment_is_idempotent(s: ControllerStateView, offs1: Seq<NodeId>, offs2: Seq<NodeId>)
    requires
        offline_ids_apart(s.nodes),
        lists_offline(s.nodes, offs1),
        lists_offline(s.nodes, offs2),
    ensures
        ({
            let once = reassign_all(s.nodes, start_of(s), offs1);
            let again = reassign_all(
                s.nodes,
                ReassignOutcome { assignments: once.assignments, observed: once.observed, unscheduled: Seq::empty() },
                offs2,
            );
            &&& again.assignments == once.assignments
            &&& again.observed == once.observed
            &&& again.unscheduled == Seq::<ServiceId>::empty()
        }),
{
    let once = reassign_all(s.nodes, start_of(s), offs1);
    let st = ReassignOutcome { assignments: once.assignments, observed: once.observed, unscheduled: Seq::empty() };
    lemma_listing_ids(s.nodes, offs1);
    lemma_listing_ids(s.nodes, offs2);
    lemma_reassign_clears(s.nodes, start_of(s), offs1);
    assert forall|x: NodeId| #[trigger] offs2.contains(x) implies !st.assignments.contains_key(x.0) && !st.observed.contains_key(x.0) by {
        assert(is_offline_record_id(s.nodes, x));
        let k = choose|k: u128| #![trigger s.nodes[k]] s.nodes.contains_key(k) && s.nodes[k].status == NodeStatus::Offline && s.nodes[k].id == x;
        assert(offs1.contains(s.nodes[k].id));
    }
    lemma_reassign_noop(s.nodes, st, offs2);
}

/// The keys of the healthy records.
pub open spec fn healthy_node_keys(nodes: Map<u128, NodeRecordView>) -> Set<u128> {
    nodes.dom().filter(|k: u128| nodes[k].status == NodeStatus::Healthy)
}

/// The least key of a healthy record, if there is one.
pub open spec fn least_healthy(nodes: Map<u128, NodeRecordView>) -> Option<u128> {
    if exists|t: u128| is_least(healthy_node_keys(nodes), t) {
        Some(choose|t: u128| is_least(healthy_node_keys(nodes), t))
    } else {
        None
    }
}

proof fn lemma_append_absent(list: Seq<ServiceId>, items: Seq<ServiceId>)
    ensures
        forall|x: ServiceId| list.contains(x) ==> #[trigger] append_absent(list, items).contains(x),
        forall|x: ServiceId| items.contains(x) ==> #[trigger] append_absent(list, items).contains(x),
    decreases items.len(),
{
    if items.len() > 0 {
        let d = items.drop_last();
        lemma_append_absent(list, d);
        let l = append_absent(list, d);
        let r = append_absent(list, items);
        assert forall|x: ServiceId| l.contains(x) implies r.contains(x) by {
            if !l.contains(items.last()) {
                let q = choose|q: int| 0 <= q < l.len() && #[trigger] l[q] == x;
                assert(r[q] == x);
            }
        }
        assert forall|x: ServiceId| items.contains(x) implies #[trigger] r.contains(x) by {
            let q = choose|q: int| 0 <= q < items.len() && #[trigger] items[q] == x;
            if q < d.len() {
                assert(d[q] == x);
                assert(d.contains(x));
                assert(l.contains(x));
            } else if !l.contains(items.last()) {
                assert(r[l.len() as int] == x);
            }
        }
        assert forall|x: ServiceId| list.contains(x) implies #[trigger] r.contains(x) by {
            assert(l.contains(x));
        }
    }
}

proof fn lemma_target_is_least_healthy(nodes: Map<u128, NodeRecordView>, o: NodeId)
    requires
        keyed_by_id(nodes),
        is_offline_id(nodes, o),
    ensures
        target_for(nodes, o) == least_healthy(nodes),
{
    assert(healthy_ids_except(nodes, o) =~= healthy_node_keys(nodes)) by {
        assert forall|x: u128| healthy_ids_except(nodes, o).contains(x) <==> healthy_node_keys(nodes).contains(x) by {
            if healthy_ids_except(nodes, o).contains(x) {
                let k = choose|k: u128| #![trigger nodes[k]] nodes.contains_key(k) && nodes[k].status == NodeStatus::Healthy
                    && nodes[k].id.0 == x && nodes[k].id != o;
                assert(nodes[k].id.0 == k);
            }
            if healthy_node_keys(nodes).contains(x) {
                assert(nodes[x].id.0 == x);
                assert(nodes[x].id != o) by {
                    if nodes[x].id == o {
                        assert(nodes[o.0].status == NodeStatus::Offline);
                    }
                }
                assert(nodes.contains_key(x) && nodes[x].status == NodeStatus::Healthy && nodes[x].id.0 == x && nodes[x].id != o);
            }
        }
    }
}

/// A service held by node `k` of the starting table has arrived: on the least healthy node
/// when there is one, among the unscheduled services otherwise.
pub open spec fn arrived(nodes: Map<u128, NodeRecordView>, r: ReassignOutcome, x: ServiceId) -> bool {
    match least_healthy(nodes) {
        Some(t) => r.assignments.contains_key(t) && r.assignments[t].contains(x),
        None => r.unscheduled.contains(x),
    }
}

proof fn lemma_reassign_moves(
    nodes: Map<u128, NodeRecordView>,
    st: ReassignOutcome,
    offs: Seq<NodeId>,
)
    requires
        keyed_by_id(nodes),
        forall|x: NodeId| #[trigger] offs.contains(x) ==> is_offline_id(nodes, x),
    ensures
        forall|j: int, x: ServiceId| 0 <= j < offs.len() && #[trigger] list_or_empty(st.assignments, offs[j].0).contains(x)
            ==> arrived(nodes, reassign_all(nodes, st, offs), x),
        forall|o: NodeId| is_offline_id(nodes, o) && !offs.contains(o) ==>
            #[trigger] list_or_empty(reassign_all(nodes, st, offs).assignments, o.0) == list_or_empty(st.assignments, o.0),
        forall|x: ServiceId| arrived(nodes, st, x) ==> #[trigger] arrived(nodes, reassign_all(nodes, st, offs), x),
        forall|k: u128, x: ServiceId| nodes.contains_key(k) && nodes[k].status == NodeStatus::Healthy
            && #[trigger] list_or_empty(st.assignments, k).contains(x) ==> list_or_empty(reassign_all(nodes, st, offs).assignments, k).contains(x),
    decreases offs.len(),
{
    if offs.len() > 0 {
        let d = offs.drop_last();
        assert forall|x: NodeId| #[trigger] d.contains(x) implies is_offline_id(nodes, x) by {
            let q = choose|q: int| 0 <= q < d.len() && #[trigger] d[q] == x;
            assert(offs[q] == x);
            assert(offs.contains(x));
        }
        lemma_reassign_moves(nodes, st, d);
        let o = offs.last();
        assert(offs.contains(o)) by { assert(offs[offs.len() - 1] == o); }
        lemma_target_is_healthy(nodes, o);
        lemma_target_is_least_healthy(nodes, o);
        let prev = reassign_all(nodes, st, d);
        let r = reassign_step(nodes, prev, o);
        assert(r == reassign_all(nodes, st, offs));
        let orphaned = list_or_empty(prev.assignments, o.0);
        let a1 = prev.assignments.remove(o.0);
        // one step keeps every arrival
        assert forall|x: ServiceId| arrived(nodes, prev, x) implies arrived(nodes, r, x) by {
            match least_healthy(nodes) {
                Some(t) => {
                    assert(t != o.0);
                    if orphaned.len() != 0 {
                        lemma_append_absent(list_or_empty(a1, t), orphaned);
                    }
                },
                None => {
                    let q = choose|q: int| 0 <= q < prev.unscheduled.len() && #[trigger] prev.unscheduled[q] == x;
                    assert(r.unscheduled[q] == x);
                },
            }
        }
        // the orphaned services of this step arrive
        assert forall|x: ServiceId| #[trigger] orphaned.contains(x) implies arrived(nodes, r, x) by {
            match least_healthy(nodes) {
                Some(t) => {
                    lemma_append_absent(list_or_empty(a1, t), orphaned);
                },
                None => {
                    let q = choose|q: int| 0 <= q < orphaned.len() && #[trigger] orphaned[q] == x;
                    assert(r.unscheduled[prev.unscheduled.len() + q] == x);
                },
            }
        }
        assert forall|j: int, x: ServiceId| 0 <= j < offs.len() && #[trigger] list_or_empty(st.assignments, offs[j].0).contains(x)
            implies arrived(nodes, r, x) by {
            if j < d.len() {
                assert(d[j] == offs[j]);
                assert(list_or_empty(st.assignments, d[j].0).contains(x));
            } else if d.contains(o) {
                let j2 = choose|j2: int| 0 <= j2 < d.len() && #[trigger] d[j2] == o;
                assert(list_or_empty(st.assignments, d[j2].0).contains(x));
            } else {
                assert(list_or_empty(prev.assignments, o.0) == list_or_empty(st.assignments, o.0));
                assert(orphaned.contains(x));
            }
        }
        assert forall|o2: NodeId| is_offline_id(nodes, o2) && !offs.contains(o2) implies
            #[trigger] list_or_empty(r.assignments, o2.0) == list_or_empty(st.assignments, o2.0) by {
            assert(!d.contains(o2)) by {
                if d.contains(o2) {
                    let q = choose|q: int| 0 <= q < d.len() && #[trigger] d[q] == o2;
                    assert(offs[q] == o2);
                }
            }
            assert(o2 != o);
            assert(o2.0 != o.0) by {
                if o2.0 == o.0 {
                    assert(o2 == NodeId(o2.0));
                    assert(o == NodeId(o.0));
                }
            }
            assert(list_or_empty(prev.assignments, o2.0) == list_or_empty(st.assignments, o2.0));
            assert(a1.contains_key(o2.0) == prev.assignments.contains_key(o2.0));
            match least_healthy(nodes) {
                Some(t) => {
                    assert(t != o2.0);
                    assert(r.assignments.contains_key(o2.0) == prev.assignments.contains_key(o2.0));
                    if prev.assignments.contains_key(o2.0) {
                        assert(r.assignments[o2.0] == prev.assignments[o2.0]);
                    }
                },
                None => {
                    assert(r.assignments == a1);
                },
            }
        }
        assert forall|k: u128, x: ServiceId| nodes.contains_key(k) && nodes[k].status == NodeStatus::Healthy
            && #[trigger] list_or_empty(st.assignments, k).contains(x) implies list_or_empty(r.assignments, k).contains(x) by {
            assert(list_or_empty(prev.assignments, k).contains(x));
            assert(k != o.0);
            match least_healthy(nodes) {
                Some(t) => {
                    if k == t && orphaned.len() != 0 {
                        lemma_append_absent(list_or_empty(a1, t), orphaned);
                    }
                },
                None => {},
            }
        }
    }
}

/// When every record is stored under its own identity, every service that an offline node
/// held arrives: on the healthy node with the least identity when there is one, among the
/// unscheduled services otherwise. Healthy nodes keep every service they held.
pub proof fn reassignment_keeps_services(s: ControllerStateView, offs: Seq<NodeId>)
    requires
        keyed_by_id(s.nodes),
        lists_offline(s.nodes, offs),
    ensures
        forall|k: u128, x: ServiceId| s.nodes.contains_key(k) && s.nodes[k].status == NodeStatus::Offline
            && #[trigger] list_or_empty(s.assignments, k).contains(x) ==> arrived(s.nodes, reassign_all(s.nodes, start_of(s), offs), x),
        forall|k: u128, x: ServiceId| s.nodes.contains_key(k) && s.nodes[k].status == NodeStatus::Healthy
            && #[trigger] list_or_empty(s.assignments, k).contains(x) ==>
            list_or_empty(reassign_all(s.nodes, start_of(s), offs).assignments, k).contains(x),
{
    lemma_listing(s.nodes, offs);
    lemma_reassign_moves(s.nodes, start_of(s), offs);
    assert forall|k: u128, x: ServiceId| s.nodes.contains_key(k) && s.nodes[k].status == NodeStatus::Healthy
        && #[trigger] list_or_empty(s.assignments, k).contains(x) implies
        list_or_empty(reassign_all(s.nodes, start_of(s), offs).assignments, k).contains(x) by {
        assert(list_or_empty(start_of(s).assignments, k).contains(x));
    }
    assert forall|k: u128, x: ServiceId| s.nodes.contains_key(k) && s.nodes[k].status == NodeStatus::Offline
        && #[trigger] list_or_empty(s.assignments, k).contains(x) implies arrived(s.nodes, reassign_all(s.nodes, start_of(s), offs), x) by {
        assert(offs.contains(NodeId(k)));
        let j = choose|j: int| 0 <= j < offs.len() && #[trigger] offs[j] == NodeId(k);
        assert(list_or_empty(start_of(s).assignments, offs[j].0).contains(x));
    }
}

/// The target of the services of offline node `o`.
fn find_target(nodes: &HashMap<u128, NodeRecord>, o: NodeId) -> (t: Option<u128>)
    ensures
        t == target_for(nodes_view(*nodes), o),
{
    let ghost nv = nodes_view(*nodes);
    let ks = keys_of(nodes);
    let mut best: Option<u128> = None;
    let mut i: usize = 0;
    while i < ks.len()
        invariant
            i <= ks.len(),
            ks@.to_set() == nodes@.dom(),
            nv == nodes_view(*nodes),
            match best {
                None => forall|j: int| #![trigger ks@[j]] 0 <= j < i ==> !(nv[ks@[j]].status == NodeStatus::Healthy && nv[ks@[j]].id != o),
                Some(b) => {
                    &&& healthy_ids_except(nv, o).contains(b)
                    &&& forall|j: int| #![trigger ks@[j]] 0 <= j < i ==> (nv[ks@[j]].status == NodeStatus::Healthy && nv[ks@[j]].id != o)
                        ==> b <= nv[ks@[j]].id.0
                },
            },
        decreases ks.len() - i,
    {
        let k = ks[i];
        assert(ks@.to_set().contains(k));
        let rec = nodes.get(&k).unwrap();
        if rec.status == NodeStatus::Healthy && rec.id != o {
            proof {
                assert(healthy_ids_except(nv, o).contains(rec.id.0)) by {
                    assert(nv.contains_key(k) && nv[k].status == NodeStatus::Healthy && nv[k].id.0 == rec.id.0 && nv[k].id != o);
                }
            }
            match best {
                None => {
                    best = Some(rec.id.0);
                },
                Some(b) => {
                    if rec.id.0 < b {
                        best = Some(rec.id.0);
                    }
                },
            }
        }
        i = i + 1;
    }
    proof {
        let h = healthy_ids_except(nv, o);
        match best {
            None => {
                assert forall|t: u128| !is_least(h, t) by {
                    if h.contains(t) {
                        let k = choose|k: u128| #![trigger nv[k]] nv.contains_key(k) && nv[k].status == NodeStatus::Healthy && nv[k].id.0 == t && nv[k].id != o;
                        assert(ks@.to_set().contains(k));
                        let j = choose|j: int| 0 <= j < ks@.len() && ks@[j] == k;
                        assert(!(nv[ks@[j]].status == NodeStatus::Healthy && nv[ks@[j]].id != o));
                    }
                }
            },
            Some(b) => {
                assert forall|x: u128| h.contains(x) implies b <= x by {
                    let k = choose|k: u128| #![trigger nv[k]] nv.contains_key(k) && nv[k].status == NodeStatus::Healthy && nv[k].id.0 == x && nv[k].id != o;
                    assert(ks@.to_set().contains(k));
                    let j = choose|j: int| 0 <= j < ks@.len() && ks@[j] == k;
                    assert(nv[ks@[j]].status == NodeStatus::Healthy && nv[ks@[j]].id != o);
                }
                assert(is_least(h, b));
                let c = choose|c: u128| is_least(h, c);
                assert(c <= b && b <= c);
            },
        }
    }
    best
}

/// The identities of the offline records, in the order in which the node table yields them.
pub fn offline_node_ids(nodes: &HashMap<u128, NodeRecord>) -> (offs: Vec<NodeId>)
    ensures
        lists_offline(nodes_view(*nodes), offs@),
{
    let ghost nv = nodes_view(*nodes);
    let ks = keys_of(nodes);
    let mut offs: Vec<NodeId> = Vec::new();
    let mut i: usize = 0;
    while i < ks.len()
        invariant
            i <= ks.len(),
            ks@.to_set() == nodes@.dom(),
            nv == nodes_view(*nodes),
            offs@ == offline_ids(ks@.take(i as int), nv),
        decreases ks.len() - i,
    {
        let k = ks[i];
        assert(ks@.to_set().contains(k));
        let rec = nodes.get(&k).unwrap();
        assert(ks@.take(i + 1).drop_last() == ks@.take(i as int));
        if rec.status == NodeStatus::Offline {
            offs.push(rec.id);
        }
        i = i + 1;
    }
    assert(ks@.take(i as int) == ks@);
    assert(nv.dom() =~= nodes@.dom());
    assert(ks@.no_duplicates() && ks@.to_set() == nv.dom() && offs@ == offline_ids(ks@, nv));
    offs
}

impl ControllerState {
    /// Reassigns away from each node of `offs` in turn; see [`reassign_all`]. The result is
    /// the list of services that found no node.
    pub fn reassign_listed(&mut self, offs: &Vec<NodeId>) -> (unscheduled: Vec<ServiceId>)
        ensures
            final(self)@.nodes == old(self)@.nodes,
            final(self)@.services == old(self)@.services,
            final(self)@.assignments == reassign_all(old(self)@.nodes, start_of(old(self)@), offs@).assignments,
            final(self)@.observed == reassign_all(old(self)@.nodes, start_of(old(self)@), offs@).observed,
            unscheduled@ == reassign_all(old(self)@.nodes, start_of(old(self)@), offs@).unscheduled,
    {
        let ghost nv = old(self)@.nodes;
        let ghost st0 = start_of(old(self)@);
        let mut unscheduled: Vec<ServiceId> = Vec::new();
        let mut i: usize = 0;
        while i < offs.len()
            invariant
                i <= offs.len(),
                self@.nodes == nv,
                self@.services == old(self)@.services,
                self@.assignments == reassign_all(nv, st0, offs@.take(i as int)).assignments,
                self@.observed == reassign_all(nv, st0, offs@.take(i as int)).observed,
                unscheduled@ == reassign_all(nv, st0, offs@.take(i as int)).unscheduled,
            decreases offs.len() - i,
        {
            let o = offs[i];
            let ghost st = reassign_all(nv, st0, offs@.take(i as int));
            assert(offs@.take(i + 1).drop_last() == offs@.take(i as int));
            assert(offs@.take(i + 1).last() == o);
            let orphaned: Vec<ServiceId> = match self.assignments.remove(&o.0) {
                Some(l) => l,
                None => Vec::new(),
            };
            assert(orphaned@ == list_or_empty(st.assignments, o.0));
            self.observed.remove(&o.0);
            assert(self@.observed =~= st.observed.remove(o.0));
            let target = find_target(&self.nodes, o);
            match target {
                Some(t) => {
                    if orphaned.len() > 0 {
                        let ghost a1 = self@.assignments;
                        let mut list: Vec<ServiceId> = match self.assignments.remove(&t) {
                            Some(l) => l,
                            None => Vec::new(),
                        };
                        assert(list@ == list_or_empty(a1, t));
                        let mut q: usize = 0;
                        while q < orphaned.len()
                            invariant
                                q <= orphaned.len(),
                                list@ == append_absent(list_or_empty(a1, t), orphaned@.take(q as int)),
                            decreases orphaned.len() - q,
                        {
                            let sid = orphaned[q];
                            assert(orphaned@.take(q + 1).drop_last() == orphaned@.take(q as int));
                            if !vec_contains_service(&list, sid) {
                                list.push(sid);
                            }
                            q = q + 1;
                        }
                        assert(orphaned@.take(q as int) == orphaned@);
                        self.assignments.insert(t, list);
                        assert(self@.assignments =~= a1.insert(t, append_absent(list_or_empty(a1, t), orphaned@)));
                    }
                    assert(self@.assignments =~= reassign_step(nv, st, o).assignments);
                },
                None => {
                    let mut q: usize = 0;
                    let ghost u0 = unscheduled@;
                    while q < orphaned.len()
                        invariant
                            q <= orphaned.len(),
                            unscheduled@ == u0 + orphaned@.take(q as int),
                        decreases orphaned.len() - q,
                    {
                        unscheduled.push(orphaned[q]);
                        assert(orphaned@.take(q + 1) == orphaned@.take(q as int).push(orphaned@[q as int]));
                        q = q + 1;
                    }
                    assert(orphaned@.take(q as int) == orphaned@);
                    assert(self@.assignments =~= reassign_step(nv, st, o).assignments);
                },
            }
            i = i + 1;
        }
        assert(offs@.take(i as int) == offs@);
        unscheduled
    }

    /// Reassigns the services of every offline node: each node's list and observed statuses
    /// go, and its services move to the healthy node with the least identity, or are returned
    /// as unscheduled when there is none. The offline nodes are visited in the order in which
    /// the node table yields them.
    pub fn reassign_from_offline_nodes(&mut self) -> (unscheduled: Vec<ServiceId>)
        ensures
            final(self)@.nodes == old(self)@.nodes,
            final(self)@.services == old(self)@.services,
            exists|offs: Seq<NodeId>| {
                &&& lists_offline(old(self)@.nodes, offs)
                &&& final(self)@.assignments == reassign_all(old(self)@.nodes, start_of(old(self)@), offs).assignments
                &&& final(self)@.observed == reassign_all(old(self)@.nodes, start_of(old(self)@), offs).observed
                &&& unscheduled@ == reassign_all(old(self)@.nodes, start_of(old(self)@), offs).unscheduled
            },
    {
        let offs = offline_node_ids(&self.nodes);
        self.reassign_listed(&offs)
    }
}

/// Reassigns the services of every offline node of `state`; see
/// [`ControllerState::reassign_from_offline_nodes`].
pub fn reassign_from_offline_nodes(state: &mut ControllerState) -> (unscheduled: Vec<ServiceId>)
    ensures
        final(state)@.nodes == old(state)@.nodes,
        final(state)@.services == old(state)@.services,
        exists|offs: Seq<NodeId>| {
            &&& lists_offline(old(state)@.nodes, offs)
            &&& final(state)@.assignments == reassign_all(old(state)@.nodes, start_of(old(state)@), offs).assignments
            &&& final(state)@.observed == reassign_all(old(state)@.nodes, start_of(old(state)@), offs).observed
            &&& unscheduled@ == reassign_all(old(state)@.nodes, start_of(old(state)@), offs).unscheduled
        },
{
    state.reassign_from_offline_nodes()
}

} // verus!
