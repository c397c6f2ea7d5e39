use vstd::prelude::*;
use std::collections::HashMap;

use crate::assignment_engine::list_or_empty;
use crate::collections::{keys_of, lemma_take_next_contains};
use crate::controller_state::{nodes_view, ControllerState, ControllerStateView};
use crate::ids::{NodeId, ServiceId};
use crate::reassignment::{
    arrived, keyed_by_id, lemma_keyed_ids_apart, lists_offline, reassign_all, reassignment_clears_offline_nodes,
    reassignment_keeps_services, start_of,
};
use crate::node::{NodeRecord, NodeRecordView, NodeStatus};
use crate::node_registry::heartbeat_seen;
use crate::time::{elapsed_nanos, elapsed_since, Timestamp};

verus! {

broadcast use vstd::std_specs::hash::group_hash_axioms;

/// A record that is not yet offline and whose last heartbeat lies more than `timeout`
/// nanoseconds before `now`; a node that never sent one is not stale.
pub open spec fn is_stale(r: NodeRecordView, now: Timestamp, timeout: u128) -> bool {
    r.status != NodeStatus::Offline && match r.last_heartbeat {
        Some(last) => elapsed_nanos(now, last) > timeout,
        None => false,
    }
}

/// The identities of the stale records among the keys `ks`, in the order of `ks`.
pub open spec fn stale_ids(ks: Seq<u128>, nodes: Map<u128, NodeRecordView>, now: Timestamp, timeout: u128) -> Seq<NodeId>
    decreases ks.len(),
{
    if ks.len() == 0 {
        Seq::empty()
    } else if is_stale(nodes[ks.last()], now, timeout) {
        stale_ids(ks.drop_last(), nodes, now, timeout).push(nodes[ks.last()].id)
    } else {
        stale_ids(ks.drop_last(), nodes, now, timeout)
    }
}

/// A heartbeat keeps its node from going stale for as long as the timeout: at any time no
/// more than `timeout` nanoseconds after the heartbeat's stamp, the node is not stale,
/// whatever state it was in before.
pub proof fn heartbeat_keeps_node_fresh(r: NodeRecordView, stamp: Timestamp, now: Timestamp, timeout: u128)
    requires
        elapsed_nanos(now, stamp) <= timeout,
    ensures
        !is_stale(heartbeat_seen(r, stamp), now, timeout),
{
}

/// A node that has been marked offline is never stale again, so it is reported at most once.
pub proof fn offline_node_is_never_stale(r: NodeRecordView, now: Timestamp, timeout: u128)
    ensures
        !is_stale(NodeRecordView { status: NodeStatus::Offline, ..r }, now, timeout),
{
}

/// The nodes whose heartbeat is older than the timeout and that are not yet offline, in the
/// order in which the node table yields them.
pub fn stale_node_ids(nodes: &HashMap<u128, NodeRecord>, now: Timestamp, heartbeat_timeout_nanos: u128) -> (r: Vec<NodeId>)
    ensures
        exists|ks: Seq<u128>| {
            &&& ks.no_duplicates()
            &&& ks.to_set() == nodes@.dom()
            &&& r@ == stale_ids(ks, nodes_view(*nodes), now, heartbeat_timeout_nanos)
        },
{
    let ghost nv = nodes_view(*nodes);
    let ks = keys_of(nodes);
    let mut r: Vec<NodeId> = Vec::new();
    let mut i: usize = 0;
    while i < ks.len()
        invariant
            i <= ks.len(),
            ks@.to_set() == nodes@.dom(),
            nv == nodes_view(*nodes),
            r@ == stale_ids(ks@.take(i as int), nv, now, heartbeat_timeout_nanos),
        decreases ks.len() - i,
    {
        let k = ks[i];
        assert(ks@.to_set().contains(k));
        let node = nodes.get(&k).unwrap();
        assert(ks@.take(i + 1).drop_last() == ks@.take(i as int));
        let stale = match node.last_heartbeat {
            Some(last) => elapsed_since(now, last) > heartbeat_timeout_nanos,
            None => false,
        };
        if stale && node.status != NodeStatus::Offline {
            r.push(node.id);
        }
        i = i + 1;
    }
    assert(ks@.take(i as int) == ks@);
    r
}

/// The node table after every record stored under the identity of a member of `ids` has
/// been marked offline; the other records are unchanged.
pub open spec fn marked_offline(nodes: Map<u128, NodeRecordView>, ids: Seq<NodeId>) -> Map<u128, NodeRecordView> {
    Map::new(
        |k: u128| nodes.contains_key(k),
        |k: u128|
            if ids.contains(NodeId(k)) {
                NodeRecordView { status: NodeStatus::Offline, ..nodes[k] }
            } else {
                nodes[k]
            },
    )
}

proof fn lemma_stale_ids_members(ks: Seq<u128>, nodes: Map<u128, NodeRecordView>, now: Timestamp, timeout: u128)
    ensures
        forall|x: NodeId| #[trigger] stale_ids(ks, nodes, now, timeout).contains(x) ==> exists|k: u128|
            #![trigger nodes[k]] ks.contains(k) && is_stale(nodes[k], now, timeout) && nodes[k].id == x,
        forall|k: u128| #[trigger] ks.contains(k) && is_stale(nodes[k], now, timeout) ==> stale_ids(ks, nodes, now, timeout).contains(nodes[k].id),
    decreases ks.len(),
{
    if ks.len() > 0 {
        let d = ks.drop_last();
        lemma_stale_ids_members(d, nodes, now, timeout);
        let r = stale_ids(ks, nodes, now, timeout);
        let rd = stale_ids(d, nodes, now, timeout);
        assert forall|x: NodeId| #[trigger] r.contains(x) implies exists|k: u128|
            #![trigger nodes[k]] ks.contains(k) && is_stale(nodes[k], now, timeout) && nodes[k].id == x by {
            let q = choose|q: int| 0 <= q < r.len() && #[trigger] r[q] == x;
            if q < rd.len() {
                assert(rd[q] == x);
                assert(rd.contains(x));
                let k = choose|k: u128| #![trigger nodes[k]] d.contains(k) && is_stale(nodes[k], now, timeout) && nodes[k].id == x;
                let p = choose|p: int| 0 <= p < d.len() && #[trigger] d[p] == k;
                assert(ks[p] == k);
                assert(ks.contains(k));
            } else {
                assert(ks[ks.len() - 1] == ks.last());
                assert(ks.contains(ks.last()));
            }
        }
        assert forall|k: u128| #[trigger] ks.contains(k) && is_stale(nodes[k], now, timeout) implies r.contains(nodes[k].id) by {
            let p = choose|p: int| 0 <= p < ks.len() && #[trigger] ks[p] == k;
            if p < d.len() {
                assert(d[p] == k);
                assert(d.contains(k));
                assert(rd.contains(nodes[k].id));
                let q = choose|q: int| 0 <= q < rd.len() && #[trigger] rd[q] == nodes[k].id;
                assert(r[q] == nodes[k].id);
            } else {
                assert(r[r.len() - 1] == nodes[k].id);
            }
        }
    }
}

/// When every record is stored under its own identity, one pass of the failure detector
/// (find the stale nodes, mark them offline, reassign away from every offline node) takes
/// exactly the stale nodes offline and leaves every other record as it was; afterwards no
/// stale node keeps a list or observed statuses, each service it held has arrived on the
/// healthy node with the least identity (or among the unscheduled services when there is
/// none), and a healthy node that was not stale keeps every service it held.
pub proof fn watch_tick_takes_stale_nodes_offline(
    s: ControllerStateView,
    now: Timestamp,
    timeout: u128,
    ks: Seq<u128>,
    offs: Seq<NodeId>,
)
    requires
        keyed_by_id(s.nodes),
        ks.no_duplicates(),
        ks.to_set() == s.nodes.dom(),
        lists_offline(marked_offline(s.nodes, stale_ids(ks, s.nodes, now, timeout)), offs),
    ensures
        ({
            let m = marked_offline(s.nodes, stale_ids(ks, s.nodes, now, timeout));
            let out = reassign_all(m, start_of(s), offs);
            &&& m.dom() == s.nodes.dom()
            &&& forall|k: u128| s.nodes.contains_key(k) && #[trigger] is_stale(s.nodes[k], now, timeout) ==> {
                &&& m[k].status == NodeStatus::Offline
                &&& !out.assignments.contains_key(k)
                &&& !out.observed.contains_key(k)
            }
            &&& forall|k: u128| s.nodes.contains_key(k) && !is_stale(s.nodes[k], now, timeout) ==> #[trigger] m[k] == s.nodes[k]
            &&& forall|k: u128, x: ServiceId| s.nodes.contains_key(k) && is_stale(s.nodes[k], now, timeout)
                && #[trigger] list_or_empty(s.assignments, k).contains(x) ==> arrived(m, out, x)
            &&& forall|k: u128, x: ServiceId| s.nodes.contains_key(k) && s.nodes[k].status == NodeStatus::Healthy
                && !is_stale(s.nodes[k], now, timeout) && #[trigger] list_or_empty(s.assignments, k).contains(x)
                ==> list_or_empty(out.assignments, k).contains(x)
        }),
{
    let stale = stale_ids(ks, s.nodes, now, timeout);
    let m = marked_offline(s.nodes, stale);
    let mid = ControllerStateView { nodes: m, ..s };
    lemma_stale_ids_members(ks, s.nodes, now, timeout);
    assert(m.dom() =~= s.nodes.dom());
    assert forall|k: u128| s.nodes.contains_key(k) implies (#[trigger] stale.contains(NodeId(k))) == is_stale(s.nodes[k], now, timeout) by {
        if stale.contains(NodeId(k)) {
            let k2 = choose|k2: u128| #![trigger s.nodes[k2]] ks.contains(k2) && is_stale(s.nodes[k2], now, timeout) && s.nodes[k2].id == NodeId(k);
            assert(ks.to_set().contains(k2));
            assert(s.nodes[k2].id.0 == k2);
        }
        if is_stale(s.nodes[k], now, timeout) {
            assert(ks.to_set().contains(k));
            assert(ks.contains(k));
            assert(s.nodes[k].id == NodeId(k));
        }
    }
    assert(keyed_by_id(m));
    assert(start_of(mid) == start_of(s));
    lemma_keyed_ids_apart(m);
    reassignment_clears_offline_nodes(mid, offs);
    reassignment_keeps_services(mid, offs);
    assert forall|k: u128| s.nodes.contains_key(k) && #[trigger] is_stale(s.nodes[k], now, timeout) implies {
        &&& m[k].status == NodeStatus::Offline
        &&& !reassign_all(m, start_of(s), offs).assignments.contains_key(k)
        &&& !reassign_all(m, start_of(s), offs).observed.contains_key(k)
    } by {
        assert(stale.contains(NodeId(k)));
        assert(m.contains_key(k) && m[k].status == NodeStatus::Offline);
        assert(m[k].id.0 == k);
    }
    assert forall|k: u128| s.nodes.contains_key(k) && !is_stale(s.nodes[k], now, timeout) implies #[trigger] m[k] == s.nodes[k] by {
        assert(!stale.contains(NodeId(k)));
    }
    assert forall|k: u128, x: ServiceId| s.nodes.contains_key(k) && is_stale(s.nodes[k], now, timeout)
        && #[trigger] list_or_empty(s.assignments, k).contains(x) implies arrived(m, reassign_all(m, start_of(s), offs), x) by {
        assert(stale.contains(NodeId(k)));
        assert(m.contains_key(k) && m[k].status == NodeStatus::Offline);
        assert(list_or_empty(mid.assignments, k).contains(x));
    }
    assert forall|k: u128, x: ServiceId| s.nodes.contains_key(k) && s.nodes[k].status == NodeStatus::Healthy
        && !is_stale(s.nodes[k], now, timeout) && #[trigger] list_or_empty(s.assignments, k).contains(x)
        implies list_or_empty(reassign_all(m, start_of(s), offs).assignments, k).contains(x) by {
        assert(!stale.contains(NodeId(k)));
        assert(m.contains_key(k) && m[k].status == NodeStatus::Healthy);
        assert(list_or_empty(mid.assignments, k).contains(x));
    }
}

impl ControllerState {
    /// Marks offline every node of `ids` that is registered; the others are skipped.
    fn mark_nodes_offline(&mut self, ids: &Vec<NodeId>)
        ensures
            final(self)@ == (ControllerStateView { nodes: marked_offline(old(self)@.nodes, ids@), ..old(self)@ }),
    {
        let ghost s0 = old(self)@;
        let mut i: usize = 0;
        assert(marked_offline(s0.nodes, ids@.take(0)) =~= s0.nodes);
        while i < ids.len()
            invariant
                i <= ids.len(),
                self@ == (ControllerStateView { nodes: marked_offline(s0.nodes, ids@.take(i as int)), ..s0 }),
            decreases ids.len() - i,
        {
            let id = ids[i];
            let ghost before = self@.nodes;
            proof {
                lemma_take_next_contains(ids@, i as int);
            }
            let _ = self.mark_node_offline(id);
            assert(self@.nodes =~= marked_offline(s0.nodes, ids@.take(i + 1)));
            i = i + 1;
        }
        assert(ids@.take(i as int) == ids@);
    }

    /// One pass of the failure detector at time `now`: the nodes whose last heartbeat is more
    /// than `heartbeat_timeout_nanos` old and that are not offline yet are marked offline,
    /// then, when there was at least one, the services of every offline node are reassigned.
    /// Returns the nodes taken offline, in the order in which the node table yields them, and
    /// the services that found no node.
    pub fn watch_tick(&mut self, now: Timestamp, heartbeat_timeout_nanos: u128) -> (r: (Vec<NodeId>, Vec<ServiceId>))
        ensures
            final(self)@.nodes == marked_offline(old(self)@.nodes, r.0@),
            final(self)@.services == old(self)@.services,
            exists|ks: Seq<u128>| {
                &&& ks.no_duplicates()
                &&& ks.to_set() == old(self)@.nodes.dom()
                &&& r.0@ == stale_ids(ks, old(self)@.nodes, now, heartbeat_timeout_nanos)
            },
            r.0@.len() == 0 ==> final(self)@ == old(self)@ && r.1@.len() == 0,
            r.0@.len() > 0 ==> exists|offs: Seq<NodeId>| {
                &&& lists_offline(marked_offline(old(self)@.nodes, r.0@), offs)
                &&& final(self)@.assignments == reassign_all(final(self)@.nodes, start_of(old(self)@), offs).assignments
                &&& final(self)@.observed == reassign_all(final(self)@.nodes, start_of(old(self)@), offs).observed
                &&& r.1@ == reassign_all(final(self)@.nodes, start_of(old(self)@), offs).unscheduled
            },
    {
        let stale = stale_node_ids(&self.nodes, now, heartbeat_timeout_nanos);
        if stale.len() == 0 {
            assert(marked_offline(self@.nodes, stale@) =~= self@.nodes);
            return (stale, Vec::new());
        }
        self.mark_nodes_offline(&stale);
        let ghost mid = self@;
        let unscheduled = self.reassign_from_offline_nodes();
        assert(start_of(mid) == start_of(old(self)@));
        (stale, unscheduled)
    }
}

} // verus!
