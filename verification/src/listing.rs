use vstd::prelude::*;
use std::collections::HashMap;

use crate::api::NodeView;
use crate::collections::{
    increasing, keys_of, lemma_insert_ranked, ranked, sorted_ints, sorted_keys_of,
};
use crate::controller_state::{nodes_view, ControllerState};
use crate::ids::{NodeId, ServiceId};
use crate::node::{NodeRecord, NodeRecordView};
use crate::service::{ServiceAssignment, ServiceHealthReport, ServiceStatus};

verus! {

broadcast use {
    vstd::std_specs::hash::group_hash_axioms,
    vstd::multiset::group_multiset_axioms,
    vstd::seq_lib::group_to_multiset_ensures,
};

/// 2 to the 128th power.
pub open spec fn two_128() -> int {
    u128::MAX as int + 1
}

/// The rank of a pair of 128-bit values in lexicographic order.
pub open spec fn pair_rank(hi: u128, lo: u128) -> int {
    hi * two_128() + lo
}

/// Lexicographic order on pairs is the order of their ranks.
pub proof fn lemma_pair_rank(a1: u128, b1: u128, a2: u128, b2: u128)
    ensures
        (pair_rank(a1, b1) < pair_rank(a2, b2)) == (a1 < a2 || (a1 == a2 && b1 < b2)),
        (pair_rank(a1, b1) == pair_rank(a2, b2)) == (a1 == a2 && b1 == b2),
{
    let b = two_128();
    assert(0 <= b1 < b && 0 <= b2 < b);
    if a1 < a2 {
        assert(a1 * b + b1 < a2 * b + b2) by (nonlinear_arith)
            requires a1 < a2, 0 <= b1 < b, 0 <= b2, b > 0;
    } else if a1 > a2 {
        assert(a2 * b + b2 < a1 * b + b1) by (nonlinear_arith)
            requires a2 < a1, 0 <= b2 < b, 0 <= b1, b > 0;
    }
}

/// Node keys ordered by the identity of their record, then by key.
pub open spec fn node_rank(nodes: Map<u128, NodeRecordView>) -> spec_fn(u128) -> int {
    |k: u128| pair_rank(nodes[k].id.0, k)
}

/// `ks` lists every node key once, ordered by record identity, then by key.
pub open spec fn is_node_listing(nodes: Map<u128, NodeRecordView>, ks: Seq<u128>) -> bool {
    ranked(ks, node_rank(nodes)) && ks.to_set() == nodes.dom()
}

/// The rank of an assignment: node first, then service.
pub open spec fn assignment_rank(a: ServiceAssignment) -> int {
    pair_rank(a.node_id.0, a.service_id.0)
}

/// The ranks of `s` never decrease.
pub open spec fn assignments_sorted(s: Seq<ServiceAssignment>) -> bool {
    forall|i: int, j: int| 0 <= i < j < s.len() ==> assignment_rank(s[i]) <= assignment_rank(s[j])
}

/// How often a node holds a service, for a defined service; no times otherwise.
pub open spec fn pair_count(asg: Map<u128, Seq<ServiceId>>, services: Set<u128>, p: ServiceAssignment) -> nat {
    if asg.contains_key(p.node_id.0) && services.contains(p.service_id.0) {
        asg[p.node_id.0].to_multiset().count(p.service_id)
    } else {
        0
    }
}

/// A status report for a service.
pub open spec fn report_of(k: u128, status: ServiceStatus) -> ServiceHealthReport {
    ServiceHealthReport { service_id: ServiceId(k), status }
}

/// The reports of a status table in the order of the keys `ks`.
pub open spec fn reports_in(m: Map<u128, ServiceStatus>, ks: Seq<u128>) -> Seq<ServiceHealthReport> {
    ks.map_values(|k: u128| report_of(k, m[k]))
}

/// The reports a node made, in increasing order of service identity.
pub open spec fn sorted_reports(observed: Map<u128, Map<u128, ServiceStatus>>, id: u128) -> Seq<ServiceHealthReport> {
    if observed.contains_key(id) {
        reports_in(observed[id], sorted_ints(observed[id].dom()))
    } else {
        Seq::empty()
    }
}

fn node_key_before(nodes: &HashMap<u128, NodeRecord>, a: u128, b: u128) -> (r: bool)
    requires
        nodes@.contains_key(a),
        nodes@.contains_key(b),
    ensures
        r == (node_rank(nodes_view(*nodes))(a) < node_rank(nodes_view(*nodes))(b)),
{
    let ia = nodes.get(&a).unwrap().id.0;
    let ib = nodes.get(&b).unwrap().id.0;
    proof {
        lemma_pair_rank(ia, a, ib, b);
    }
    ia < ib || (ia == ib && a < b)
}

/// The node keys ordered by record identity, then by key.
fn node_listing(nodes: &HashMap<u128, NodeRecord>) -> (ks: Vec<u128>)
    ensures
        is_node_listing(nodes_view(*nodes), ks@),
{
    let ghost nv = nodes_view(*nodes);
    let ghost f = node_rank(nv);
    let all = keys_of(nodes);
    let mut r: Vec<u128> = Vec::new();
    let mut i: usize = 0;
    while i < all.len()
        invariant
            i <= all.len(),
            all@.no_duplicates(),
            all@.to_set() == nodes@.dom(),
            nv == nodes_view(*nodes),
            f == node_rank(nv),
            ranked(r@, f),
            r@.to_set() == all@.take(i as int).to_set(),
            forall|j: int| 0 <= j < r@.len() ==> nodes@.contains_key(#[trigger] r@[j]),
        decreases all.len() - i,
    {
        let k = all[i];
        assert(all@.to_set().contains(k));
        proof {
            assert(!r@.to_set().contains(k)) by {
                if all@.take(i as int).to_set().contains(k) {
                    let q = choose|q: int| 0 <= q < i && #[trigger] all@.take(i as int)[q] == k;
                    assert(all@[q] == all@[i as int]);
                }
            }
        }
        let mut p: usize = 0;
        while p < r.len() && node_key_before(nodes, r[p], k)
            invariant
                p <= r.len(),
                ranked(r@, f),
                nv == nodes_view(*nodes),
                f == node_rank(nv),
                r@.to_set() == all@.take(i as int).to_set(),
                all@.to_set() == nodes@.dom(),
                nodes@.contains_key(k),
                forall|j: int| 0 <= j < r@.len() ==> nodes@.contains_key(#[trigger] r@[j]),
                forall|j: int| 0 <= j < p ==> f(#[trigger] r@[j]) < f(k),
            decreases r.len() - p,
        {
            p = p + 1;
        }
        proof {
            if p < r.len() {
                let y = r@[p as int];
                assert(r@.to_set().contains(y));
                assert(!(f(y) < f(k)));
                assert(y != k) by {
                    assert(!r@.to_set().contains(k));
                }
                lemma_pair_rank(nv[y].id.0, y, nv[k].id.0, k);
                assert(f(k) < f(y));
            }
            lemma_insert_ranked(r@, p as int, k, f);
            assert(all@.take(i + 1) == all@.take(i as int).push(k));
            crate::collections::lemma_push_to_set(all@.take(i as int), k);
        }
        let ghost before = r@;
        r.insert(p, k);
        proof {
            assert forall|j: int| 0 <= j < r@.len() implies nodes@.contains_key(#[trigger] r@[j]) by {
                if j < p {
                    assert(r@[j] == before[j]);
                } else if j > p {
                    assert(r@[j] == before[j - 1]);
                }
            }
        }
        i = i + 1;
    }
    proof {
        assert(all@.take(i as int) == all@);
        assert(nv.dom() =~= nodes@.dom());
    }
    r
}

impl ControllerState {
    /// Every node record, ordered by identity (then by key).
    pub fn list_nodes(&self) -> (r: Vec<NodeRecord>)
        ensures
            exists|ks: Seq<u128>| {
                &&& is_node_listing(self@.nodes, ks)
                &&& r@.len() == ks.len()
                &&& forall|i: int| 0 <= i < ks.len() ==> (#[trigger] r@[i])@ == self@.nodes[ks[i]]
            },
    {
        let ks = node_listing(&self.nodes);
        let mut r: Vec<NodeRecord> = Vec::new();
        let mut i: usize = 0;
        while i < ks.len()
            invariant
                i <= ks.len(),
                is_node_listing(self@.nodes, ks@),
                r@.len() == i,
                forall|j: int| 0 <= j < i ==> (#[trigger] r@[j])@ == self@.nodes[ks@[j]],
            decreases ks.len() - i,
        {
            let k = ks[i];
            assert(ks@.to_set().contains(k));
            let rec = self.nodes.get(&k).unwrap().clone();
            r.push(rec);
            i = i + 1;
        }
        r
    }

    /// The reports a node made, in the order in which its status table yields them.
    pub fn observed_services(&self, node_id: NodeId) -> (r: Vec<ServiceHealthReport>)
        ensures
            if self@.observed.contains_key(node_id.0) {
                exists|ks: Seq<u128>| {
                    &&& ks.no_duplicates()
                    &&& ks.to_set() == self@.observed[node_id.0].dom()
                    &&& r@ == reports_in(self@.observed[node_id.0], ks)
                }
            } else {
                r@ == Seq::<ServiceHealthReport>::empty()
            },
    {
        let mut r: Vec<ServiceHealthReport> = Vec::new();
        match self.observed.get(&node_id.0) {
            None => {},
            Some(m) => {
                let ks = keys_of(m);
                let mut i: usize = 0;
                while i < ks.len()
                    invariant
                        i <= ks.len(),
                        ks@.to_set() == m@.dom(),
                        r@ == reports_in(m@, ks@.take(i as int)),
                    decreases ks.len() - i,
                {
                    let k = ks[i];
                    assert(ks@.to_set().contains(k));
                    let status = *m.get(&k).unwrap();
                    r.push(ServiceHealthReport { service_id: ServiceId(k), status });
                    assert(reports_in(m@, ks@.take(i + 1)) =~= reports_in(m@, ks@.take(i as int)).push(report_of(k, status)));
                    i = i + 1;
                }
                assert(ks@.take(i as int) == ks@);
            },
        }
        r
    }

    /// Every node with its reports, nodes ordered by identity (then by key), each node's
    /// reports in increasing order of service identity.
    pub fn list_node_views(&self) -> (r: Vec<NodeView>)
        ensures
            exists|ks: Seq<u128>| {
                &&& is_node_listing(self@.nodes, ks)
                &&& r@.len() == ks.len()
                &&& forall|i: int| 0 <= i < ks.len() ==> (#[trigger] r@[i]).node@ == self@.nodes[ks[i]]
                    && r@[i].services@ == sorted_reports(self@.observed, self@.nodes[ks[i]].id.0)
            },
    {
        let ks = node_listing(&self.nodes);
        let mut r: Vec<NodeView> = Vec::new();
        let mut i: usize = 0;
        while i < ks.len()
            invariant
                i <= ks.len(),
                is_node_listing(self@.nodes, ks@),
                r@.len() == i,
                forall|j: int| 0 <= j < i ==> (#[trigger] r@[j]).node@ == self@.nodes[ks@[j]]
                    && r@[j].services@ == sorted_reports(self@.observed, self@.nodes[ks@[j]].id.0),
            decreases ks.len() - i,
        {
            let k = ks[i];
            assert(ks@.to_set().contains(k));
            let node = self.nodes.get(&k).unwrap().clone();
            let id = node.id.0;
            let mut services: Vec<ServiceHealthReport> = Vec::new();
            match self.observed.get(&id) {
                None => {},
                Some(m) => {
                    let sk = sorted_keys_of(m);
                    let mut q: usize = 0;
                    while q < sk.len()
                        invariant
                            q <= sk.len(),
                            sk@.to_set() == m@.dom(),
                            services@ == reports_in(m@, sk@.take(q as int)),
                        decreases sk.len() - q,
                    {
                        let sid = sk[q];
                        assert(sk@.to_set().contains(sid));
                        let status = *m.get(&sid).unwrap();
                        services.push(ServiceHealthReport { service_id: ServiceId(sid), status });
                        assert(reports_in(m@, sk@.take(q + 1)) =~= reports_in(m@, sk@.take(q as int)).push(report_of(sid, status)));
                        q = q + 1;
                    }
                    assert(sk@.take(q as int) == sk@);
                },
            }
            r.push(NodeView { node, services });
            i = i + 1;
        }
        r
    }

    /// Every assignment of a defined service, ordered by node, then by service; a service
    /// that a node's list holds twice appears twice.
    pub fn list_assignments(&self) -> (r: Vec<ServiceAssignment>)
        ensures
            assignments_sorted(r@),
            forall|p: ServiceAssignment| #[trigger] r@.to_multiset().count(p)
                == pair_count(self@.assignments, self@.services.dom(), p),
    {
        let ghost a = self@.assignments;
        let ghost sd = self@.services.dom();
        let ks = keys_of(&self.assignments);
        let mut r: Vec<ServiceAssignment> = Vec::new();
        let mut i: usize = 0;
        while i < ks.len()
            invariant
                i <= ks.len(),
                ks@.no_duplicates(),
                ks@.to_set() == a.dom(),
                a == self@.assignments,
                sd == self@.services.dom(),
                assignments_sorted(r@),
                forall|p: ServiceAssignment| #[trigger] r@.to_multiset().count(p) == if ks@.take(i as int).contains(p.node_id.0) {
                    pair_count(a, sd, p)
                } else {
                    0
                },
            decreases ks.len() - i,
        {
            let k = ks[i];
            assert(ks@.to_set().contains(k));
            let list = self.assignments.get(&k).unwrap();
            assert(list@ == a[k]);
            proof {
                assert(!ks@.take(i as int).contains(k)) by {
                    if ks@.take(i as int).contains(k) {
                        let q = choose|q: int| 0 <= q < i && #[trigger] ks@.take(i as int)[q] == k;
                        assert(ks@[q] == ks@[i as int]);
                    }
                }
                assert forall|x: u128| ks@.take(i + 1).contains(x) <==> (ks@.take(i as int).contains(x) || x == k) by {
                    crate::collections::lemma_take_next_contains(ks@, i as int);
                }
            }
            let mut q: usize = 0;
            while q < list.len()
                invariant
                    q <= list.len(),
                    list@ == a[k],
                    a.contains_key(k),
                    sd == self@.services.dom(),
                    !ks@.take(i as int).contains(k),
                    assignments_sorted(r@),
                    forall|p: ServiceAssignment| #[trigger] r@.to_multiset().count(p) == (if ks@.take(i as int).contains(p.node_id.0) {
                        pair_count(a, sd, p)
                    } else {
                        0
                    }) + (if p.node_id.0 == k && sd.contains(p.service_id.0) {
                        list@.take(q as int).to_multiset().count(p.service_id)
                    } else {
                        0
                    }),
                decreases list.len() - q,
            {
                let sid = list[q];
                proof {
                    assert(list@.take(q + 1) == list@.take(q as int).push(sid));
                }
                if self.services.contains_key(&sid.0) {
                    let x = ServiceAssignment { service_id: sid, node_id: NodeId(k) };
                    insert_assignment(&mut r, x);
                } else {
                    proof {
                        assert forall|p: ServiceAssignment| p.node_id.0 == k && sd.contains(p.service_id.0) implies
                            #[trigger] list@.take(q + 1).to_multiset().count(p.service_id) == list@.take(q as int).to_multiset().count(p.service_id) by {
                            assert(p.service_id != sid);
                        }
                    }
                }
                q = q + 1;
            }
            proof {
                assert(list@.take(q as int) == list@);
                assert forall|p: ServiceAssignment| #[trigger] r@.to_multiset().count(p) == if ks@.take(i + 1).contains(p.node_id.0) {
                    pair_count(a, sd, p)
                } else {
                    0
                } by {
                    if p.node_id.0 == k {
                        assert(ks@.take(i + 1).contains(k));
                    }
                }
            }
            i = i + 1;
        }
        proof {
            assert(ks@.take(i as int) == ks@);
            assert forall|p: ServiceAssignment| #[trigger] r@.to_multiset().count(p) == pair_count(a, sd, p) by {
                if !ks@.contains(p.node_id.0) {
                    assert(!ks@.to_set().contains(p.node_id.0));
                }
            }
        }
        r
    }
}

/// Inserts an assignment after every assignment of no greater rank.
fn insert_assignment(v: &mut Vec<ServiceAssignment>, x: ServiceAssignment)
    requires
        assignments_sorted(old(v)@),
    ensures
        assignments_sorted(final(v)@),
        final(v)@.to_multiset() == old(v)@.to_multiset().insert(x),
{
    let mut p: usize = 0;
    while p < v.len() && !(x.node_id.0 < v[p].node_id.0 || (x.node_id.0 == v[p].node_id.0 && x.service_id.0 < v[p].service_id.0))
        invariant
            p <= v.len(),
            assignments_sorted(v@),
            forall|j: int| 0 <= j < p ==> assignment_rank(#[trigger] v@[j]) <= assignment_rank(x),
        decreases v.len() - p,
    {
        proof {
            lemma_pair_rank(x.node_id.0, x.service_id.0, v@[p as int].node_id.0, v@[p as int].service_id.0);
        }
        p = p + 1;
    }
    let ghost old_v = v@;
    proof {
        if p < v.len() {
            lemma_pair_rank(x.node_id.0, x.service_id.0, v@[p as int].node_id.0, v@[p as int].service_id.0);
        }
    }
    v.insert(p, x);
    proof {
        assert(v@ == old_v.insert(p as int, x));
        assert forall|i: int, j: int| 0 <= i < j < v@.len() implies assignment_rank(v@[i]) <= assignment_rank(v@[j]) by {
            if j < p {
                assert(v@[i] == old_v[i] && v@[j] == old_v[j]);
            } else if j == p {
                assert(v@[i] == old_v[i]);
            } else if i < p {
                assert(v@[i] == old_v[i] && v@[j] == old_v[j - 1]);
                assert(assignment_rank(x) < assignment_rank(old_v[p as int]));
                assert(assignment_rank(old_v[p as int]) <= assignment_rank(old_v[j - 1]));
            } else if i == p {
                assert(v@[j] == old_v[j - 1]);
                assert(assignment_rank(old_v[p as int]) <= assignment_rank(old_v[j - 1]));
            } else {
                assert(v@[i] == old_v[i - 1] && v@[j] == old_v[j - 1]);
            }
        }
    }
}

} // verus!
