use vstd::prelude::*;
use std::collections::{HashMap, HashSet};
use vstd::std_specs::iter::IteratorSpec;

use crate::collections::{
    ids_increasing, insert_sorted_id, lemma_push_to_set, lemma_sorted_ids, lemma_sorted_ids_of,
    sorted_ids,
};
use vstd::set_lib::lemma_set_subset_finite;
use crate::controller_state::services_view;
use crate::ids::ServiceId;
use crate::service::{ServiceAssignment, ServiceDefinition, ServiceDefinitionView};

verus! {

broadcast use vstd::std_specs::hash::group_hash_axioms;

/// The elements of a set, each once, in the set's own iteration order.
pub fn elements_of(s: &HashSet<u128>) -> (r: Vec<u128>)
    ensures
        r@.no_duplicates(),
        r@.to_set() == s@,
{
    let mut r: Vec<u128> = Vec::new();
    let ghost elems = s.iter().remaining();
    for k in it: s.iter()
        invariant
            it.seq() == elems,
            r@ == it.seq().take(it.index()).unref(),
        ensures
            r@ == elems.unref(),
    {
        r.push(*k);
        proof {
            assert(it.seq().take(it.index() + 1).unref() =~= it.seq().take(it.index()).unref().push(*k));
        }
    }
    proof {
        assert(elems.unref().to_set() == s@);
    }
    r
}

/// The identities whose values lie in `a` and not in `b`.
pub open spec fn ids_only_in(a: Set<u128>, b: Set<u128>) -> Set<ServiceId> {
    Set::new(|s: ServiceId| a.contains(s.0) && !b.contains(s.0))
}

/// The identities whose values lie in `a` and not in `b`, in increasing order.
fn sorted_difference(a: &HashSet<u128>, b: &HashSet<u128>) -> (r: Vec<ServiceId>)
    ensures
        r@ == sorted_ids(ids_only_in(a@, b@)),
        ids_increasing(r@),
        r@.to_set() == ids_only_in(a@, b@),
{
    let xs = elements_of(a);
    let mut r: Vec<ServiceId> = Vec::new();
    let mut i: usize = 0;
    while i < xs.len()
        invariant
            i <= xs.len(),
            xs@.to_set() == a@,
            ids_increasing(r@),
            r@.to_set() == Set::new(|s: ServiceId| xs@.take(i as int).contains(s.0) && !b@.contains(s.0)),
        decreases xs.len() - i,
    {
        let x = xs[i];
        let ghost before = r@.to_set();
        let keep = !b.contains(&x);
        if keep {
            insert_sorted_id(&mut r, ServiceId(x));
        }
        assert(keep ==> r@.to_set() == before.insert(ServiceId(x)));
        assert(!keep ==> r@.to_set() == before);
        assert(keep == !b@.contains(x));
        proof {
            assert(xs@.take(i + 1) == xs@.take(i as int).push(x));
            assert forall|y: u128| xs@.take(i + 1).contains(y) <==> (xs@.take(i as int).contains(y) || y == x) by {
                crate::collections::lemma_take_next_contains(xs@, i as int);
            }
            assert forall|sid: ServiceId| r@.to_set().contains(sid) <==> (xs@.take(i + 1).contains(sid.0) && !b@.contains(sid.0)) by {
                assert(before.contains(sid) <==> (xs@.take(i as int).contains(sid.0) && !b@.contains(sid.0)));
                assert(xs@.take(i + 1).contains(sid.0) <==> (xs@.take(i as int).contains(sid.0) || sid.0 == x));
                if sid.0 == x {
                    assert(sid == ServiceId(x));
                }
            }
            assert(r@.to_set() =~= Set::new(|s: ServiceId| xs@.take(i + 1).contains(s.0) && !b@.contains(s.0)));
        }
        i = i + 1;
    }
    proof {
        assert(xs@.take(i as int) == xs@);
        assert forall|y: u128| xs@.contains(y) <==> a@.contains(y) by {
            assert(xs@.to_set().contains(y) == xs@.contains(y));
        }
        assert(r@.to_set() =~= ids_only_in(a@, b@));
        lemma_sorted_ids_of(r@);
    }
    r
}

/// What reconciliation must do: the services to start (desired and not running) and those
/// to stop (running and not desired), each list in increasing order of identity.
pub fn diff(desired: &HashSet<u128>, local: &HashSet<u128>) -> (r: (Vec<ServiceId>, Vec<ServiceId>))
    ensures
        ids_increasing(r.0@),
        r.0@.to_set() == ids_only_in(desired@, local@),
        ids_increasing(r.1@),
        r.1@.to_set() == ids_only_in(local@, desired@),
        r.0@ == sorted_ids(ids_only_in(desired@, local@)),
        r.1@ == sorted_ids(ids_only_in(local@, desired@)),
{
    let to_start = sorted_difference(desired, local);
    let to_stop = sorted_difference(local, desired);
    (to_start, to_stop)
}

/// The identities of a finite set of values that another set lacks form a finite set.
pub proof fn lemma_ids_only_in_finite(a: Set<u128>, b: Set<u128>)
    requires
        a.finite(),
    ensures
        ids_only_in(a, b).finite(),
{
    let f = |k: u128| ServiceId(k);
    a.lemma_map_finite(f);
    assert forall|sid: ServiceId| ids_only_in(a, b).contains(sid) implies a.map(f).contains(sid) by {
        assert(f(sid.0) == sid);
    }
    assert(ids_only_in(a, b).subset_of(a.map(f)));
    lemma_set_subset_finite(a.map(f), ids_only_in(a, b));
}

/// Carrying out a reconciliation's lists brings the running services to the desired ones:
/// a service is desired exactly when it runs and is not stopped or when it is started, and
/// no service is both started and stopped.
pub proof fn diff_reaches_desired(desired: Set<u128>, local: Set<u128>)
    requires
        desired.finite(),
        local.finite(),
    ensures
        forall|x: u128| desired.contains(x) <==> (
            (local.contains(x) && !sorted_ids(ids_only_in(local, desired)).contains(ServiceId(x)))
                || sorted_ids(ids_only_in(desired, local)).contains(ServiceId(x))),
        forall|x: u128| !(sorted_ids(ids_only_in(desired, local)).contains(ServiceId(x))
            && sorted_ids(ids_only_in(local, desired)).contains(ServiceId(x))),
{
    lemma_ids_only_in_finite(desired, local);
    lemma_ids_only_in_finite(local, desired);
    lemma_sorted_ids(ids_only_in(desired, local));
    lemma_sorted_ids(ids_only_in(local, desired));
    let start = sorted_ids(ids_only_in(desired, local));
    let stop = sorted_ids(ids_only_in(local, desired));
    assert forall|x: u128| desired.contains(x) <==> (
        (local.contains(x) && !stop.contains(ServiceId(x))) || start.contains(ServiceId(x))) by {
        assert(start.to_set().contains(ServiceId(x)) == start.contains(ServiceId(x)));
        assert(stop.to_set().contains(ServiceId(x)) == stop.contains(ServiceId(x)));
    }
    assert forall|x: u128| !(start.contains(ServiceId(x)) && stop.contains(ServiceId(x))) by {
        assert(start.to_set().contains(ServiceId(x)) == start.contains(ServiceId(x)));
        assert(stop.to_set().contains(ServiceId(x)) == stop.contains(ServiceId(x)));
    }
}

/// The values of the service identities that the assignments name.
pub open spec fn assigned_service_values(s: Seq<ServiceAssignment>) -> Set<u128> {
    Set::new(|k: u128| exists|i: int| 0 <= i < s.len() && #[trigger] s[i].service_id.0 == k)
}

/// The values of the service identities that the assignments name.
pub fn desired_service_ids(assignments: &Vec<ServiceAssignment>) -> (r: HashSet<u128>)
    ensures
        r@ == assigned_service_values(assignments@),
{
    let mut r: HashSet<u128> = HashSet::new();
    let mut i: usize = 0;
    while i < assignments.len()
        invariant
            i <= assignments.len(),
            r@ == assigned_service_values(assignments@.take(i as int)),
        decreases assignments.len() - i,
    {
        let k = assignments[i].service_id.0;
        r.insert(k);
        proof {
            let t = assignments@.take(i + 1);
            let t0 = assignments@.take(i as int);
            assert forall|y: u128| assigned_service_values(t).contains(y) <==> (assigned_service_values(t0).contains(y) || y == k) by {
                if assigned_service_values(t).contains(y) {
                    let q = choose|q: int| 0 <= q < t.len() && #[trigger] t[q].service_id.0 == y;
                    if q < i {
                        assert(t0[q] == t[q]);
                    }
                }
                if assigned_service_values(t0).contains(y) {
                    let q = choose|q: int| 0 <= q < t0.len() && #[trigger] t0[q].service_id.0 == y;
                    assert(t[q] == t0[q]);
                }
                if y == k {
                    assert(t[i as int].service_id.0 == k);
                }
            }
            assert(r@ =~= assigned_service_values(t));
        }
        i = i + 1;
    }
    assert(assignments@.take(i as int) == assignments@);
    r
}

/// The definitions, in order, of the identities of `ids` that `defs` defines.
pub open spec fn defined_only(ids: Seq<ServiceId>, defs: Map<u128, ServiceDefinitionView>) -> Seq<ServiceDefinitionView>
    decreases ids.len(),
{
    if ids.len() == 0 {
        Seq::empty()
    } else if defs.contains_key(ids.last().0) {
        defined_only(ids.drop_last(), defs).push(defs[ids.last().0])
    } else {
        defined_only(ids.drop_last(), defs)
    }
}

/// The identities of `ids`, in order, that `defs` does not define.
pub open spec fn undefined_only(ids: Seq<ServiceId>, defs: Map<u128, ServiceDefinitionView>) -> Seq<ServiceId>
    decreases ids.len(),
{
    if ids.len() == 0 {
        Seq::empty()
    } else if defs.contains_key(ids.last().0) {
        undefined_only(ids.drop_last(), defs)
    } else {
        undefined_only(ids.drop_last(), defs).push(ids.last())
    }
}

/// The views of a list of definitions.
pub open spec fn definitions_view(s: Seq<ServiceDefinition>) -> Seq<ServiceDefinitionView> {
    s.map_values(|d: ServiceDefinition| d@)
}

/// One reconciliation step's work: the definitions to start, the desired services that have
/// no definition and are skipped, and the services to stop.
#[derive(Debug)]
pub struct ReconcilePlan {
    pub to_start: Vec<ServiceDefinition>,
    pub missing: Vec<ServiceId>,
    pub to_stop: Vec<ServiceId>,
}

/// Plans one reconciliation step: the services that the assignments name and that do not
/// run are started in increasing order of identity, skipping those without a definition;
/// those that run and are not named are stopped, in increasing order of identity.
pub fn plan_reconcile(
    assignments: &Vec<ServiceAssignment>,
    services: &HashMap<u128, ServiceDefinition>,
    running: &HashSet<u128>,
) -> (plan: ReconcilePlan)
    ensures
        definitions_view(plan.to_start@) == defined_only(
            sorted_ids(ids_only_in(assigned_service_values(assignments@), running@)),
            services_view(*services),
        ),
        plan.missing@ == undefined_only(
            sorted_ids(ids_only_in(assigned_service_values(assignments@), running@)),
            services_view(*services),
        ),
        plan.to_stop@ == sorted_ids(ids_only_in(running@, assigned_service_values(assignments@))),
{
    let desired = desired_service_ids(assignments);
    let (start_ids, to_stop) = diff(&desired, running);
    let ghost defs = services_view(*services);
    let mut to_start: Vec<ServiceDefinition> = Vec::new();
    let mut missing: Vec<ServiceId> = Vec::new();
    let mut i: usize = 0;
    while i < start_ids.len()
        invariant
            i <= start_ids.len(),
            defs == services_view(*services),
            definitions_view(to_start@) == defined_only(start_ids@.take(i as int), defs),
            missing@ == undefined_only(start_ids@.take(i as int), defs),
        decreases start_ids.len() - i,
    {
        let id = start_ids[i];
        proof {
            assert(start_ids@.take(i + 1).drop_last() == start_ids@.take(i as int));
        }
        match services.get(&id.0) {
            Some(def) => {
                let copy = def.clone();
                let ghost prev = to_start@;
                let ghost copy_view = copy@;
                to_start.push(copy);
                proof {
                    assert(to_start@ == prev.push(to_start@.last()));
                    assert(definitions_view(to_start@) =~= definitions_view(prev).push(copy_view));
                }
            },
            None => {
                missing.push(id);
            },
        }
        i = i + 1;
    }
    assert(start_ids@.take(i as int) == start_ids@);
    ReconcilePlan { to_start, missing, to_stop }
}

} // verus!
