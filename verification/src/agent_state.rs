use vstd::prelude::*;
use std::collections::{HashMap, HashSet};
use vstd::set_lib::lemma_set_subset_finite;

use crate::collections::{lemma_sorted_ids, lemma_sorted_ints, sorted_ids, sorted_ints, sorted_keys_of};
use crate::controller_client::HeartbeatPayload;
use crate::controller_state::services_view;
use crate::ids::{NodeId, ServiceId};
use crate::reconcile::{
    assigned_service_values, defined_only, definitions_view, ids_only_in, lemma_ids_only_in_finite,
    plan_reconcile, undefined_only, ReconcilePlan,
};
use crate::service::{
    definitions_by_id, ServiceAssignment, ServiceDefinition, ServiceDefinitionView, ServiceStatus,
};
use crate::service_runtime::{
    all_refreshed, all_refreshed_by_tasks, refreshed, running_set, start_each, status_pairs, statuses_at, stop_each,
    tasks_kept, ServiceInstanceView, ServiceManager,
};

verus! {

broadcast use vstd::std_specs::hash::group_hash_axioms;

/// What the agent knows: the assignments the controller wants on this node, the service
/// definitions it last fetched, and the statuses its services were last seen in.
#[derive(Debug)]
pub struct AgentAppState {
    pub node_id: NodeId,
    pub desired: Vec<ServiceAssignment>,
    pub services: HashMap<u128, ServiceDefinition>,
    pub observed_statuses: HashMap<u128, ServiceStatus>,
}

/// Every definition of the map is filed under its own identity.
pub open spec fn keyed_by_own_id(defs: Map<u128, ServiceDefinitionView>) -> bool {
    forall|k: u128| #[trigger] defs.contains_key(k) ==> defs[k].id.0 == k
}

/// A map built by identity files each definition under its own identity.
pub proof fn lemma_definitions_by_id_keyed(s: Seq<ServiceDefinitionView>)
    ensures
        keyed_by_own_id(definitions_by_id(s)),
    decreases s.len(),
{
    if s.len() > 0 {
        lemma_definitions_by_id_keyed(s.drop_last());
    }
}

/// A list of statuses as a map by identity; a later status of the same service replaces an
/// earlier one.
pub open spec fn statuses_by_id(s: Seq<(ServiceId, ServiceStatus)>) -> Map<u128, ServiceStatus>
    decreases s.len(),
{
    if s.len() == 0 {
        Map::empty()
    } else {
        statuses_by_id(s.drop_last()).insert(s.last().0.0, s.last().1)
    }
}

/// Each service of a status map with its status, in increasing order of identity.
pub open spec fn observed_pairs(m: Map<u128, ServiceStatus>) -> Seq<(ServiceId, ServiceStatus)> {
    sorted_ints(m.dom()).map_values(|k: u128| (ServiceId(k), m[k]))
}

/// Statuses keyed from a list of services give each listed service its status.
proof fn lemma_statuses_of_pairs(ks: Seq<u128>, m: Map<u128, ServiceInstanceView>)
    ensures
        statuses_by_id(statuses_at(ks, m)) == Map::new(|k: u128| ks.contains(k), |k: u128| m[k].status),
    decreases ks.len(),
{
    let p = statuses_at(ks, m);
    if ks.len() == 0 {
        assert(statuses_by_id(p) =~= Map::new(|k: u128| ks.contains(k), |k: u128| m[k].status));
    } else {
        let ks0 = ks.drop_last();
        lemma_statuses_of_pairs(ks0, m);
        assert(p.drop_last() =~= statuses_at(ks0, m));
        assert forall|k: u128| ks.contains(k) <==> (ks0.contains(k) || k == ks.last()) by {
            if ks.contains(k) {
                let i = choose|i: int| 0 <= i < ks.len() && ks[i] == k;
                if i < ks.len() - 1 {
                    assert(ks0[i] == k);
                }
            }
            if ks0.contains(k) {
                let i = choose|i: int| 0 <= i < ks0.len() && ks0[i] == k;
                assert(ks[i] == k);
            }
            if k == ks.last() {
                assert(ks[ks.len() - 1] == k);
            }
        }
        assert(statuses_by_id(p) =~= Map::new(|k: u128| ks.contains(k), |k: u128| m[k].status));
    }
}

/// What the agent reports in a heartbeat after publishing its manager's snapshot is that
/// snapshot, service for service and in the same order.
pub proof fn published_snapshot_is_reported(m: Map<u128, ServiceInstanceView>)
    requires
        m.dom().finite(),
    ensures
        observed_pairs(statuses_by_id(status_pairs(m))) == status_pairs(m),
{
    lemma_sorted_ints(m.dom());
    let ks = sorted_ints(m.dom());
    lemma_statuses_of_pairs(ks, m);
    let obs = statuses_by_id(status_pairs(m));
    assert forall|k: u128| ks.contains(k) <==> m.dom().contains(k) by {
        assert(ks.to_set().contains(k) == ks.contains(k));
    }
    assert(obs.dom() =~= m.dom());
    assert(observed_pairs(obs) =~= status_pairs(m));
}

/// What one reconciliation step did to the manager: it refreshed `before` into `seen`, planned
/// against the services that ran in `seen`, started and stopped accordingly, and refreshed
/// the result into `after`.
pub open spec fn reconcile_outcome(
    desired: Seq<ServiceAssignment>,
    defs: Map<u128, ServiceDefinitionView>,
    before: Map<u128, ServiceInstanceView>,
    to_start: Seq<ServiceDefinitionView>,
    missing: Seq<ServiceId>,
    to_stop: Seq<ServiceId>,
    seen: Map<u128, ServiceInstanceView>,
    after: Map<u128, ServiceInstanceView>,
) -> bool {
    let start_ids = sorted_ids(ids_only_in(assigned_service_values(desired), running_set(seen)));
    &&& all_refreshed(before, seen)
    &&& to_start == defined_only(start_ids, defs)
    &&& missing == undefined_only(start_ids, defs)
    &&& to_stop == sorted_ids(ids_only_in(running_set(seen), assigned_service_values(desired)))
    &&& all_refreshed(stop_each(start_each(seen, to_start), to_stop), after)
}

/// Starting definitions manages exactly the services managed before and those of the
/// definitions.
proof fn lemma_start_each_dom(m: Map<u128, ServiceInstanceView>, defs: Seq<ServiceDefinitionView>, k: u128)
    ensures
        start_each(m, defs).contains_key(k) <==> (m.contains_key(k)
            || exists|j: int| 0 <= j < defs.len() && #[trigger] defs[j].id.0 == k),
    decreases defs.len(),
{
    if defs.len() > 0 {
        let d0 = defs.drop_last();
        lemma_start_each_dom(m, d0, k);
        if exists|j: int| 0 <= j < defs.len() && #[trigger] defs[j].id.0 == k {
            let j = choose|j: int| 0 <= j < defs.len() && #[trigger] defs[j].id.0 == k;
            if j < defs.len() - 1 {
                assert(d0[j].id.0 == k);
            }
        }
        if exists|j: int| 0 <= j < d0.len() && #[trigger] d0[j].id.0 == k {
            let j = choose|j: int| 0 <= j < d0.len() && #[trigger] d0[j].id.0 == k;
            assert(defs[j].id.0 == k);
        }
    }
}

/// A listed identity that is defined has its definition among the defined ones.
proof fn lemma_defined_only_has(ids: Seq<ServiceId>, defs: Map<u128, ServiceDefinitionView>, k: u128)
    requires
        ids.contains(ServiceId(k)),
        defs.contains_key(k),
    ensures
        exists|j: int| 0 <= j < defined_only(ids, defs).len() && #[trigger] defined_only(ids, defs)[j] == defs[k],
    decreases ids.len(),
{
    let i0 = ids.drop_last();
    let r = defined_only(ids, defs);
    if ids.last() == ServiceId(k) {
        assert(r.last() == defs[k]);
        assert(r[r.len() - 1] == defs[k]);
    } else {
        let q = choose|q: int| 0 <= q < ids.len() && ids[q] == ServiceId(k);
        assert(q < ids.len() - 1);
        assert(i0[q] == ServiceId(k));
        lemma_defined_only_has(i0, defs, k);
        let r0 = defined_only(i0, defs);
        let j = choose|j: int| 0 <= j < r0.len() && #[trigger] r0[j] == defs[k];
        assert(r[j] == defs[k]);
    }
}

/// The services that a list of assignments names form a finite set.
proof fn lemma_assigned_values_finite(s: Seq<ServiceAssignment>)
    ensures
        assigned_service_values(s).finite(),
{
    let v = s.map_values(|a: ServiceAssignment| a.service_id.0);
    assert forall|k: u128| assigned_service_values(s).contains(k) implies v.to_set().contains(k) by {
        let i = choose|i: int| 0 <= i < s.len() && #[trigger] s[i].service_id.0 == k;
        assert(v[i] == k);
    }
    assert(assigned_service_values(s).subset_of(v.to_set()));
    lemma_set_subset_finite(v.to_set(), assigned_service_values(s));
}

/// After a reconciliation step, every desired service that has a definition is managed, no
/// service that ran without being desired is managed any more, and every managed service
/// was managed before or is desired.
pub proof fn reconcile_step_converges(
    desired: Seq<ServiceAssignment>,
    defs: Map<u128, ServiceDefinitionView>,
    before: Map<u128, ServiceInstanceView>,
    to_start: Seq<ServiceDefinitionView>,
    missing: Seq<ServiceId>,
    to_stop: Seq<ServiceId>,
    seen: Map<u128, ServiceInstanceView>,
    after: Map<u128, ServiceInstanceView>,
)
    requires
        reconcile_outcome(desired, defs, before, to_start, missing, to_stop, seen, after),
        before.dom().finite(),
        keyed_by_own_id(defs),
    ensures
        forall|k: u128| assigned_service_values(desired).contains(k) && defs.contains_key(k)
            ==> #[trigger] after.contains_key(k),
        forall|k: u128| seen.contains_key(k) && seen[k].status == ServiceStatus::Running
            && !assigned_service_values(desired).contains(k) ==> !#[trigger] after.contains_key(k),
        forall|k: u128| #[trigger] after.contains_key(k) ==> before.contains_key(k)
            || assigned_service_values(desired).contains(k),
{
    let d = assigned_service_values(desired);
    let run = running_set(seen);
    lemma_assigned_values_finite(desired);
    assert(run.subset_of(seen.dom()));
    lemma_set_subset_finite(seen.dom(), run);
    lemma_ids_only_in_finite(d, run);
    lemma_ids_only_in_finite(run, d);
    lemma_sorted_ids(ids_only_in(d, run));
    lemma_sorted_ids(ids_only_in(run, d));
    let start_ids = sorted_ids(ids_only_in(d, run));
    let started_map = start_each(seen, to_start);
    assert forall|k: u128| !#[trigger] to_stop.contains(ServiceId(k)) || (run.contains(k) && !d.contains(k)) by {
        assert(to_stop.to_set().contains(ServiceId(k)) == to_stop.contains(ServiceId(k)));
    }
    assert forall|k: u128| d.contains(k) && defs.contains_key(k) implies #[trigger] after.contains_key(k) by {
        if !seen.contains_key(k) {
            assert(!run.contains(k));
            assert(ids_only_in(d, run).contains(ServiceId(k)));
            assert(start_ids.to_set().contains(ServiceId(k)));
            lemma_defined_only_has(start_ids, defs, k);
            let j = choose|j: int| 0 <= j < to_start.len() && #[trigger] to_start[j] == defs[k];
            assert(to_start[j].id.0 == k);
        }
        lemma_start_each_dom(seen, to_start, k);
        assert(!to_stop.contains(ServiceId(k)));
        assert(stop_each(started_map, to_stop).contains_key(k));
    }
    assert forall|k: u128| seen.contains_key(k) && seen[k].status == ServiceStatus::Running
        && !d.contains(k) implies !#[trigger] after.contains_key(k) by {
        assert(run.contains(k));
        assert(ids_only_in(run, d).contains(ServiceId(k)));
        assert(sorted_ids(ids_only_in(run, d)).to_set().contains(ServiceId(k)));
        assert(to_stop.contains(ServiceId(k)));
    }
    assert forall|k: u128| #[trigger] after.contains_key(k) implies before.contains_key(k) || d.contains(k) by {
        assert(stop_each(started_map, to_stop).contains_key(k));
        lemma_start_each_dom(seen, to_start, k);
        if !seen.contains_key(k) {
            let j = choose|j: int| 0 <= j < to_start.len() && #[trigger] to_start[j].id.0 == k;
            lemma_defined_only_in(start_ids, defs, j);
            assert(start_ids.to_set().contains(ServiceId(k)));
        }
    }
}

/// A refresh never makes an instance run that did not run before.
proof fn lemma_refresh_starts_nothing(a: Map<u128, ServiceInstanceView>, b: Map<u128, ServiceInstanceView>, k: u128)
    requires
        all_refreshed(a, b),
        b.contains_key(k),
        b[k].status == ServiceStatus::Running,
    ensures
        a.contains_key(k),
        a[k].status == ServiceStatus::Running,
{
    assert(a.contains_key(k));
    assert(refreshed(a[k], b[k]));
}

/// Starting definitions leaves the instances that were managed already as they were.
proof fn lemma_start_each_keeps(m: Map<u128, ServiceInstanceView>, defs: Seq<ServiceDefinitionView>, k: u128)
    requires
        m.contains_key(k),
    ensures
        start_each(m, defs).contains_key(k),
        start_each(m, defs)[k] == m[k],
    decreases defs.len(),
{
    if defs.len() > 0 {
        lemma_start_each_keeps(m, defs.drop_last(), k);
    }
}

/// The increasing enumeration of no identities is empty.
proof fn lemma_sorted_ids_empty()
    ensures
        sorted_ids(Set::<ServiceId>::empty()) == Seq::<ServiceId>::empty(),
{
    lemma_sorted_ids(Set::<ServiceId>::empty());
    let r = sorted_ids(Set::<ServiceId>::empty());
    if r.len() > 0 {
        assert(r.to_set().contains(r[0]));
    }
    assert(r =~= Seq::<ServiceId>::empty());
}

/// A second reconciliation step against the same assignments and definitions changes
/// nothing: it stops no service and leaves the same services managed. When no task finishes
/// during it (its refreshes change nothing), every service keeps its status and its task:
/// given task tables `tasks_middle` and `tasks_after` that match the two views and in which
/// no task was replaced, the tables are equal.
pub proof fn reconcile_step_is_idempotent(
    desired: Seq<ServiceAssignment>,
    defs: Map<u128, ServiceDefinitionView>,
    before: Map<u128, ServiceInstanceView>,
    start1: Seq<ServiceDefinitionView>,
    missing1: Seq<ServiceId>,
    stop1: Seq<ServiceId>,
    seen1: Map<u128, ServiceInstanceView>,
    middle: Map<u128, ServiceInstanceView>,
    start2: Seq<ServiceDefinitionView>,
    missing2: Seq<ServiceId>,
    stop2: Seq<ServiceId>,
    seen2: Map<u128, ServiceInstanceView>,
    after: Map<u128, ServiceInstanceView>,
    tasks_middle: Map<u128, Option<tokio::task::JoinHandle<()>>>,
    tasks_after: Map<u128, Option<tokio::task::JoinHandle<()>>>,
)
    requires
        reconcile_outcome(desired, defs, before, start1, missing1, stop1, seen1, middle),
        reconcile_outcome(desired, defs, middle, start2, missing2, stop2, seen2, after),
        before.dom().finite(),
        middle.dom().finite(),
        keyed_by_own_id(defs),
        tasks_middle.dom() == middle.dom(),
        tasks_after.dom() == after.dom(),
        forall|k: u128| #[trigger] tasks_middle.contains_key(k) ==> (tasks_middle[k] is Some <==> middle[k].has_task),
        forall|k: u128| #[trigger] tasks_after.contains_key(k) ==> (tasks_after[k] is Some <==> after[k].has_task),
        tasks_kept(tasks_middle, tasks_after),
    ensures
        stop2.len() == 0,
        after.dom() == middle.dom(),
        (seen2 == middle && after == stop_each(start_each(seen2, start2), stop2)) ==> {
            &&& after == middle
            &&& tasks_after == tasks_middle
        },
{
    let d = assigned_service_values(desired);
    reconcile_step_converges(desired, defs, before, start1, missing1, stop1, seen1, middle);
    let run1 = running_set(seen1);
    lemma_assigned_values_finite(desired);
    assert(run1.subset_of(seen1.dom()));
    lemma_set_subset_finite(seen1.dom(), run1);
    lemma_ids_only_in_finite(d, run1);
    lemma_ids_only_in_finite(run1, d);
    lemma_sorted_ids(ids_only_in(d, run1));
    lemma_sorted_ids(ids_only_in(run1, d));
    let started1 = start_each(seen1, start1);
    let moved1 = stop_each(started1, stop1);
    // Nothing runs after the first step that is not desired.
    assert forall|k: u128| #[trigger] seen2.contains_key(k) && seen2[k].status == ServiceStatus::Running implies d.contains(k) by {
        lemma_refresh_starts_nothing(middle, seen2, k);
        lemma_refresh_starts_nothing(moved1, middle, k);
        assert(started1.contains_key(k) && !stop1.contains(ServiceId(k)));
        if seen1.contains_key(k) {
            lemma_start_each_keeps(seen1, start1, k);
            assert(run1.contains(k));
            if !d.contains(k) {
                assert(ids_only_in(run1, d).contains(ServiceId(k)));
                assert(sorted_ids(ids_only_in(run1, d)).to_set().contains(ServiceId(k)));
            }
        } else {
            lemma_start_each_dom(seen1, start1, k);
            let j = choose|j: int| 0 <= j < start1.len() && #[trigger] start1[j].id.0 == k;
            lemma_defined_only_in(sorted_ids(ids_only_in(d, run1)), defs, j);
            assert(sorted_ids(ids_only_in(d, run1)).to_set().contains(ServiceId(k)));
        }
    }
    let run2 = running_set(seen2);
    assert(ids_only_in(run2, d) =~= Set::<ServiceId>::empty());
    lemma_sorted_ids_empty();
    assert(stop2 =~= Seq::<ServiceId>::empty());
    // Everything the second step would start is managed already.
    let started2 = start_each(seen2, start2);
    assert(seen2.dom() == middle.dom());
    assert(run2.subset_of(seen2.dom()));
    lemma_set_subset_finite(seen2.dom(), run2);
    lemma_ids_only_in_finite(d, run2);
    lemma_sorted_ids(ids_only_in(d, run2));
    assert forall|k: u128| #[trigger] after.contains_key(k) <==> middle.contains_key(k) by {
        lemma_start_each_dom(seen2, start2, k);
        if started2.contains_key(k) && !seen2.contains_key(k) {
            let j = choose|j: int| 0 <= j < start2.len() && #[trigger] start2[j].id.0 == k;
            lemma_defined_only_in(sorted_ids(ids_only_in(d, run2)), defs, j);
            assert(sorted_ids(ids_only_in(d, run2)).to_set().contains(ServiceId(k)));
            assert(d.contains(k));
            lemma_defined_only_is_defined(sorted_ids(ids_only_in(d, run2)), defs, j);
            assert(middle.contains_key(k));
        }
    }
    assert(after.dom() =~= middle.dom());
    if seen2 == middle && after == stop_each(start_each(seen2, start2), stop2) {
        assert forall|j: int| 0 <= j < start2.len() implies #[trigger] seen2.contains_key(start2[j].id.0) by {
            let k = start2[j].id.0;
            lemma_defined_only_in(sorted_ids(ids_only_in(d, run2)), defs, j);
            assert(sorted_ids(ids_only_in(d, run2)).to_set().contains(ServiceId(k)));
            lemma_defined_only_is_defined(sorted_ids(ids_only_in(d, run2)), defs, j);
            assert(middle.contains_key(k));
        }
        lemma_start_each_present(seen2, start2);
        assert(stop_each(seen2, stop2) =~= seen2);
        assert(after == middle);
        assert forall|k: u128| #[trigger] tasks_after.contains_key(k) implies tasks_after[k] == tasks_middle[k] by {
            if tasks_after[k] is None {
                assert(!after[k].has_task);
                assert(tasks_middle[k] is None);
            }
        }
        assert(tasks_after =~= tasks_middle);
    }
}

/// Starting definitions whose services are all managed already changes nothing.
proof fn lemma_start_each_present(m: Map<u128, ServiceInstanceView>, defs: Seq<ServiceDefinitionView>)
    requires
        forall|j: int| 0 <= j < defs.len() ==> #[trigger] m.contains_key(defs[j].id.0),
    ensures
        start_each(m, defs) == m,
    decreases defs.len(),
{
    if defs.len() > 0 {
        let d0 = defs.drop_last();
        assert forall|j: int| 0 <= j < d0.len() implies #[trigger] m.contains_key(d0[j].id.0) by {
            assert(d0[j] == defs[j]);
        }
        lemma_start_each_present(m, d0);
        assert(m.contains_key(defs[defs.len() - 1].id.0));
    }
}

/// Every defined definition is the definition of its own identity.
proof fn lemma_defined_only_is_defined(ids: Seq<ServiceId>, defs: Map<u128, ServiceDefinitionView>, j: int)
    requires
        0 <= j < defined_only(ids, defs).len(),
        keyed_by_own_id(defs),
    ensures
        defs.contains_key(defined_only(ids, defs)[j].id.0),
    decreases ids.len(),
{
    let i0 = ids.drop_last();
    let r0 = defined_only(i0, defs);
    if defs.contains_key(ids.last().0) && j == r0.len() {
        assert(defs[ids.last().0].id.0 == ids.last().0);
    } else {
        lemma_defined_only_is_defined(i0, defs, j);
    }
}

/// Every defined definition comes from a listed identity that names it.
proof fn lemma_defined_only_in(ids: Seq<ServiceId>, defs: Map<u128, ServiceDefinitionView>, j: int)
    requires
        0 <= j < defined_only(ids, defs).len(),
        forall|k: u128| #[trigger] defs.contains_key(k) ==> defs[k].id.0 == k,
    ensures
        ids.contains(ServiceId(defined_only(ids, defs)[j].id.0)),
    decreases ids.len(),
{
    let i0 = ids.drop_last();
    let r0 = defined_only(i0, defs);
    if defs.contains_key(ids.last().0) && j == r0.len() {
        assert(ids[ids.len() - 1] == ids.last());
        assert(defs[ids.last().0].id.0 == ids.last().0);
        assert(ServiceId(ids.last().0) == ids.last());
    } else {
        lemma_defined_only_in(i0, defs, j);
        let q = choose|q: int| 0 <= q < i0.len() && i0[q] == ServiceId(r0[j].id.0);
        assert(ids[q] == i0[q]);
    }
}

/// Whether two lists of assignments are the same, element by element.
fn same_assignments(a: &Vec<ServiceAssignment>, b: &Vec<ServiceAssignment>) -> (r: bool)
    ensures
        r == (a@ == b@),
{
    if a.len() != b.len() {
        return false;
    }
    let mut i: usize = 0;
    while i < a.len()
        invariant
            i <= a.len(),
            a.len() == b.len(),
            a@.take(i as int) == b@.take(i as int),
        decreases a.len() - i,
    {
        if a[i] != b[i] {
            assert(a@[i as int] != b@[i as int]);
            return false;
        }
        assert(a@.take(i + 1) =~= b@.take(i + 1)) by {
            assert(a@.take(i + 1) =~= a@.take(i as int).push(a@[i as int]));
            assert(b@.take(i + 1) =~= b@.take(i as int).push(b@[i as int]));
        }
        i = i + 1;
    }
    assert(a@ =~= a@.take(i as int));
    assert(b@ =~= b@.take(i as int));
    true
}

impl AgentAppState {
    /// The state of an agent that knows nothing yet.
    pub fn new(node_id: NodeId) -> (s: AgentAppState)
        ensures
            s.node_id == node_id,
            s.desired@ == Seq::<ServiceAssignment>::empty(),
            services_view(s.services) == Map::<u128, ServiceDefinitionView>::empty(),
            s.observed_statuses@ == Map::<u128, ServiceStatus>::empty(),
    {
        let s = AgentAppState {
            node_id,
            desired: Vec::new(),
            services: HashMap::new(),
            observed_statuses: HashMap::new(),
        };
        assert(services_view(s.services) =~= Map::<u128, ServiceDefinitionView>::empty());
        s
    }

    /// Whether `assignments` differ from the ones the agent holds.
    pub fn assignments_changed(&self, assignments: &Vec<ServiceAssignment>) -> (changed: bool)
        ensures
            changed == (self.desired@ != assignments@),
    {
        !same_assignments(&self.desired, assignments)
    }

    /// Takes the assignments the controller answered with; says whether they differ from the
    /// ones held before.
    pub fn apply_assignments(&mut self, assignments: Vec<ServiceAssignment>) -> (changed: bool)
        ensures
            changed == (old(self).desired@ != assignments@),
            final(self).desired@ == assignments@,
            final(self).node_id == old(self).node_id,
            final(self).services@ == old(self).services@,
            final(self).observed_statuses@ == old(self).observed_statuses@,
    {
        let changed = !same_assignments(&self.desired, &assignments);
        self.desired = assignments;
        changed
    }

    /// Takes new assignments together with the service definitions fetched for them.
    pub fn adopt(&mut self, assignments: Vec<ServiceAssignment>, services: Vec<ServiceDefinition>)
        ensures
            final(self).desired@ == assignments@,
            services_view(final(self).services) == definitions_by_id(definitions_view(services@)),
            keyed_by_own_id(services_view(final(self).services)),
            final(self).node_id == old(self).node_id,
            final(self).observed_statuses@ == old(self).observed_statuses@,
    {
        let mut by_id: HashMap<u128, ServiceDefinition> = HashMap::new();
        assert(services_view(by_id) =~= Map::<u128, ServiceDefinitionView>::empty());
        let mut i: usize = 0;
        while i < services.len()
            invariant
                i <= services.len(),
                services_view(by_id) == definitions_by_id(definitions_view(services@.take(i as int))),
            decreases services.len() - i,
        {
            let d = services[i].clone();
            let ghost dv = d@;
            let ghost before = services_view(by_id);
            by_id.insert(d.id.0, d);
            proof {
                let t = definitions_view(services@.take(i + 1));
                assert(t.drop_last() =~= definitions_view(services@.take(i as int)));
                assert(t.last() == dv);
                assert(services_view(by_id) =~= before.insert(dv.id.0, dv));
            }
            i = i + 1;
        }
        assert(services@.take(i as int) =~= services@);
        proof {
            lemma_definitions_by_id_keyed(definitions_view(services@));
        }
        self.desired = assignments;
        self.services = by_id;
    }
    /// Plans a reconciliation step against the services that run: what the held
    /// assignments name and does not run is started, what runs and is not named is stopped.
    pub fn plan(&self, running: &HashSet<u128>) -> (plan: ReconcilePlan)
        ensures
            definitions_view(plan.to_start@) == defined_only(
                sorted_ids(ids_only_in(assigned_service_values(self.desired@), running@)),
                services_view(self.services),
            ),
            plan.missing@ == undefined_only(
                sorted_ids(ids_only_in(assigned_service_values(self.desired@), running@)),
                services_view(self.services),
            ),
            plan.to_stop@ == sorted_ids(ids_only_in(running@, assigned_service_values(self.desired@))),
    {
        plan_reconcile(&self.desired, &self.services, running)
    }

    /// Replaces the observed statuses with the given ones.
    pub fn publish_statuses(&mut self, statuses: Vec<(ServiceId, ServiceStatus)>)
        ensures
            final(self).observed_statuses@ == statuses_by_id(statuses@),
            final(self).node_id == old(self).node_id,
            final(self).desired@ == old(self).desired@,
            final(self).services@ == old(self).services@,
    {
        let mut observed: HashMap<u128, ServiceStatus> = HashMap::new();
        assert(observed@ =~= statuses_by_id(statuses@.take(0)));
        let mut i: usize = 0;
        while i < statuses.len()
            invariant
                i <= statuses.len(),
                observed@ == statuses_by_id(statuses@.take(i as int)),
            decreases statuses.len() - i,
        {
            let (id, status) = statuses[i];
            observed.insert(id.0, status);
            proof {
                assert(statuses@.take(i + 1).drop_last() =~= statuses@.take(i as int));
            }
            i = i + 1;
        }
        assert(statuses@.take(i as int) =~= statuses@);
        self.observed_statuses = observed;
    }

    /// The heartbeat this agent sends: each observed service with its status, in increasing
    /// order of identity.
    pub fn heartbeat_payload(&self) -> (p: HeartbeatPayload)
        ensures
            p.service_statuses@ == observed_pairs(self.observed_statuses@),
    {
        let ks = sorted_keys_of(&self.observed_statuses);
        let mut pairs: Vec<(ServiceId, ServiceStatus)> = Vec::new();
        let mut i: usize = 0;
        while i < ks.len()
            invariant
                i <= ks.len(),
                ks@ == sorted_ints(self.observed_statuses@.dom()),
                ks@.to_set() == self.observed_statuses@.dom(),
                pairs@ == ks@.take(i as int).map_values(|k: u128| (ServiceId(k), self.observed_statuses@[k])),
            decreases ks.len() - i,
        {
            let k = ks[i];
            assert(ks@.to_set().contains(k)) by {
                assert(ks@[i as int] == k);
            }
            let status = *self.observed_statuses.get(&k).unwrap();
            pairs.push((ServiceId(k), status));
            proof {
                assert(pairs@ =~= ks@.take(i + 1).map_values(|k: u128| (ServiceId(k), self.observed_statuses@[k])));
            }
            i = i + 1;
        }
        assert(ks@.take(i as int) == ks@);
        HeartbeatPayload { service_statuses: pairs }
    }
    /// One reconciliation step once the definitions are in hand: plans against the services
    /// that run, starts what is desired and does not run (each in a task that `spawn` makes),
    /// stops what runs and is not desired, and publishes the statuses that result.
    pub fn reconcile_services<F: Fn(&ServiceDefinition) -> tokio::task::JoinHandle<()>>(
        &mut self,
        manager: &mut ServiceManager,
        spawn: F,
    ) -> (plan: ReconcilePlan)
        requires
            forall|d: &ServiceDefinition| call_requires(spawn, (d,)),
        ensures
            exists|seen: Map<u128, ServiceInstanceView>| #[trigger] reconcile_outcome(
                old(self).desired@,
                services_view(old(self).services),
                old(manager)@,
                definitions_view(plan.to_start@),
                plan.missing@,
                plan.to_stop@,
                seen,
                final(manager)@,
            ) && all_refreshed_by_tasks(old(manager)@, old(manager).tasks(), seen),
            final(self).observed_statuses@ == statuses_by_id(status_pairs(final(manager)@)),
            tasks_kept(old(manager).tasks(), final(manager).tasks()),
            final(self).node_id == old(self).node_id,
            final(self).desired@ == old(self).desired@,
            final(self).services@ == old(self).services@,
    {
        let running = manager.running_ids();
        let ghost seen = manager@;
        let plan = self.plan(&running);
        manager.start_all(&plan.to_start, spawn);
        manager.stop_each(&plan.to_stop);
        let statuses = manager.snapshot_statuses();
        self.publish_statuses(statuses);
        assert(reconcile_outcome(
            old(self).desired@,
            services_view(old(self).services),
            old(manager)@,
            definitions_view(plan.to_start@),
            plan.missing@,
            plan.to_stop@,
            seen,
            manager@,
        ));
        plan
    }
}

} // verus!
