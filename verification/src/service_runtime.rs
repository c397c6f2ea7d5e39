use vstd::prelude::*;
use std::collections::{HashMap, HashSet};

use crate::collections::{keys_of, lemma_push_to_set, sorted_ints, sorted_keys_of};
use crate::errors::AgentError;
use crate::ids::ServiceId;
use crate::service::{ServiceDefinition, ServiceDefinitionView, ServiceStatus};

verus! {

broadcast use vstd::std_specs::hash::group_hash_axioms;

/// Tokio's handle on a spawned task; opaque here.
#[verifier::external_type_specification]
#[verifier::external_body]
#[verifier::reject_recursive_types(T)]
pub struct ExJoinHandle<T>(tokio::task::JoinHandle<T>);

/// Tokio's error for a task that panicked or was cancelled, the output of awaiting a
/// handle; opaque here, declared because the handle's `Future` impl names it.
#[verifier::external_type_specification]
#[verifier::external_body]
pub struct ExJoinError(tokio::task::JoinError);

/// Calls `tokio::task::JoinHandle::is_finished`. Whether the task has completed depends on
/// the scheduler and on time, so nothing is stated of the answer.
#[verifier::external_body]
fn task_is_finished(task: &tokio::task::JoinHandle<()>) -> (finished: bool) {
    task.is_finished()
}

/// Calls `tokio::task::JoinHandle::abort`, which asks the runtime to cancel the task; it
/// returns nothing and nothing is stated of it.
#[verifier::external_body]
fn abort_task(task: &tokio::task::JoinHandle<()>) {
    task.abort()
}

/// `task` has been handed to tokio's `abort`, which asks the runtime to cancel it.
pub closed spec fn abort_requested(task: tokio::task::JoinHandle<()>) -> bool {
    call_ensures(abort_task, (&task,), ())
}

/// `finished` is an answer that tokio's `is_finished` gave for `task`.
pub closed spec fn finished_answer(task: tokio::task::JoinHandle<()>, finished: bool) -> bool {
    call_ensures(task_is_finished, (&task,), finished)
}

/// One service that the agent manages, with the task that runs it while it runs.
#[derive(Debug)]
pub struct ServiceInstance {
    pub definition: ServiceDefinition,
    pub status: ServiceStatus,
    pub task: Option<tokio::task::JoinHandle<()>>,
}

/// The mathematical value of a [`ServiceInstance`]: its definition, its status and whether
/// it holds a task.
pub struct ServiceInstanceView {
    pub definition: ServiceDefinitionView,
    pub status: ServiceStatus,
    pub has_task: bool,
}

impl View for ServiceInstance {
    type V = ServiceInstanceView;

    open spec fn view(&self) -> ServiceInstanceView {
        ServiceInstanceView {
            definition: self.definition@,
            status: self.status,
            has_task: self.task.is_some(),
        }
    }
}

/// What an instance becomes once it is known whether its task has finished: a running
/// instance whose task has finished has failed and lets go of the task; any other instance
/// stays as it was.
pub open spec fn settled(v: ServiceInstanceView, finished: bool) -> ServiceInstanceView {
    if v.status == ServiceStatus::Running && v.has_task && finished {
        ServiceInstanceView { status: ServiceStatus::Failed, has_task: false, ..v }
    } else {
        v
    }
}

/// `after` is what a refresh makes of `before` for one of the two answers its task can give.
pub open spec fn refreshed(before: ServiceInstanceView, after: ServiceInstanceView) -> bool {
    after == settled(before, false) || after == settled(before, true)
}

/// Every instance of `after` is a refresh of the one of `before` under the same key, and
/// the keys are the same.
pub open spec fn all_refreshed(
    before: Map<u128, ServiceInstanceView>,
    after: Map<u128, ServiceInstanceView>,
) -> bool {
    &&& after.dom() == before.dom()
    &&& forall|k: u128| #[trigger] before.contains_key(k) ==> refreshed(before[k], after[k])
}

/// `after` is what a refresh makes of `before`, whose task handle is `task`: a running
/// instance with a task is settled with an answer that tokio's `is_finished` gave for that
/// very task; any other instance stays as it was.
pub open spec fn refreshed_by_task(
    before: ServiceInstanceView,
    task: Option<tokio::task::JoinHandle<()>>,
    after: ServiceInstanceView,
) -> bool {
    if before.status == ServiceStatus::Running && task is Some {
        exists|fin: bool| #[trigger] finished_answer(task.unwrap(), fin) && after == settled(before, fin)
    } else {
        after == before
    }
}

/// Every instance of `after` is what a refresh makes of the one of `before` under the same
/// key, with the answers tokio gave for the tasks of `tasks`; the keys are the same.
pub open spec fn all_refreshed_by_tasks(
    before: Map<u128, ServiceInstanceView>,
    tasks: Map<u128, Option<tokio::task::JoinHandle<()>>>,
    after: Map<u128, ServiceInstanceView>,
) -> bool {
    &&& after.dom() == before.dom()
    &&& forall|k: u128| #[trigger] before.contains_key(k) ==> refreshed_by_task(before[k], tasks[k], after[k])
}

/// A refresh follows what tokio says of the instance's own task: when every answer
/// `is_finished` gave for it is that the task has finished, a running instance fails and
/// lets go of the task; when every answer is that it has not, the instance stays as it was.
pub proof fn refresh_follows_the_task(
    before: ServiceInstanceView,
    h: tokio::task::JoinHandle<()>,
    after: ServiceInstanceView,
)
    requires
        before.status == ServiceStatus::Running,
        before.has_task,
        refreshed_by_task(before, Some(h), after),
    ensures
        (forall|fin: bool| #[trigger] finished_answer(h, fin) ==> fin) ==> after.status == ServiceStatus::Failed
            && !after.has_task,
        (forall|fin: bool| #[trigger] finished_answer(h, fin) ==> !fin) ==> after == before,
{
}

/// After refreshing every instance, a service whose task tokio reported finished, and only
/// finished, is not among the running services, whatever status it had.
pub proof fn finished_tasks_are_not_running(
    before: Map<u128, ServiceInstanceView>,
    tasks: Map<u128, Option<tokio::task::JoinHandle<()>>>,
    after: Map<u128, ServiceInstanceView>,
    k: u128,
    h: tokio::task::JoinHandle<()>,
)
    requires
        all_refreshed_by_tasks(before, tasks, after),
        before.contains_key(k),
        before[k].has_task,
        tasks[k] == Some(h),
        forall|fin: bool| #[trigger] finished_answer(h, fin) ==> fin,
    ensures
        !running_set(after).contains(k),
{
    assert(refreshed_by_task(before[k], tasks[k], after[k]));
}

impl ServiceInstance {
    fn with_status(
        definition: ServiceDefinition,
        status: ServiceStatus,
        task: Option<tokio::task::JoinHandle<()>>,
    ) -> (i: ServiceInstance)
        ensures
            i@ == (ServiceInstanceView {
                definition: definition@,
                status,
                has_task: task.is_some(),
            }),
            i.task == task,
    {
        ServiceInstance { definition, status, task }
    }

    /// An instance that is assigned and has no task yet.
    pub fn assigned(definition: ServiceDefinition) -> (i: ServiceInstance)
        ensures
            i@ == (ServiceInstanceView {
                definition: definition@,
                status: ServiceStatus::Assigned,
                has_task: false,
            }),
    {
        ServiceInstance::with_status(definition, ServiceStatus::Assigned, None)
    }

    /// An instance that is starting and has no task yet.
    pub fn starting(definition: ServiceDefinition) -> (i: ServiceInstance)
        ensures
            i@ == (ServiceInstanceView {
                definition: definition@,
                status: ServiceStatus::Starting,
                has_task: false,
            }),
    {
        ServiceInstance::with_status(definition, ServiceStatus::Starting, None)
    }

    /// An instance that runs in the given task.
    pub fn running(definition: ServiceDefinition, task: tokio::task::JoinHandle<()>) -> (i:
        ServiceInstance)
        ensures
            i@ == (ServiceInstanceView {
                definition: definition@,
                status: ServiceStatus::Running,
                has_task: true,
            }),
            i.task == Some(task),
    {
        ServiceInstance::with_status(definition, ServiceStatus::Running, Some(task))
    }

    /// An instance that has failed and holds no task.
    pub fn failed(definition: ServiceDefinition) -> (i: ServiceInstance)
        ensures
            i@ == (ServiceInstanceView {
                definition: definition@,
                status: ServiceStatus::Failed,
                has_task: false,
            }),
    {
        ServiceInstance::with_status(definition, ServiceStatus::Failed, None)
    }

    /// Applies what is known of the task: a running instance whose task has finished
    /// becomes failed and drops the task.
    pub fn settle(&mut self, finished: bool)
        ensures
            final(self)@ == settled(old(self)@, finished),
            final(self).task is Some ==> final(self).task == old(self).task,
    {
        if finished && self.status == ServiceStatus::Running && self.task.is_some() {
            self.status = ServiceStatus::Failed;
            self.task = None;
        }
    }

    /// Asks a running instance's task whether it has finished, and settles the instance
    /// with the answer.
    pub fn refresh_status(&mut self)
        ensures
            refreshed(old(self)@, final(self)@),
            refreshed_by_task(old(self)@, old(self).task, final(self)@),
            final(self).task is Some ==> final(self).task == old(self).task,
    {
        let finished = if self.status == ServiceStatus::Running {
            match &self.task {
                Some(task) => {
                    let f = task_is_finished(task);
                    assert(finished_answer(*task, f));
                    f
                },
                None => false,
            }
        } else {
            false
        };
        self.settle(finished);
    }
}

/// The services this agent runs, keyed by the 128-bit value of their identity.
#[derive(Debug)]
pub struct ServiceManager {
    instances: HashMap<u128, ServiceInstance>,
}

impl View for ServiceManager {
    type V = Map<u128, ServiceInstanceView>;

    closed spec fn view(&self) -> Map<u128, ServiceInstanceView> {
        self.instances@.map_values(|i: ServiceInstance| i@)
    }
}

/// The keys of the instances that are running.
pub open spec fn running_set(m: Map<u128, ServiceInstanceView>) -> Set<u128> {
    Set::new(|k: u128| m.contains_key(k) && m[k].status == ServiceStatus::Running)
}

/// The services of `ks`, in that order, each with its status in `m`.
pub open spec fn statuses_at(ks: Seq<u128>, m: Map<u128, ServiceInstanceView>) -> Seq<(ServiceId, ServiceStatus)> {
    ks.map_values(|k: u128| (ServiceId(k), m[k].status))
}

/// Each managed service with its status, in increasing order of identity.
pub open spec fn status_pairs(m: Map<u128, ServiceInstanceView>) -> Seq<(ServiceId, ServiceStatus)> {
    statuses_at(sorted_ints(m.dom()), m)
}

/// The instance a start puts in place: the definition, running in its task.
pub open spec fn started(svc: ServiceDefinitionView) -> ServiceInstanceView {
    ServiceInstanceView { definition: svc, status: ServiceStatus::Running, has_task: true }
}

/// What starting each definition of `defs` in turn makes of `m`: a definition whose service
/// is managed already changes nothing.
pub open spec fn start_each(m: Map<u128, ServiceInstanceView>, defs: Seq<ServiceDefinitionView>) -> Map<u128, ServiceInstanceView>
    decreases defs.len(),
{
    if defs.len() == 0 {
        m
    } else {
        let m0 = start_each(m, defs.drop_last());
        let d = defs.last();
        if m0.contains_key(d.id.0) {
            m0
        } else {
            m0.insert(d.id.0, started(d))
        }
    }
}

/// `m` without the services of `ids`.
pub open spec fn stop_each(m: Map<u128, ServiceInstanceView>, ids: Seq<ServiceId>) -> Map<u128, ServiceInstanceView> {
    m.restrict(m.dom().filter(|k: u128| !ids.contains(ServiceId(k))))
}

/// Every task that `after` holds for a service that `before` also holds is the task that
/// `before` held for it: no task was replaced.
pub open spec fn tasks_kept(
    before: Map<u128, Option<tokio::task::JoinHandle<()>>>,
    after: Map<u128, Option<tokio::task::JoinHandle<()>>>,
) -> bool {
    forall|k: u128| #[trigger] after.contains_key(k) && before.contains_key(k) && after[k] is Some
        ==> after[k] == before[k]
}

impl Default for ServiceManager {
    fn default() -> (m: ServiceManager)
        ensures
            m@ == Map::<u128, ServiceInstanceView>::empty(),
    {
        ServiceManager::new()
    }
}

impl ServiceManager {
    /// The task handle that each managed service holds, if any.
    pub closed spec fn tasks(&self) -> Map<u128, Option<tokio::task::JoinHandle<()>>> {
        self.instances@.map_values(|i: ServiceInstance| i.task)
    }

    /// A service holds a task handle exactly when its view says it has a task.
    pub proof fn lemma_tasks(&self)
        ensures
            self.tasks().dom() == self@.dom(),
            forall|k: u128| #[trigger] self.tasks().contains_key(k) ==> (self.tasks()[k] is Some <==> self@[k].has_task),
    {
        self.lemma_view_dom();
    }

    /// The manager holds finitely many services.
    pub proof fn lemma_finite(&self)
        ensures
            self@.dom().finite(),
    {
        self.lemma_view_dom();
    }

    proof fn lemma_view_dom(&self)
        ensures
            self@.dom() == self.instances@.dom(),
            self.tasks().dom() == self.instances@.dom(),
            forall|k: u128| #[trigger] self.instances@.contains_key(k) ==> self@[k] == self.instances@[k]@
                && self.tasks()[k] == self.instances@[k].task,
    {
        assert(self@.dom() =~= self.instances@.dom());
        assert(self.tasks().dom() =~= self.instances@.dom());
    }

    /// A manager with no services.
    pub fn new() -> (m: ServiceManager)
        ensures
            m@ == Map::<u128, ServiceInstanceView>::empty(),
            m.tasks() == Map::<u128, Option<tokio::task::JoinHandle<()>>>::empty(),
    {
        let m = ServiceManager { instances: HashMap::new() };
        assert(m@ =~= Map::<u128, ServiceInstanceView>::empty());
        assert(m.tasks() =~= Map::<u128, Option<tokio::task::JoinHandle<()>>>::empty());
        m
    }

    /// Starts the service in a task that `spawn` makes, unless it is managed already, in
    /// which case nothing changes and `spawn` is not called.
    pub fn start<F: FnOnce() -> tokio::task::JoinHandle<()>>(
        &mut self,
        svc: &ServiceDefinition,
        spawn: F,
    ) -> (r: Result<(), AgentError>)
        requires
            call_requires(spawn, ()),
        ensures
            r is Ok,
            final(self)@ == (if old(self)@.contains_key(svc.id.0) {
                old(self)@
            } else {
                old(self)@.insert(svc.id.0, started(svc@))
            }),
            old(self)@.contains_key(svc.id.0) ==> final(self).tasks() == old(self).tasks(),
            !old(self)@.contains_key(svc.id.0) ==> exists|h: tokio::task::JoinHandle<()>|
                #[trigger] call_ensures(spawn, (), h)
                && final(self).tasks() == old(self).tasks().insert(svc.id.0, Some(h)),
    {
        proof { self.lemma_view_dom(); }
        if self.instances.contains_key(&svc.id.0) {
            return Ok(());
        }
        self.instances.insert(svc.id.0, ServiceInstance::starting(svc.clone()));
        let task = spawn();
        let ghost h = task;
        self.instances.insert(svc.id.0, ServiceInstance::running(svc.clone(), task));
        proof {
            self.lemma_view_dom();
            assert(self@ =~= old(self)@.insert(svc.id.0, started(svc@)));
            assert(self.tasks() =~= old(self).tasks().insert(svc.id.0, Some(h)));
        }
        Ok(())
    }

    /// Stops the service: it leaves the manager and its task, if any, is aborted. A service
    /// that is not managed changes nothing.
    pub fn stop(&mut self, id: &ServiceId) -> (r: Result<(), AgentError>)
        ensures
            r is Ok,
            final(self)@ == old(self)@.remove(id.0),
            final(self).tasks() == old(self).tasks().remove(id.0),
            old(self).tasks().contains_key(id.0) && old(self).tasks()[id.0] is Some
                ==> abort_requested(old(self).tasks()[id.0].unwrap()),
    {
        proof { self.lemma_view_dom(); }
        let removed = self.instances.remove(&id.0);
        if let Some(instance) = removed {
            if let Some(task) = &instance.task {
                abort_task(task);
            }
        }
        proof {
            self.lemma_view_dom();
            assert(self@ =~= old(self)@.remove(id.0));
            assert(self.tasks() =~= old(self).tasks().remove(id.0));
        }
        Ok(())
    }

    /// Starts each definition of `defs` in turn, in a task that `spawn` makes for it.
    pub fn start_all<F: Fn(&ServiceDefinition) -> tokio::task::JoinHandle<()>>(
        &mut self,
        defs: &Vec<ServiceDefinition>,
        spawn: F,
    )
        requires
            forall|d: &ServiceDefinition| call_requires(spawn, (d,)),
        ensures
            final(self)@ == start_each(old(self)@, defs@.map_values(|d: ServiceDefinition| d@)),
            forall|k: u128| #[trigger] old(self).tasks().contains_key(k) ==> final(self).tasks().contains_key(k)
                && final(self).tasks()[k] == old(self).tasks()[k],
    {
        let ghost dv = defs@.map_values(|d: ServiceDefinition| d@);
        let mut i: usize = 0;
        assert(dv.take(0) =~= Seq::<ServiceDefinitionView>::empty());
        while i < defs.len()
            invariant
                i <= defs.len(),
                dv == defs@.map_values(|d: ServiceDefinition| d@),
                forall|d: &ServiceDefinition| call_requires(spawn, (d,)),
                self@ == start_each(old(self)@, dv.take(i as int)),
                forall|k: u128| #[trigger] old(self).tasks().contains_key(k) ==> self.tasks().contains_key(k)
                    && self.tasks()[k] == old(self).tasks()[k],
            decreases defs.len() - i,
        {
            let d = &defs[i];
            let _ = self.start(d, || spawn(d));
            proof {
                assert(dv.take(i + 1).drop_last() =~= dv.take(i as int));
                assert(dv.take(i + 1).last() == d@);
            }
            i = i + 1;
        }
        assert(dv.take(i as int) =~= dv);
    }

    /// Stops each service of `ids`.
    pub fn stop_each(&mut self, ids: &Vec<ServiceId>)
        ensures
            final(self)@ == stop_each(old(self)@, ids@),
            forall|k: u128| #[trigger] final(self).tasks().contains_key(k) ==> old(self).tasks().contains_key(k)
                && final(self).tasks()[k] == old(self).tasks()[k],
            forall|k: u128| #[trigger] old(self).tasks().contains_key(k) && old(self).tasks()[k] is Some
                && ids@.contains(ServiceId(k)) ==> abort_requested(old(self).tasks()[k].unwrap()),
    {
        let mut i: usize = 0;
        assert(old(self)@ =~= stop_each(old(self)@, ids@.take(0)));
        proof { old(self).lemma_tasks(); }
        while i < ids.len()
            invariant
                i <= ids.len(),
                self@ == stop_each(old(self)@, ids@.take(i as int)),
                old(self).tasks().dom() == old(self)@.dom(),
                forall|k: u128| #[trigger] self.tasks().contains_key(k) ==> old(self).tasks().contains_key(k)
                    && self.tasks()[k] == old(self).tasks()[k],
                forall|k: u128| #[trigger] old(self).tasks().contains_key(k) && old(self).tasks()[k] is Some
                    && ids@.take(i as int).contains(ServiceId(k)) ==> abort_requested(old(self).tasks()[k].unwrap()),
            decreases ids.len() - i,
        {
            let id = ids[i];
            let ghost before = self@;
            proof { self.lemma_tasks(); }
            let _ = self.stop(&id);
            proof {
                assert forall|k: u128| ids@.take(i + 1).contains(ServiceId(k)) <==> (ids@.take(i as int).contains(ServiceId(k)) || ServiceId(k) == id) by {
                    crate::collections::lemma_take_next_contains(ids@, i as int);
                }
                assert(self@ =~= stop_each(old(self)@, ids@.take(i + 1))) by {
                    assert(self@ =~= before.remove(id.0));
                }
                assert forall|k: u128| #[trigger] old(self).tasks().contains_key(k) && old(self).tasks()[k] is Some
                    && ids@.take(i + 1).contains(ServiceId(k)) implies abort_requested(old(self).tasks()[k].unwrap()) by {
                    if !ids@.take(i as int).contains(ServiceId(k)) {
                        assert(ServiceId(k) == id);
                        assert(before.contains_key(k));
                    }
                }
            }
            i = i + 1;
        }
        assert(ids@.take(i as int) =~= ids@);
    }

    /// Refreshes one instance and gives its status; `None` for a service that is not managed.
    pub fn status(&mut self, id: &ServiceId) -> (r: Option<ServiceStatus>)
        ensures
            old(self)@.contains_key(id.0) ==> {
                &&& refreshed(old(self)@[id.0], final(self)@[id.0])
                &&& refreshed_by_task(old(self)@[id.0], old(self).tasks()[id.0], final(self)@[id.0])
                &&& final(self)@ == old(self)@.insert(id.0, final(self)@[id.0])
                &&& r == Some(final(self)@[id.0].status)
            },
            !old(self)@.contains_key(id.0) ==> r is None && final(self)@ == old(self)@,
            final(self).tasks().dom() == old(self).tasks().dom(),
            tasks_kept(old(self).tasks(), final(self).tasks()),
    {
        proof { self.lemma_view_dom(); }
        match self.instances.remove(&id.0) {
            None => None,
            Some(instance) => {
                let mut instance = instance;
                instance.refresh_status();
                let s = instance.status;
                let ghost after = instance@;
                let ghost t = instance.task;
                self.instances.insert(id.0, instance);
                proof {
                    self.lemma_view_dom();
                    assert(self@ =~= old(self)@.insert(id.0, after));
                    assert(self.tasks() =~= old(self).tasks().insert(id.0, t));
                }
                Some(s)
            },
        }
    }

    /// Refreshes every instance.
    fn refresh_all(&mut self)
        ensures
            all_refreshed(old(self)@, final(self)@),
            all_refreshed_by_tasks(old(self)@, old(self).tasks(), final(self)@),
            final(self).tasks().dom() == old(self).tasks().dom(),
            tasks_kept(old(self).tasks(), final(self).tasks()),
    {
        proof { self.lemma_view_dom(); }
        let ghost before = self@;
        let ghost before_tasks = self.tasks();
        let ks = keys_of(&self.instances);
        let mut i: usize = 0;
        while i < ks.len()
            invariant
                i <= ks.len(),
                ks@.to_set() == before.dom(),
                self@.dom() == before.dom(),
                forall|k: u128| #[trigger] before.contains_key(k) ==> refreshed(before[k], self@[k]),
                forall|k: u128| #[trigger] before.contains_key(k) && ks@.take(i as int).contains(k)
                    ==> refreshed_by_task(before[k], before_tasks[k], self@[k]),
                forall|k: u128| #[trigger] before.contains_key(k) && !ks@.take(i as int).contains(k) ==> self@[k] == before[k]
                    && self.tasks()[k] == before_tasks[k],
                ks@.no_duplicates(),
                before_tasks == old(self).tasks(),
                self.tasks().dom() == before_tasks.dom(),
                tasks_kept(before_tasks, self.tasks()),
            decreases ks.len() - i,
        {
            let k = ks[i];
            proof {
                self.lemma_view_dom();
                crate::collections::lemma_take_next_contains(ks@, i as int);
            }
            let removed = self.instances.remove(&k);
            if let Some(instance) = removed {
                let mut instance = instance;
                let ghost t0 = instance.task;
                instance.refresh_status();
                let ghost after = instance@;
                self.instances.insert(k, instance);
                proof {
                    self.lemma_view_dom();
                    assert(refreshed(before[k], after));
                    assert(refreshed_by_task(before[k], before_tasks[k], after));
                    assert(tasks_kept(before_tasks, self.tasks()));
                }
            } else {
                proof { self.lemma_view_dom(); }
            }
            i = i + 1;
        }
        proof {
            assert(ks@.take(i as int) == ks@);
            assert forall|k: u128| #[trigger] before.contains_key(k) implies ks@.take(i as int).contains(k) by {
                assert(ks@.to_set().contains(k));
            }
        }
    }

    /// Refreshes every instance and gives the identities of those that run.
    pub fn running_ids(&mut self) -> (r: HashSet<u128>)
        ensures
            all_refreshed(old(self)@, final(self)@),
            all_refreshed_by_tasks(old(self)@, old(self).tasks(), final(self)@),
            final(self).tasks().dom() == old(self).tasks().dom(),
            tasks_kept(old(self).tasks(), final(self).tasks()),
            r@ == running_set(final(self)@),
    {
        self.refresh_all();
        proof { self.lemma_view_dom(); }
        let ks = keys_of(&self.instances);
        let mut r: HashSet<u128> = HashSet::new();
        let mut i: usize = 0;
        while i < ks.len()
            invariant
                i <= ks.len(),
                ks@.to_set() == self@.dom(),
                self@.dom() == self.instances@.dom(),
                forall|k: u128| #[trigger] self.instances@.contains_key(k) ==> self@[k] == self.instances@[k]@,
                r@ == Set::new(|k: u128| ks@.take(i as int).contains(k) && self@[k].status == ServiceStatus::Running),
            decreases ks.len() - i,
        {
            let k = ks[i];
            assert(ks@.to_set().contains(k));
            let inst = self.instances.get(&k).unwrap();
            if inst.status == ServiceStatus::Running {
                r.insert(k);
            }
            proof {
                assert forall|y: u128| ks@.take(i + 1).contains(y) <==> (ks@.take(i as int).contains(y) || y == k) by {
                    crate::collections::lemma_take_next_contains(ks@, i as int);
                }
                assert(r@ =~= Set::new(|y: u128| ks@.take(i + 1).contains(y) && self@[y].status == ServiceStatus::Running));
            }
            i = i + 1;
        }
        proof {
            assert(ks@.take(i as int) == ks@);
            assert forall|y: u128| r@.contains(y) <==> running_set(self@).contains(y) by {
                if self@.contains_key(y) {
                    assert(ks@.to_set().contains(y));
                }
            }
            assert(r@ =~= running_set(self@));
        }
        r
    }

    /// The number of managed services.
    pub fn len(&self) -> (n: usize)
        ensures
            n == self@.len(),
    {
        proof { self.lemma_view_dom(); }
        self.instances.len()
    }

    /// Whether no service is managed.
    pub fn is_empty(&self) -> (b: bool)
        ensures
            b == (self@.len() == 0),
    {
        proof { self.lemma_view_dom(); }
        self.instances.len() == 0
    }

    /// Stops every managed service.
    pub fn stop_all(&mut self)
        ensures
            final(self)@ == Map::<u128, ServiceInstanceView>::empty(),
            final(self).tasks() == Map::<u128, Option<tokio::task::JoinHandle<()>>>::empty(),
            forall|k: u128| #[trigger] old(self).tasks().contains_key(k) && old(self).tasks()[k] is Some
                ==> abort_requested(old(self).tasks()[k].unwrap()),
    {
        proof { self.lemma_view_dom(); }
        let ks = keys_of(&self.instances);
        let mut i: usize = 0;
        while i < ks.len()
            invariant
                i <= ks.len(),
                ks@.no_duplicates(),
                ks@.to_set() == old(self)@.dom(),
                old(self).tasks().dom() == old(self)@.dom(),
                self@.dom() == old(self)@.dom().difference(ks@.take(i as int).to_set()),
                forall|k: u128| #[trigger] self.tasks().contains_key(k) ==> self.tasks()[k] == old(self).tasks()[k],
                forall|k: u128| #[trigger] old(self).tasks().contains_key(k) && old(self).tasks()[k] is Some
                    && ks@.take(i as int).contains(k) ==> abort_requested(old(self).tasks()[k].unwrap()),
            decreases ks.len() - i,
        {
            let id = ServiceId(ks[i]);
            proof {
                self.lemma_tasks();
                crate::collections::lemma_take_next_contains(ks@, i as int);
                assert(ks@.to_set().contains(ks@[i as int]));
                assert(!ks@.take(i as int).contains(ks@[i as int])) by {
                    if ks@.take(i as int).contains(ks@[i as int]) {
                        let q = choose|q: int| 0 <= q < i && ks@.take(i as int)[q] == ks@[i as int];
                        assert(ks@[q] == ks@[i as int]);
                    }
                }
                assert(!ks@.take(i as int).to_set().contains(ks@[i as int]));
                assert(self.tasks().contains_key(ks@[i as int]));
            }
            let ghost tb = self.tasks();
            let _ = self.stop(&id);
            proof {
                assert(tb[ks@[i as int]] == old(self).tasks()[ks@[i as int]]);
                assert forall|k: u128| #[trigger] old(self).tasks().contains_key(k) && old(self).tasks()[k] is Some
                    && ks@.take(i + 1).contains(k) implies abort_requested(old(self).tasks()[k].unwrap()) by {
                    if !ks@.take(i as int).contains(k) {
                        assert(k == ks@[i as int]);
                    }
                }
                assert(ks@.take(i + 1) == ks@.take(i as int).push(ks@[i as int]));
                lemma_push_to_set(ks@.take(i as int), ks@[i as int]);
                assert(self@.dom() =~= old(self)@.dom().difference(ks@.take(i + 1).to_set()));
            }
            i = i + 1;
        }
        proof {
            assert(ks@.take(i as int) == ks@);
            assert(self@.dom() =~= Set::<u128>::empty());
            assert(self@ =~= Map::<u128, ServiceInstanceView>::empty());
            self.lemma_view_dom();
            assert(self.tasks() =~= Map::<u128, Option<tokio::task::JoinHandle<()>>>::empty());
        }
    }

    /// Refreshes every instance and lists each managed service with its status, in
    /// increasing order of identity.
    pub fn snapshot_statuses(&mut self) -> (r: Vec<(ServiceId, ServiceStatus)>)
        ensures
            all_refreshed(old(self)@, final(self)@),
            all_refreshed_by_tasks(old(self)@, old(self).tasks(), final(self)@),
            final(self).tasks().dom() == old(self).tasks().dom(),
            tasks_kept(old(self).tasks(), final(self).tasks()),
            r@ == status_pairs(final(self)@),
    {
        self.refresh_all();
        proof { self.lemma_view_dom(); }
        let ks = sorted_keys_of(&self.instances);
        let mut r: Vec<(ServiceId, ServiceStatus)> = Vec::new();
        let mut i: usize = 0;
        while i < ks.len()
            invariant
                i <= ks.len(),
                ks@ == sorted_ints(self@.dom()),
                ks@.to_set() == self@.dom(),
                self@.dom() == self.instances@.dom(),
                forall|k: u128| #[trigger] self.instances@.contains_key(k) ==> self@[k] == self.instances@[k]@,
                r@ == statuses_at(ks@.take(i as int), self@),
            decreases ks.len() - i,
        {
            let k = ks[i];
            assert(ks@.to_set().contains(k)) by {
                assert(ks@[i as int] == k);
            }
            let inst = self.instances.get(&k).unwrap();
            r.push((ServiceId(k), inst.status));
            proof {
                assert(r@ =~= statuses_at(ks@.take(i + 1), self@));
            }
            i = i + 1;
        }
        proof {
            assert(ks@.take(i as int) == ks@);
        }
        r
    }
}

/// A placeholder for per-service state on the agent; it carries no data.
#[derive(Debug)]
pub struct ServiceState {
    _placeholder: (),
}

impl Clone for ServiceState {
    fn clone(&self) -> (s: ServiceState) {
        ServiceState { _placeholder: () }
    }
}

impl ServiceState {
    pub fn new() -> (s: ServiceState) {
        ServiceState { _placeholder: () }
    }
}

} // verus!
