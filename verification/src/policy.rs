//! The policy: which application's device memory is protected, and how.
//!
//! The policy itself touches nothing. Each operation is begun by a call; as long as
//! `request` asks for something, its caller carries that out and hands the answer to
//! `resume`.

use crate::activate;
use crate::activate::ActivateTask;
use crate::each;
use crate::each::{EachTask, Work};
use crate::events;
use crate::events::{EventsTask, RebuildTask};
use crate::maintenance;
use crate::maintenance::MaintenanceTask;
use crate::path;
use crate::path::{CgroupPath, PathModel};
use crate::paths;
use crate::paths::PathSet;
use crate::program;
use crate::program::{Program, Progress, Task, Unfinished};
use crate::reconcile;
use crate::reconcile::ReconcileTask;
use crate::register;
use crate::register::{EligibleTask, RegisterTask};
use crate::request::{Reply, Request};
use crate::restore;
use crate::restore::RestoreTask;
use crate::state;
use crate::state::{PolicyModel, PolicyState};
use crate::untrack;
use crate::untrack::UntrackTask;
use crate::watch::WatchEvent;
use vstd::prelude::*;

verus! {

/// The set with a path that may be absent.
pub open spec fn with_optional(set: Seq<PathModel>, path: Option<PathModel>) -> Seq<PathModel> {
    match path {
        Some(path) => paths::with(set, path),
        None => set,
    }
}

/// The cgroups that have to do with the policy, but for outstanding restorations.
pub open spec fn involved(state: PolicyModel) -> Seq<PathModel> {
    with_optional(
        paths::with_all(
            paths::with_all(
                paths::with_all(
                    paths::with_all(Seq::empty(), paths::keys(state.paths)),
                    state.pending_registration,
                ),
                paths::keys(state.focus_values),
            ),
            state.pending_apply,
        ),
        state.foreground,
    )
}

/// The paths that are no application cgroups beneath a root.
pub open spec fn outside(root: PathModel, all: Seq<PathModel>) -> Seq<PathModel>
    decreases all.len(),
{
    if all.len() == 0 {
        Seq::empty()
    } else {
        let rest = outside(root, all.drop_last());
        if path::application_cgroup(root, all.last()) {
            rest
        } else {
            rest.push(all.last())
        }
    }
}

/// Lets go of every cgroup that is no application cgroup beneath the root. A
/// restoration that fails stays outstanding.
pub open spec fn restrict_to(state: PolicyModel, root: PathModel) -> Program {
    each::each(Work::Untrack, state, outside(root, involved(state)), 0)
}

/// The cgroups that are boosted, or may be.
pub open spec fn unsettled(state: PolicyModel) -> Seq<PathModel> {
    with_optional(
        paths::with_all(state.pending_restore, state.pending_apply),
        state.foreground,
    )
}

/// Restores everything. No boost is outstanding any more.
pub open spec fn shutdown(state: PolicyModel) -> Program {
    each::each(
        Work::Restore,
        PolicyModel { pending_apply: Seq::empty(), ..state },
        unsettled(state),
        0,
    )
}

/// An operation of the policy that waits for an answer.
pub enum PolicyTask {
    Restore { restoring: RestoreTask },
    Activate { activating: ActivateTask },
    Eligible { checking: EligibleTask },
    Register { registering: RegisterTask },
    Untrack { untracking: UntrackTask },
    Each { working: EachTask },
    Reconcile { reconciling: ReconcileTask },
    Rebuild { rebuilding: RebuildTask },
    Events { acting: EventsTask },
    Maintenance { maintaining: MaintenanceTask },
}

impl Unfinished for PolicyTask {
    open spec fn valid(&self) -> bool {
        match self {
            PolicyTask::Restore { restoring } => restoring.valid(),
            PolicyTask::Activate { activating } => activating.valid(),
            PolicyTask::Eligible { checking } => checking.valid(),
            PolicyTask::Register { registering } => registering.valid(),
            PolicyTask::Untrack { untracking } => untracking.valid(),
            PolicyTask::Each { working } => working.valid(),
            PolicyTask::Reconcile { reconciling } => reconciling.valid(),
            PolicyTask::Rebuild { rebuilding } => rebuilding.valid(),
            PolicyTask::Events { acting } => acting.valid(),
            PolicyTask::Maintenance { maintaining } => maintaining.valid(),
        }
    }

    open spec fn program(&self, state: PolicyModel) -> Program {
        match self {
            PolicyTask::Restore { restoring } => restoring.program(state),
            PolicyTask::Activate { activating } => activating.program(state),
            PolicyTask::Eligible { checking } => checking.program(state),
            PolicyTask::Register { registering } => registering.program(state),
            PolicyTask::Untrack { untracking } => untracking.program(state),
            PolicyTask::Each { working } => working.program(state),
            PolicyTask::Reconcile { reconciling } => reconciling.program(state),
            PolicyTask::Rebuild { rebuilding } => rebuilding.program(state),
            PolicyTask::Events { acting } => acting.program(state),
            PolicyTask::Maintenance { maintaining } => maintaining.program(state),
        }
    }

    proof fn lemma_asks(&self, state: PolicyModel) {
        match self {
            PolicyTask::Restore { restoring } => restoring.lemma_asks(state),
            PolicyTask::Activate { activating } => activating.lemma_asks(state),
            PolicyTask::Eligible { checking } => checking.lemma_asks(state),
            PolicyTask::Register { registering } => registering.lemma_asks(state),
            PolicyTask::Untrack { untracking } => untracking.lemma_asks(state),
            PolicyTask::Each { working } => working.lemma_asks(state),
            PolicyTask::Reconcile { reconciling } => reconciling.lemma_asks(state),
            PolicyTask::Rebuild { rebuilding } => rebuilding.lemma_asks(state),
            PolicyTask::Events { acting } => acting.lemma_asks(state),
            PolicyTask::Maintenance { maintaining } => maintaining.lemma_asks(state),
        }
    }
}

/// The policy.
pub struct ForegroundPolicy {
    /// What it remembers.
    state: PolicyState,
    /// The operation that waits for an answer, or the result of the last one.
    step: Progress<PolicyTask>,
}

/// The paths that are no application cgroups beneath a root.
fn outside_paths(root: &CgroupPath, all: &PathSet) -> (found: Vec<CgroupPath>)
    ensures
        paths::path_views(found@) == outside(root@, all@),
{
    let mut found: Vec<CgroupPath> = Vec::new();
    let count: usize = all.len();
    let mut i: usize = 0;
    proof {
        assert(all@.take(0) =~= Seq::<PathModel>::empty());
        assert(paths::path_views(found@) =~= Seq::<PathModel>::empty());
    }
    while i < count
        invariant
            count == all@.len(),
            i <= count,
            paths::path_views(found@) == outside(root@, all@.take(i as int)),
        decreases count - i,
    {
        proof {
            assert(all@.take(i + 1).drop_last() =~= all@.take(i as int));
            assert(all@.take(i + 1).last() == all@[i as int]);
        }
        if !path::is_application_cgroup(root, all.at(i)) {
            let path = all.at(i).duplicate();
            proof {
                assert(paths::path_views(found@.push(path)) =~= paths::path_views(found@).push(
                    path@,
                ));
            }
            found.push(path);
        }
        i = i + 1;
    }
    proof {
        assert(all@.take(i as int) =~= all@);
    }
    found
}

impl Task for PolicyTask {
    fn request(&self, state: &PolicyState) -> (request: Request) {
        match self {
            PolicyTask::Restore { restoring } => restoring.request(state),
            PolicyTask::Activate { activating } => activating.request(state),
            PolicyTask::Eligible { checking } => checking.request(state),
            PolicyTask::Register { registering } => registering.request(state),
            PolicyTask::Untrack { untracking } => untracking.request(state),
            PolicyTask::Each { working } => working.request(state),
            PolicyTask::Reconcile { reconciling } => reconciling.request(state),
            PolicyTask::Rebuild { rebuilding } => rebuilding.request(state),
            PolicyTask::Events { acting } => acting.request(state),
            PolicyTask::Maintenance { maintaining } => maintaining.request(state),
        }
    }

    fn resume(self, state: &mut PolicyState, reply: Reply) -> (progress: Progress<Self>) {
        match self {
            PolicyTask::Restore { restoring } => match restoring.resume(state, reply) {
                Progress::Waiting(restoring) => Progress::Waiting(PolicyTask::Restore { restoring }),
                Progress::Finished(result) => Progress::Finished(result),
            },
            PolicyTask::Activate { activating } => match activating.resume(state, reply) {
                Progress::Waiting(activating) => Progress::Waiting(PolicyTask::Activate { activating }),
                Progress::Finished(result) => Progress::Finished(result),
            },
            PolicyTask::Eligible { checking } => match checking.resume(state, reply) {
                Progress::Waiting(checking) => Progress::Waiting(PolicyTask::Eligible { checking }),
                Progress::Finished(result) => Progress::Finished(result),
            },
            PolicyTask::Register { registering } => match registering.resume(state, reply) {
                Progress::Waiting(registering) => Progress::Waiting(PolicyTask::Register { registering }),
                Progress::Finished(result) => Progress::Finished(result),
            },
            PolicyTask::Untrack { untracking } => match untracking.resume(state, reply) {
                Progress::Waiting(untracking) => Progress::Waiting(PolicyTask::Untrack { untracking }),
                Progress::Finished(result) => Progress::Finished(result),
            },
            PolicyTask::Each { working } => match working.resume(state, reply) {
                Progress::Waiting(working) => Progress::Waiting(PolicyTask::Each { working }),
                Progress::Finished(result) => Progress::Finished(result),
            },
            PolicyTask::Reconcile { reconciling } => match reconciling.resume(state, reply) {
                Progress::Waiting(reconciling) => Progress::Waiting(PolicyTask::Reconcile { reconciling }),
                Progress::Finished(result) => Progress::Finished(result),
            },
            PolicyTask::Rebuild { rebuilding } => match rebuilding.resume(state, reply) {
                Progress::Waiting(rebuilding) => Progress::Waiting(PolicyTask::Rebuild { rebuilding }),
                Progress::Finished(result) => Progress::Finished(result),
            },
            PolicyTask::Events { acting } => match acting.resume(state, reply) {
                Progress::Waiting(acting) => Progress::Waiting(PolicyTask::Events { acting }),
                Progress::Finished(result) => Progress::Finished(result),
            },
            PolicyTask::Maintenance { maintaining } => match maintaining.resume(state, reply) {
                Progress::Waiting(maintaining) => Progress::Waiting(PolicyTask::Maintenance { maintaining }),
                Progress::Finished(result) => Progress::Finished(result),
            },
        }
    }
}

impl ForegroundPolicy {
    /// What holds of every policy.
    pub closed spec fn valid(&self) -> bool {
        self.step.valid()
    }

    /// What it remembers.
    pub closed spec fn memory(&self) -> PolicyModel {
        self.state@
    }

    /// What is left of the operation.
    pub closed spec fn remaining(&self) -> Program {
        self.step.program(self.state@)
    }

    /// A policy that remembers nothing.
    pub fn new(root: CgroupPath, watching: bool) -> (policy: Self)
        ensures
            policy.valid(),
            policy.memory() == state::initial(root@, watching),
            policy.remaining() == Program::Done(state::initial(root@, watching), true),
    {
        ForegroundPolicy {
            state: PolicyState::new(root, watching),
            step: Progress::Finished(true),
        }
    }

    /// What it remembers.
    pub fn state(&self) -> (state: &PolicyState)
        ensures
            state@ == self.memory(),
    {
        &self.state
    }

    /// What it remembers, to be changed between operations.
    pub fn state_mut(&mut self) -> (state: &mut PolicyState)
        requires
            old(self).valid(),
            old(self).remaining() is Done,
        ensures
            state@ == old(self).memory(),
            final(self).valid(),
            final(self).memory() == final(state)@,
            old(self).remaining() matches Program::Done(_, result) && final(self).remaining()
                == Program::Done(final(state)@, result),
    {
        proof {
            if let Progress::Waiting(task) = &self.step {
                task.lemma_asks(self.state@);
            }
        }
        &mut self.state
    }

    /// What the operation asks for, as long as it has not ended.
    pub fn request(&self) -> (request: Option<Request>)
        requires
            self.valid(),
        ensures
            match program::asked(self.remaining()) {
                Some(call) => request matches Some(asked) && asked@ == call,
                None => request is None,
            },
    {
        match &self.step {
            Progress::Waiting(task) => Some(task.request(&self.state)),
            Progress::Finished(_) => None,
        }
    }

    /// Goes on with the answer. Without an operation there is nothing to go on with.
    pub fn resume(&mut self, reply: Reply)
        requires
            old(self).valid(),
        ensures
            final(self).valid(),
            final(self).remaining() == program::after_answer(old(self).remaining(), reply@),
    {
        let mut step: Progress<PolicyTask> = Progress::Finished(true);
        std::mem::swap(&mut step, &mut self.step);
        self.step = match step {
            Progress::Waiting(task) => task.resume(&mut self.state, reply),
            Progress::Finished(result) => Progress::Finished(result),
        };
    }

    /// The result of the operation, once it has ended. What the policy remembers is then
    /// what the operation has ended with.
    pub fn result(&self) -> (result: Option<bool>)
        requires
            self.valid(),
        ensures
            match self.remaining() {
                Program::Done(state, outcome) => result == Some(outcome) && self.memory() == state,
                Program::Ask(_, _) => result is None,
            },
    {
        match &self.step {
            Progress::Waiting(task) => {
                proof {
                    task.lemma_asks(self.state@);
                }
                None
            },
            Progress::Finished(result) => Some(*result),
        }
    }

    /// Begins to restore a cgroup's limits.
    pub fn restore(&mut self, cgroup: &CgroupPath)
        requires
            old(self).valid(),
            old(self).remaining() is Done,
        ensures
            final(self).valid(),
            final(self).remaining() == restore::restore(old(self).memory(), cgroup@),
    {
        let restoring = restore::start_restore(&mut self.state, cgroup);
        self.step = Progress::Waiting(PolicyTask::Restore { restoring });
    }

    /// Begins to boost a cgroup.
    pub fn activate(&mut self, cgroup: &CgroupPath)
        requires
            old(self).valid(),
            old(self).remaining() is Done,
        ensures
            final(self).valid(),
            final(self).remaining() == activate::activate(old(self).memory(), cgroup@),
    {
        self.step = match activate::start_activate(&mut self.state, cgroup) {
            Progress::Waiting(activating) => Progress::Waiting(PolicyTask::Activate { activating }),
            Progress::Finished(result) => Progress::Finished(result),
        };
    }

    /// Begins to find out whether a cgroup can be boosted.
    pub fn eligible(&mut self, cgroup: &CgroupPath)
        requires
            old(self).valid(),
            old(self).remaining() is Done,
        ensures
            final(self).valid(),
            final(self).remaining() == register::eligible(old(self).memory(), cgroup@),
    {
        let checking = EligibleTask::Limits { path: cgroup.duplicate() };
        self.step = Progress::Waiting(PolicyTask::Eligible { checking });
    }

    /// Begins to track a cgroup.
    pub fn register(&mut self, cgroup: &CgroupPath)
        requires
            old(self).valid(),
            old(self).remaining() is Done,
        ensures
            final(self).valid(),
            final(self).remaining() == register::register(old(self).memory(), cgroup@),
    {
        self.step = match register::start_register(&mut self.state, cgroup) {
            Progress::Waiting(registering) => Progress::Waiting(PolicyTask::Register { registering }),
            Progress::Finished(result) => Progress::Finished(result),
        };
    }

    /// Begins to let go of a cgroup.
    pub fn untrack(&mut self, cgroup: &CgroupPath)
        requires
            old(self).valid(),
            old(self).remaining() is Done,
        ensures
            final(self).valid(),
            final(self).remaining() == untrack::untrack(old(self).memory(), cgroup@),
    {
        let untracking = untrack::start_untrack(&mut self.state, cgroup);
        self.step = Progress::Waiting(PolicyTask::Untrack { untracking });
    }

    /// Begins to let go of every cgroup that is no application cgroup beneath the root.
    pub fn restrict_to(&mut self, root: &CgroupPath)
        requires
            old(self).valid(),
            old(self).remaining() is Done,
        ensures
            final(self).valid(),
            final(self).remaining() == restrict_to(old(self).memory(), root@),
    {
        let mut all = PathSet::new();
        all.add_all(&self.state.paths.paths());
        all.extend(&self.state.pending_registration);
        all.add_all(&self.state.focus_values.paths());
        all.extend(&self.state.pending_apply);
        if let Some(foreground) = &self.state.foreground {
            all.insert(foreground.duplicate());
        }
        let obsolete = outside_paths(root, &all);
        self.step = match each::start_each(Work::Untrack, &mut self.state, obsolete, 0) {
            Progress::Waiting(working) => Progress::Waiting(PolicyTask::Each { working }),
            Progress::Finished(result) => Progress::Finished(result),
        };
    }

    /// Begins to act on the events of the watches.
    pub fn process_events(&mut self, events: &Vec<WatchEvent>)
        requires
            old(self).valid(),
            old(self).remaining() is Done,
        ensures
            final(self).valid(),
            final(self).remaining() == events::process_events(old(self).memory(), events@),
    {
        self.step = match events::start_events(&mut self.state, events) {
            Progress::Waiting(acting) => Progress::Waiting(PolicyTask::Events { acting }),
            Progress::Finished(result) => Progress::Finished(result),
        };
    }

    /// Begins to make every watch anew.
    pub fn rebuild_watches(&mut self)
        requires
            old(self).valid(),
            old(self).remaining() is Done,
        ensures
            final(self).valid(),
            final(self).remaining() == events::rebuild_watches(old(self).memory()),
    {
        self.step = Progress::Waiting(PolicyTask::Rebuild { rebuilding: RebuildTask::Reset });
    }

    /// Begins to look at the focus of all tracked cgroups as if for the first time.
    pub fn reconcile(&mut self)
        requires
            old(self).valid(),
            old(self).remaining() is Done,
        ensures
            final(self).valid(),
            final(self).remaining() == events::reconcile(old(self).memory()),
    {
        self.step = match events::start_over(&mut self.state) {
            Progress::Waiting(reconciling) => Progress::Waiting(PolicyTask::Reconcile { reconciling }),
            Progress::Finished(result) => Progress::Finished(result),
        };
    }

    /// Begins to look at the focus of cgroups.
    pub fn reconcile_paths(&mut self, paths: Vec<CgroupPath>)
        requires
            old(self).valid(),
            old(self).remaining() is Done,
        ensures
            final(self).valid(),
            final(self).remaining() == reconcile::reconcile_paths(
                old(self).memory(),
                paths::path_views(paths@),
            ),
    {
        self.step = match reconcile::start_reconcile(&mut self.state, paths) {
            Progress::Waiting(reconciling) => Progress::Waiting(PolicyTask::Reconcile { reconciling }),
            Progress::Finished(result) => Progress::Finished(result),
        };
    }

    /// Begins to restore everything.
    pub fn shutdown(&mut self)
        requires
            old(self).valid(),
            old(self).remaining() is Done,
        ensures
            final(self).valid(),
            final(self).remaining() == shutdown(old(self).memory()),
    {
        let mut all = self.state.pending_restore.duplicate();
        all.extend(&self.state.pending_apply);
        if let Some(foreground) = &self.state.foreground {
            all.insert(foreground.duplicate());
        }
        self.state.pending_apply = PathSet::new();
        self.step = match each::start_each(Work::Restore, &mut self.state, all.to_vec(), 0) {
            Progress::Waiting(working) => Progress::Waiting(PolicyTask::Each { working }),
            Progress::Finished(result) => Progress::Finished(result),
        };
    }

    /// Begins a round of maintenance. It is due once per second.
    pub fn maintenance(&mut self)
        requires
            old(self).valid(),
            old(self).remaining() is Done,
        ensures
            final(self).valid(),
            final(self).remaining() == maintenance::maintenance(old(self).memory()),
    {
        self.step = match maintenance::start_maintenance(&mut self.state) {
            Progress::Waiting(maintaining) => Progress::Waiting(PolicyTask::Maintenance { maintaining }),
            Progress::Finished(result) => Progress::Finished(result),
        };
    }
}

}
