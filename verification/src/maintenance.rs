//! Retrying what is outstanding.

use crate::each;
use crate::each::{EachTask, Work};
use crate::focus;
use crate::path::{CgroupPath, PathModel};
use crate::paths;
use crate::paths::PathSet;
use crate::program;
use crate::program::{Program, Progress, Task, Unfinished};
use crate::reconcile;
use crate::reconcile::ReconcileTask;
use crate::request::{Answer, Reply, Request};
use crate::state::{PolicyModel, PolicyState};
use vstd::prelude::*;

verus! {

/// Tries everything that is outstanding once more.
///
/// The outstanding registrations come first. Then the focus is looked at, and the
/// restorations that were outstanding before are tried. If the look was complete,
/// the boosts that were outstanding before, and still are, are tried last.
pub open spec fn maintenance(state: PolicyModel) -> Program {
    and_survey(
        each::each(
            Work::Retry,
            PolicyModel { pending_registration: Seq::empty(), ..state },
            state.pending_registration,
            0,
        ),
    )
}

/// Looks at the focus after the operation.
pub open spec fn and_survey(first: Program) -> Program {
    program::bind(first, |state: PolicyModel, done: bool| survey(state))
}

/// The cgroups that are tracked, and those whose focus has been seen.
pub open spec fn known_paths(state: PolicyModel) -> Seq<PathModel> {
    paths::with_all(
        paths::with_all(Seq::empty(), paths::keys(state.paths)),
        paths::keys(state.focus_values),
    )
}

pub open spec fn survey(state: PolicyModel) -> Program {
    and_restore(
        reconcile::reconcile_paths(state, known_paths(state)),
        state.pending_restore,
        state.pending_apply,
    )
}

/// Tries restorations, and then boosts, after the look at the focus.
pub open spec fn and_restore(
    first: Program,
    restore: Seq<PathModel>,
    apply: Seq<PathModel>,
) -> Program {
    program::bind(
        first,
        |state: PolicyModel, complete: bool|
            and_apply(each::each(Work::Restore, state, restore, 0), complete, apply),
    )
}

/// Tries boosts after the operation, if the look at the focus was complete.
pub open spec fn and_apply(first: Program, complete: bool, apply: Seq<PathModel>) -> Program {
    program::bind(
        first,
        |state: PolicyModel, done: bool|
            if complete {
                each::each(Work::Apply, hopeful(state), apply, 0)
            } else {
                Program::Done(state, true)
            },
    )
}

/// The boost of a cgroup that claims the focus is outstanding, where none is boosted
/// and nothing is ambiguous.
pub open spec fn hopeful(state: PolicyModel) -> PolicyModel {
    if state.foreground is None && state.ambiguous_active.len() == 0 {
        PolicyModel {
            pending_apply: paths::with_all(
                state.pending_apply,
                focus::claimants(state.focus_values),
            ),
            ..state
        }
    } else {
        state
    }
}

proof fn lemma_and_survey(first: Program, answer: Answer)
    requires
        first is Ask,
    ensures
        program::asked(and_survey(first)) == program::asked(first),
        program::after_answer(and_survey(first), answer) == and_survey(
            program::after_answer(first, answer),
        ),
{
    program::lemma_bind(first, |state: PolicyModel, done: bool| survey(state), answer);
}

proof fn lemma_and_restore(
    first: Program,
    restore: Seq<PathModel>,
    apply: Seq<PathModel>,
    answer: Answer,
)
    requires
        first is Ask,
    ensures
        program::asked(and_restore(first, restore, apply)) == program::asked(first),
        program::after_answer(and_restore(first, restore, apply), answer) == and_restore(
            program::after_answer(first, answer),
            restore,
            apply,
        ),
{
    program::lemma_bind(
        first,
        |state: PolicyModel, complete: bool|
            and_apply(each::each(Work::Restore, state, restore, 0), complete, apply),
        answer,
    );
}

proof fn lemma_and_apply(first: Program, complete: bool, apply: Seq<PathModel>, answer: Answer)
    requires
        first is Ask,
    ensures
        program::asked(and_apply(first, complete, apply)) == program::asked(first),
        program::after_answer(and_apply(first, complete, apply), answer) == and_apply(
            program::after_answer(first, answer),
            complete,
            apply,
        ),
{
    program::lemma_bind(
        first,
        |state: PolicyModel, done: bool|
            if complete {
                each::each(Work::Apply, hopeful(state), apply, 0)
            } else {
                Program::Done(state, true)
            },
        answer,
    );
}

/// A round of maintenance that waits for an answer.
pub enum MaintenanceTask {
    /// Registrations are being tried.
    Registering { registering: EachTask },
    /// The focus is being looked at.
    Surveying { surveying: ReconcileTask, restore: Vec<CgroupPath>, apply: Vec<CgroupPath> },
    /// Restorations are being tried.
    Restoring { restoring: EachTask, complete: bool, apply: Vec<CgroupPath> },
    /// Boosts are being tried.
    Applying { applying: EachTask },
}

impl Unfinished for MaintenanceTask {
    open spec fn valid(&self) -> bool {
        match self {
            MaintenanceTask::Registering { registering } => registering.valid(),
            MaintenanceTask::Surveying { surveying, .. } => surveying.valid(),
            MaintenanceTask::Restoring { restoring, .. } => restoring.valid(),
            MaintenanceTask::Applying { applying } => applying.valid(),
        }
    }

    open spec fn program(&self, state: PolicyModel) -> Program {
        match self {
            MaintenanceTask::Registering { registering } => and_survey(registering.program(state)),
            MaintenanceTask::Surveying { surveying, restore, apply } => and_restore(
                surveying.program(state),
                paths::path_views(restore@),
                paths::path_views(apply@),
            ),
            MaintenanceTask::Restoring { restoring, complete, apply } => and_apply(
                restoring.program(state),
                *complete,
                paths::path_views(apply@),
            ),
            MaintenanceTask::Applying { applying } => applying.program(state),
        }
    }

    proof fn lemma_asks(&self, state: PolicyModel) {
        match self {
            MaintenanceTask::Registering { registering } => registering.lemma_asks(state),
            MaintenanceTask::Surveying { surveying, .. } => surveying.lemma_asks(state),
            MaintenanceTask::Restoring { restoring, .. } => restoring.lemma_asks(state),
            MaintenanceTask::Applying { applying } => applying.lemma_asks(state),
        }
    }
}

fn after_restoring(
    step: Progress<EachTask>,
    state: &mut PolicyState,
    complete: bool,
    apply: Vec<CgroupPath>,
) -> (progress: Progress<MaintenanceTask>)
    requires
        step.valid(),
    ensures
        progress.valid(),
        progress.program(final(state)@) == and_apply(
            step.program(old(state)@),
            complete,
            paths::path_views(apply@),
        ),
{
    match step {
        Progress::Waiting(restoring) => Progress::Waiting(
            MaintenanceTask::Restoring { restoring, complete, apply },
        ),
        Progress::Finished(_) => {
            if !complete {
                return Progress::Finished(true);
            }
            if state.foreground.is_none() && state.ambiguous_active.is_empty() {
                let active = focus::active_paths(&state.focus_values);
                state.pending_apply.extend(&active);
            }
            match each::start_each(Work::Apply, state, apply, 0) {
                Progress::Waiting(applying) => Progress::Waiting(
                    MaintenanceTask::Applying { applying },
                ),
                Progress::Finished(result) => Progress::Finished(result),
            }
        },
    }
}

fn after_surveying(
    step: Progress<ReconcileTask>,
    state: &mut PolicyState,
    restore: Vec<CgroupPath>,
    apply: Vec<CgroupPath>,
) -> (progress: Progress<MaintenanceTask>)
    requires
        step.valid(),
    ensures
        progress.valid(),
        progress.program(final(state)@) == and_restore(
            step.program(old(state)@),
            paths::path_views(restore@),
            paths::path_views(apply@),
        ),
{
    match step {
        Progress::Waiting(surveying) => Progress::Waiting(
            MaintenanceTask::Surveying { surveying, restore, apply },
        ),
        Progress::Finished(complete) => {
            let step = each::start_each(Work::Restore, state, restore, 0);
            after_restoring(step, state, complete, apply)
        },
    }
}

fn after_registering(step: Progress<EachTask>, state: &mut PolicyState) -> (progress: Progress<
    MaintenanceTask,
>)
    requires
        step.valid(),
    ensures
        progress.valid(),
        progress.program(final(state)@) == and_survey(step.program(old(state)@)),
{
    match step {
        Progress::Waiting(registering) => Progress::Waiting(
            MaintenanceTask::Registering { registering },
        ),
        Progress::Finished(_) => {
            let restore = state.pending_restore.to_vec();
            let apply = state.pending_apply.to_vec();
            let mut known = PathSet::new();
            known.add_all(&state.paths.paths());
            known.add_all(&state.focus_values.paths());
            let step = reconcile::start_reconcile(state, known.to_vec());
            after_surveying(step, state, restore, apply)
        },
    }
}

impl Task for MaintenanceTask {
    fn request(&self, state: &PolicyState) -> (request: Request) {
        match self {
            MaintenanceTask::Registering { registering } => {
                proof {
                    registering.lemma_asks(state@);
                }
                registering.request(state)
            },
            MaintenanceTask::Surveying { surveying, .. } => {
                proof {
                    surveying.lemma_asks(state@);
                }
                surveying.request(state)
            },
            MaintenanceTask::Restoring { restoring, .. } => {
                proof {
                    restoring.lemma_asks(state@);
                }
                restoring.request(state)
            },
            MaintenanceTask::Applying { applying } => applying.request(state),
        }
    }

    fn resume(self, state: &mut PolicyState, reply: Reply) -> (progress: Progress<Self>) {
        proof {
            self.lemma_asks(state@);
        }
        match self {
            MaintenanceTask::Registering { registering } => {
                proof {
                    registering.lemma_asks(state@);
                    lemma_and_survey(registering.program(state@), reply@);
                }
                let step = registering.resume(state, reply);
                after_registering(step, state)
            },
            MaintenanceTask::Surveying { surveying, restore, apply } => {
                proof {
                    surveying.lemma_asks(state@);
                    lemma_and_restore(
                        surveying.program(state@),
                        paths::path_views(restore@),
                        paths::path_views(apply@),
                        reply@,
                    );
                }
                let step = surveying.resume(state, reply);
                after_surveying(step, state, restore, apply)
            },
            MaintenanceTask::Restoring { restoring, complete, apply } => {
                proof {
                    restoring.lemma_asks(state@);
                    lemma_and_apply(
                        restoring.program(state@),
                        complete,
                        paths::path_views(apply@),
                        reply@,
                    );
                }
                let step = restoring.resume(state, reply);
                after_restoring(step, state, complete, apply)
            },
            MaintenanceTask::Applying { applying } => match applying.resume(state, reply) {
                Progress::Waiting(applying) => Progress::Waiting(
                    MaintenanceTask::Applying { applying },
                ),
                Progress::Finished(result) => Progress::Finished(result),
            },
        }
    }
}

/// Begins a round of maintenance.
pub(crate) fn start_maintenance(state: &mut PolicyState) -> (progress: Progress<MaintenanceTask>)
    ensures
        progress.valid(),
        progress.program(final(state)@) == maintenance(old(state)@),
{
    let all = state.pending_registration.to_vec();
    state.pending_registration = PathSet::new();
    let step = each::start_each(Work::Retry, state, all, 0);
    after_registering(step, state)
}

}
