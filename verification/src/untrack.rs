//! Letting go of a cgroup.

use crate::path::{CgroupPath, PathModel};
use crate::paths;
use crate::program;
use crate::program::{Program, Progress, Task, Unfinished};
use crate::request::{Answer, Call, Reply, Request};
use crate::restore;
use crate::restore::RestoreTask;
use crate::state::{PolicyModel, PolicyState};
use vstd::prelude::*;

verus! {

/// A set of rivals for the focus. One alone has no rival.
pub open spec fn rivals(set: Seq<PathModel>) -> Seq<PathModel> {
    if set.len() < 2 {
        Seq::empty()
    } else {
        set
    }
}

/// Nothing is remembered of the cgroup any more but an outstanding restoration.
pub open spec fn forgotten(state: PolicyModel, path: PathModel) -> PolicyModel {
    PolicyModel {
        pending_focus_checks: paths::without(state.pending_focus_checks, path),
        ambiguous_active: rivals(paths::without(state.ambiguous_active, path)),
        focus_values: paths::dropped(state.focus_values, path),
        pending_apply: paths::without(state.pending_apply, path),
        ..state
    }
}

/// The cgroup is not tracked, and its watch is not known.
pub open spec fn unattended(state: PolicyModel, path: PathModel, watch: i32) -> PolicyModel {
    PolicyModel {
        paths: paths::dropped(state.paths, path),
        watches: paths::unwatched(state.watches, watch),
        ..state
    }
}

/// Stops tracking a cgroup: it is restored, its watch is removed, and everything but
/// an outstanding restoration is forgotten.
pub open spec fn untrack(state: PolicyModel, path: PathModel) -> Program {
    and_unwatch(restore::restore(unregistered(state, path), path), path)
}

/// The cgroup's registration is not outstanding.
pub open spec fn unregistered(state: PolicyModel, path: PathModel) -> PolicyModel {
    PolicyModel { pending_registration: paths::without(state.pending_registration, path), ..state }
}

/// Removes the watch after the operation.
pub open spec fn and_unwatch(first: Program, path: PathModel) -> Program {
    program::bind(first, |state: PolicyModel, done: bool| unwatch(state, path))
}

pub open spec fn unwatch(state: PolicyModel, path: PathModel) -> Program {
    match paths::lookup(state.paths, path) {
        Some(watch) => if state.watching {
            ask_unwatch(unattended(state, path, watch), path, watch)
        } else {
            Program::Done(forgotten(unattended(state, path, watch), path), true)
        },
        None => Program::Done(forgotten(state, path), true),
    }
}

pub open spec fn ask_unwatch(state: PolicyModel, path: PathModel, watch: i32) -> Program {
    Program::Ask(
        Call::RemoveWatch(watch),
        |answer: Answer| Program::Done(forgotten(state, path), true),
    )
}

proof fn lemma_and_unwatch(first: Program, path: PathModel, answer: Answer)
    requires
        first is Ask,
    ensures
        program::asked(and_unwatch(first, path)) == program::asked(first),
        program::after_answer(and_unwatch(first, path), answer) == and_unwatch(
            program::after_answer(first, answer),
            path,
        ),
{
    program::lemma_bind(first, |state: PolicyModel, done: bool| unwatch(state, path), answer);
}

/// A farewell that waits for an answer.
pub enum UntrackTask {
    /// The cgroup is being restored.
    Restoring { path: CgroupPath, restoring: RestoreTask },
    /// For the removal of the watch.
    Unwatch { path: CgroupPath, watch: i32 },
}

impl Unfinished for UntrackTask {
    open spec fn valid(&self) -> bool {
        match self {
            UntrackTask::Restoring { restoring, .. } => restoring.valid(),
            UntrackTask::Unwatch { .. } => true,
        }
    }

    open spec fn program(&self, state: PolicyModel) -> Program {
        match self {
            UntrackTask::Restoring { path, restoring } => and_unwatch(
                restoring.program(state),
                path@,
            ),
            UntrackTask::Unwatch { path, watch } => ask_unwatch(state, path@, *watch),
        }
    }

    proof fn lemma_asks(&self, state: PolicyModel) {
        match self {
            UntrackTask::Restoring { restoring, .. } => restoring.lemma_asks(state),
            UntrackTask::Unwatch { .. } => {},
        }
    }
}

/// Forgets everything about a cgroup but an outstanding restoration.
fn forget(state: &mut PolicyState, path: &CgroupPath)
    ensures
        final(state)@ == forgotten(old(state)@, path@),
{
    state.pending_focus_checks.remove(path);
    state.ambiguous_active.remove(path);
    if state.ambiguous_active.len() < 2 {
        state.ambiguous_active = paths::PathSet::new();
    }
    state.focus_values.remove(path);
    state.pending_apply.remove(path);
}

fn next_unwatch(state: &mut PolicyState, path: CgroupPath) -> (progress: Progress<UntrackTask>)
    ensures
        progress.valid(),
        progress.program(final(state)@) == unwatch(old(state)@, path@),
{
    let found = match state.paths.get(&path) {
        Some(watch) => Some(*watch),
        None => None,
    };
    if let Some(watch) = found {
        state.paths.remove(&path);
        state.watches.remove(watch);
        if state.watching {
            return Progress::Waiting(UntrackTask::Unwatch { path, watch });
        }
    }
    forget(state, &path);
    Progress::Finished(true)
}

fn resume_restoring(
    path: CgroupPath,
    restoring: RestoreTask,
    state: &mut PolicyState,
    reply: Reply,
) -> (progress: Progress<UntrackTask>)
    requires
        restoring.valid(),
    ensures
        progress.valid(),
        progress.program(final(state)@) == program::after_answer(
            and_unwatch(restoring.program(old(state)@), path@),
            reply@,
        ),
{
    proof {
        restoring.lemma_asks(state@);
        lemma_and_unwatch(restoring.program(state@), path@, reply@);
    }
    match restoring.resume(state, reply) {
        Progress::Waiting(restoring) => Progress::Waiting(
            UntrackTask::Restoring { path, restoring },
        ),
        Progress::Finished(_) => next_unwatch(state, path),
    }
}

impl Task for UntrackTask {
    fn request(&self, state: &PolicyState) -> (request: Request) {
        match self {
            UntrackTask::Restoring { path, restoring } => {
                proof {
                    restoring.lemma_asks(state@);
                }
                restoring.request(state)
            },
            UntrackTask::Unwatch { path, watch } => Request::RemoveWatch(*watch),
        }
    }

    fn resume(self, state: &mut PolicyState, reply: Reply) -> (progress: Progress<Self>) {
        match self {
            UntrackTask::Restoring { path, restoring } => resume_restoring(
                path,
                restoring,
                state,
                reply,
            ),
            UntrackTask::Unwatch { path, .. } => {
                forget(state, &path);
                Progress::Finished(true)
            },
        }
    }
}

/// Begins to let go of a cgroup.
pub(crate) fn start_untrack(state: &mut PolicyState, path: &CgroupPath) -> (task: UntrackTask)
    ensures
        task.valid(),
        task.program(final(state)@) == untrack(old(state)@, path@),
{
    state.pending_registration.remove(path);
    let restoring = restore::start_restore(state, path);
    UntrackTask::Restoring { path: path.duplicate(), restoring }
}

}
