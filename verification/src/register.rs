//! Tracking an application cgroup.

use crate::path::{CgroupPath, PathModel};
use crate::paths;
use crate::program;
use crate::program::{Program, Progress, Task, Unfinished};
use crate::request;
use crate::request::{Answer, Call, Reply, Request};
use crate::restore;
use crate::state::{PolicyModel, PolicyState};
use vstd::prelude::*;

verus! {

/// Finds out whether a cgroup can be boosted: its limits can be read, extended
/// attributes are supported, and its limits can be written.
pub open spec fn eligible(state: PolicyModel, path: PathModel) -> Program {
    Program::Ask(
        Call::Read(restore::low_file(path)),
        |answer: Answer|
            match restore::limits_in(answer) {
                Some(_) => ask_support(state, path),
                None => Program::Done(state, false),
            },
    )
}

pub open spec fn ask_support(state: PolicyModel, path: PathModel) -> Program {
    Program::Ask(
        Call::XattrsSupported(path),
        |answer: Answer|
            if request::succeeded(answer) {
                ask_writable(state, path)
            } else {
                Program::Done(state, false)
            },
    )
}

pub open spec fn ask_writable(state: PolicyModel, path: PathModel) -> Program {
    Program::Ask(
        Call::Writable(restore::low_file(path)),
        |answer: Answer| Program::Done(state, request::succeeded(answer)),
    )
}

/// From now on the cgroup's registration is outstanding.
pub open spec fn registering(state: PolicyModel, path: PathModel) -> PolicyModel {
    PolicyModel { pending_registration: paths::with(state.pending_registration, path), ..state }
}

/// The cgroup is tracked, with a watch. Its focus has not been looked at yet.
pub open spec fn followed(state: PolicyModel, path: PathModel, watch: i32) -> PolicyModel {
    PolicyModel {
        watches: paths::unwatched(state.watches, watch).push((watch, path)),
        paths: paths::filed(state.paths, path, watch),
        pending_registration: paths::without(state.pending_registration, path),
        pending_focus_checks: paths::with(state.pending_focus_checks, path),
        ..state
    }
}

/// Tracks a cgroup. Ends with whether it is tracked.
///
/// Where the registration is outstanding already, nothing is tried: that is for the
/// regular maintenance.
pub open spec fn register(state: PolicyModel, path: PathModel) -> Program {
    if paths::lookup(state.paths, path) is Some {
        Program::Done(state, true)
    } else if state.pending_registration.contains(path) {
        Program::Done(state, false)
    } else {
        and_watch(eligible(registering(state, path), path), path)
    }
}

/// Watches the cgroup after the operation, if that found it eligible.
pub open spec fn and_watch(first: Program, path: PathModel) -> Program {
    program::bind(
        first,
        |state: PolicyModel, eligible: bool|
            if eligible && state.watching {
                ask_watch(state, path)
            } else {
                Program::Done(state, false)
            },
    )
}

pub open spec fn ask_watch(state: PolicyModel, path: PathModel) -> Program {
    Program::Ask(
        Call::AddWatch(path),
        |answer: Answer|
            match answer {
                Answer::Watch(Ok(watch)) => Program::Done(followed(state, path, watch), true),
                _ => Program::Done(state, false),
            },
    )
}

proof fn lemma_and_watch(first: Program, path: PathModel, answer: Answer)
    requires
        first is Ask,
    ensures
        program::asked(and_watch(first, path)) == program::asked(first),
        program::after_answer(and_watch(first, path), answer) == and_watch(
            program::after_answer(first, answer),
            path,
        ),
{
    program::lemma_bind(
        first,
        |state: PolicyModel, eligible: bool|
            if eligible && state.watching {
                ask_watch(state, path)
            } else {
                Program::Done(state, false)
            },
        answer,
    );
}

/// An examination of a cgroup that waits for an answer.
pub enum EligibleTask {
    /// For the limits.
    Limits { path: CgroupPath },
    /// For whether extended attributes are supported.
    Support { path: CgroupPath },
    /// For whether the limits can be written.
    Writable { path: CgroupPath },
}

impl Unfinished for EligibleTask {
    open spec fn valid(&self) -> bool {
        true
    }

    open spec fn program(&self, state: PolicyModel) -> Program {
        match self {
            EligibleTask::Limits { path } => eligible(state, path@),
            EligibleTask::Support { path } => ask_support(state, path@),
            EligibleTask::Writable { path } => ask_writable(state, path@),
        }
    }

    proof fn lemma_asks(&self, state: PolicyModel) {
    }
}

impl Task for EligibleTask {
    fn request(&self, state: &PolicyState) -> (request: Request) {
        match self {
            EligibleTask::Limits { path } => Request::Read(restore::low_path(path)),
            EligibleTask::Support { path } => Request::XattrsSupported(path.duplicate()),
            EligibleTask::Writable { path } => Request::Writable(restore::low_path(path)),
        }
    }

    fn resume(self, state: &mut PolicyState, reply: Reply) -> (progress: Progress<Self>) {
        match self {
            EligibleTask::Limits { path } => match restore::limits_from(&reply) {
                Some(_) => Progress::Waiting(EligibleTask::Support { path }),
                None => Progress::Finished(false),
            },
            EligibleTask::Support { path } => {
                if reply.succeeded() {
                    Progress::Waiting(EligibleTask::Writable { path })
                } else {
                    Progress::Finished(false)
                }
            },
            EligibleTask::Writable { .. } => Progress::Finished(reply.succeeded()),
        }
    }
}

/// A registration that waits for an answer.
pub enum RegisterTask {
    /// The cgroup is being examined.
    Checking { path: CgroupPath, checking: EligibleTask },
    /// For the watch.
    Watch { path: CgroupPath },
}

impl Unfinished for RegisterTask {
    open spec fn valid(&self) -> bool {
        match self {
            RegisterTask::Checking { checking, .. } => checking.valid(),
            RegisterTask::Watch { .. } => true,
        }
    }

    open spec fn program(&self, state: PolicyModel) -> Program {
        match self {
            RegisterTask::Checking { path, checking } => and_watch(checking.program(state), path@),
            RegisterTask::Watch { path } => ask_watch(state, path@),
        }
    }

    proof fn lemma_asks(&self, state: PolicyModel) {
        match self {
            RegisterTask::Checking { checking, .. } => checking.lemma_asks(state),
            RegisterTask::Watch { .. } => {},
        }
    }
}

fn resume_checking(
    path: CgroupPath,
    checking: EligibleTask,
    state: &mut PolicyState,
    reply: Reply,
) -> (progress: Progress<RegisterTask>)
    requires
        checking.valid(),
    ensures
        progress.valid(),
        progress.program(final(state)@) == program::after_answer(
            and_watch(checking.program(old(state)@), path@),
            reply@,
        ),
{
    proof {
        checking.lemma_asks(state@);
        lemma_and_watch(checking.program(state@), path@, reply@);
    }
    match checking.resume(state, reply) {
        Progress::Waiting(checking) => Progress::Waiting(
            RegisterTask::Checking { path, checking },
        ),
        Progress::Finished(eligible) => {
            if eligible && state.watching {
                Progress::Waiting(RegisterTask::Watch { path })
            } else {
                Progress::Finished(false)
            }
        },
    }
}

impl Task for RegisterTask {
    fn request(&self, state: &PolicyState) -> (request: Request) {
        match self {
            RegisterTask::Checking { path, checking } => {
                proof {
                    checking.lemma_asks(state@);
                }
                checking.request(state)
            },
            RegisterTask::Watch { path } => Request::AddWatch(path.duplicate()),
        }
    }

    fn resume(self, state: &mut PolicyState, reply: Reply) -> (progress: Progress<Self>) {
        match self {
            RegisterTask::Checking { path, checking } => resume_checking(
                path,
                checking,
                state,
                reply,
            ),
            RegisterTask::Watch { path } => match reply {
                Reply::Watch(Ok(watch)) => {
                    state.watches.insert(watch, path.duplicate());
                    state.paths.insert(path.duplicate(), watch);
                    state.pending_registration.remove(&path);
                    state.pending_focus_checks.insert(path);
                    Progress::Finished(true)
                },
                _ => Progress::Finished(false),
            },
        }
    }
}

/// Begins to track a cgroup.
pub(crate) fn start_register(state: &mut PolicyState, path: &CgroupPath) -> (progress: Progress<
    RegisterTask,
>)
    ensures
        progress.valid(),
        progress.program(final(state)@) == register(old(state)@, path@),
{
    if state.paths.contains(path) {
        return Progress::Finished(true);
    }
    if !state.pending_registration.insert(path.duplicate()) {
        return Progress::Finished(false);
    }
    let checking = EligibleTask::Limits { path: path.duplicate() };
    Progress::Waiting(RegisterTask::Checking { path: path.duplicate(), checking })
}

}
