//! Doing the same to one cgroup after another.

use crate::activate;
use crate::activate::ActivateTask;
use crate::path::{CgroupPath, PathModel};
use crate::paths;
use crate::program;
use crate::program::{Program, Progress, Task, Unfinished};
use crate::register;
use crate::register::RegisterTask;
use crate::request::{Answer, Call, IoFailure, Reply, Request};
use crate::restore;
use crate::restore::RestoreTask;
use crate::state::{PolicyModel, PolicyState};
use crate::untrack;
use crate::untrack::UntrackTask;
use vstd::prelude::*;

verus! {

/// What is done to a cgroup.
#[derive(Clone, Copy, Debug, Eq, PartialEq, Structural)]
pub enum Work {
    /// It is restored.
    Restore,
    /// It is let go.
    Untrack,
    /// It is registered.
    Register,
    /// It is registered, unless it does not exist any more.
    Retry,
    /// It is boosted, if its boost is outstanding and its restoration is not.
    Apply,
}

/// What is done to one cgroup.
pub open spec fn work(kind: Work, state: PolicyModel, path: PathModel) -> Program {
    match kind {
        Work::Restore => restore::restore(state, path),
        Work::Untrack => untrack::untrack(state, path),
        Work::Register => register::register(state, path),
        Work::Retry => ask_exists(state, path),
        Work::Apply => if state.pending_apply.contains(path) && !state.pending_restore.contains(
            path,
        ) {
            activate::activate(state, path)
        } else {
            Program::Done(state, true)
        },
    }
}

/// A cgroup without a watch can disappear unnoticed.
pub open spec fn ask_exists(state: PolicyModel, path: PathModel) -> Program {
    Program::Ask(
        Call::XattrsSupported(path),
        |answer: Answer|
            if answer == Answer::Done(Err(IoFailure::NotFound)) {
                Program::Done(state, true)
            } else {
                register::register(state, path)
            },
    )
}

/// Does the same to every cgroup from a place on.
pub open spec fn each(kind: Work, state: PolicyModel, paths: Seq<PathModel>, next: nat) -> Program
    decreases paths.len() - next, 0int,
{
    if next < paths.len() {
        and_each(work(kind, state, paths[next as int]), kind, paths, next + 1)
    } else {
        Program::Done(state, true)
    }
}

/// Goes on with the cgroups from a place on after the operation.
pub open spec fn and_each(first: Program, kind: Work, paths: Seq<PathModel>, next: nat) -> Program
    decreases paths.len() - next, 1int,
{
    program::bind(first, |state: PolicyModel, done: bool| each(kind, state, paths, next))
}

/// While the work on a cgroup goes on, the ones after it wait.
pub proof fn lemma_and_each(
    first: Program,
    kind: Work,
    paths: Seq<PathModel>,
    next: nat,
    answer: Answer,
)
    requires
        first is Ask,
    ensures
        program::asked(and_each(first, kind, paths, next)) == program::asked(first),
        program::after_answer(and_each(first, kind, paths, next), answer) == and_each(
            program::after_answer(first, answer),
            kind,
            paths,
            next,
        ),
{
    program::lemma_bind(
        first,
        |state: PolicyModel, done: bool| each(kind, state, paths, next),
        answer,
    );
}

/// Work on one cgroup that waits for an answer.
pub enum ItemTask {
    /// It is being restored.
    Restoring { restoring: RestoreTask },
    /// It is being let go.
    Untracking { untracking: UntrackTask },
    /// It is being registered.
    Registering { registering: RegisterTask },
    /// For whether it exists.
    Exists { path: CgroupPath },
    /// It is being boosted.
    Applying { applying: ActivateTask },
}

impl Unfinished for ItemTask {
    open spec fn valid(&self) -> bool {
        match self {
            ItemTask::Restoring { restoring } => restoring.valid(),
            ItemTask::Untracking { untracking } => untracking.valid(),
            ItemTask::Registering { registering } => registering.valid(),
            ItemTask::Exists { .. } => true,
            ItemTask::Applying { applying } => applying.valid(),
        }
    }

    open spec fn program(&self, state: PolicyModel) -> Program {
        match self {
            ItemTask::Restoring { restoring } => restoring.program(state),
            ItemTask::Untracking { untracking } => untracking.program(state),
            ItemTask::Registering { registering } => registering.program(state),
            ItemTask::Exists { path } => ask_exists(state, path@),
            ItemTask::Applying { applying } => applying.program(state),
        }
    }

    proof fn lemma_asks(&self, state: PolicyModel) {
        match self {
            ItemTask::Restoring { restoring } => restoring.lemma_asks(state),
            ItemTask::Untracking { untracking } => untracking.lemma_asks(state),
            ItemTask::Registering { registering } => registering.lemma_asks(state),
            ItemTask::Exists { .. } => {},
            ItemTask::Applying { applying } => applying.lemma_asks(state),
        }
    }
}

fn begin_register(state: &mut PolicyState, path: &CgroupPath) -> (progress: Progress<ItemTask>)
    ensures
        progress.valid(),
        progress.program(final(state)@) == register::register(old(state)@, path@),
{
    match register::start_register(state, path) {
        Progress::Waiting(registering) => Progress::Waiting(ItemTask::Registering { registering }),
        Progress::Finished(result) => Progress::Finished(result),
    }
}

/// Begins the work on one cgroup.
fn begin(kind: Work, state: &mut PolicyState, path: &CgroupPath) -> (progress: Progress<ItemTask>)
    ensures
        progress.valid(),
        progress.program(final(state)@) == work(kind, old(state)@, path@),
{
    match kind {
        Work::Restore => {
            let restoring = restore::start_restore(state, path);
            Progress::Waiting(ItemTask::Restoring { restoring })
        },
        Work::Untrack => {
            let untracking = untrack::start_untrack(state, path);
            Progress::Waiting(ItemTask::Untracking { untracking })
        },
        Work::Register => begin_register(state, path),
        Work::Retry => Progress::Waiting(ItemTask::Exists { path: path.duplicate() }),
        Work::Apply => {
            if state.pending_apply.contains(path) && !state.pending_restore.contains(path) {
                match activate::start_activate(state, path) {
                    Progress::Waiting(applying) => Progress::Waiting(
                        ItemTask::Applying { applying },
                    ),
                    Progress::Finished(result) => Progress::Finished(result),
                }
            } else {
                Progress::Finished(true)
            }
        },
    }
}

impl Task for ItemTask {
    fn request(&self, state: &PolicyState) -> (request: Request) {
        match self {
            ItemTask::Restoring { restoring } => restoring.request(state),
            ItemTask::Untracking { untracking } => untracking.request(state),
            ItemTask::Registering { registering } => registering.request(state),
            ItemTask::Exists { path } => Request::XattrsSupported(path.duplicate()),
            ItemTask::Applying { applying } => applying.request(state),
        }
    }

    fn resume(self, state: &mut PolicyState, reply: Reply) -> (progress: Progress<Self>) {
        match self {
            ItemTask::Restoring { restoring } => match restoring.resume(state, reply) {
                Progress::Waiting(restoring) => Progress::Waiting(
                    ItemTask::Restoring { restoring },
                ),
                Progress::Finished(result) => Progress::Finished(result),
            },
            ItemTask::Untracking { untracking } => match untracking.resume(state, reply) {
                Progress::Waiting(untracking) => Progress::Waiting(
                    ItemTask::Untracking { untracking },
                ),
                Progress::Finished(result) => Progress::Finished(result),
            },
            ItemTask::Registering { registering } => match registering.resume(state, reply) {
                Progress::Waiting(registering) => Progress::Waiting(
                    ItemTask::Registering { registering },
                ),
                Progress::Finished(result) => Progress::Finished(result),
            },
            ItemTask::Exists { path } => match reply {
                Reply::Done(Err(IoFailure::NotFound)) => Progress::Finished(true),
                _ => begin_register(state, &path),
            },
            ItemTask::Applying { applying } => match applying.resume(state, reply) {
                Progress::Waiting(applying) => Progress::Waiting(ItemTask::Applying { applying }),
                Progress::Finished(result) => Progress::Finished(result),
            },
        }
    }
}

/// Work on several cgroups that waits for an answer.
pub struct EachTask {
    pub kind: Work,
    /// The cgroups.
    pub paths: Vec<CgroupPath>,
    /// How many of them have been begun.
    pub next: usize,
    /// The work on the last one of those.
    pub item: ItemTask,
}

impl Unfinished for EachTask {
    open spec fn valid(&self) -> bool {
        self.next <= self.paths@.len() && self.item.valid()
    }

    open spec fn program(&self, state: PolicyModel) -> Program {
        and_each(
            self.item.program(state),
            self.kind,
            paths::path_views(self.paths@),
            self.next as nat,
        )
    }

    proof fn lemma_asks(&self, state: PolicyModel) {
        self.item.lemma_asks(state);
    }
}

/// Begins to do the same to every cgroup from a place on.
pub(crate) fn start_each(
    kind: Work,
    state: &mut PolicyState,
    paths: Vec<CgroupPath>,
    start: usize,
) -> (progress: Progress<EachTask>)
    requires
        start <= paths@.len(),
    ensures
        progress.valid(),
        progress.program(final(state)@) == each(
            kind,
            old(state)@,
            paths::path_views(paths@),
            start as nat,
        ),
{
    let ghost models = paths::path_views(paths@);
    let count: usize = paths.len();
    let mut next: usize = start;
    while next < count
        invariant
            count == paths@.len(),
            next <= count,
            models == paths::path_views(paths@),
            each(kind, old(state)@, models, start as nat) == each(
                kind,
                state@,
                models,
                next as nat,
            ),
        decreases count - next,
    {
        assert(models[next as int] == paths@[next as int]@);
        match begin(kind, state, &paths[next]) {
            Progress::Waiting(item) => {
                return Progress::Waiting(EachTask { kind, paths, next: next + 1, item });
            },
            Progress::Finished(_) => {},
        }
        next = next + 1;
    }
    Progress::Finished(true)
}

impl Task for EachTask {
    fn request(&self, state: &PolicyState) -> (request: Request) {
        proof {
            self.item.lemma_asks(state@);
        }
        self.item.request(state)
    }

    fn resume(self, state: &mut PolicyState, reply: Reply) -> (progress: Progress<Self>) {
        let EachTask { kind, paths, next, item } = self;
        proof {
            item.lemma_asks(state@);
            lemma_and_each(
                item.program(state@),
                kind,
                paths::path_views(paths@),
                next as nat,
                reply@,
            );
        }
        match item.resume(state, reply) {
            Progress::Waiting(item) => Progress::Waiting(EachTask { kind, paths, next, item }),
            Progress::Finished(_) => start_each(kind, state, paths, next),
        }
    }
}

}
