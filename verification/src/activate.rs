//! Boosting the focused application.

use crate::cgroup::{DmemValues, ValuesModel};
use crate::path::{CgroupPath, PathModel};
use crate::paths;
use crate::program;
use crate::program::{Program, Progress, Task, Unfinished};
use crate::recover;
use crate::recover::RecoverTask;
use crate::recovery;
use crate::recovery::{RecordModel, RecoveryState};
use crate::request;
use crate::request::{Answer, Call, Reply, Request, Xattr};
use crate::restore;
use crate::restore::RestoreTask;
use crate::state::{PolicyModel, PolicyState};
use vstd::prelude::*;
use vstd::string::*;
use vstd::utf8::*;

verus! {

/// The file that holds the capacity of every region.
pub open spec fn capacity_file(root: PathModel) -> PathModel {
    root.push(encode_utf8("dmem.capacity"@))
}

/// From now on the cgroup's boost is outstanding.
pub open spec fn applying(state: PolicyModel, path: PathModel) -> PolicyModel {
    PolicyModel { pending_apply: paths::with(state.pending_apply, path), ..state }
}

/// Boosts a cgroup: every region that has a limit below its capacity gets its
/// capacity as the limit.
///
/// Nothing happens where the cgroup is the boosted one. A cgroup whose restoration
/// is outstanding waits. The cgroup that was boosted before is restored first. A
/// record that is found is taken up; otherwise the record is stored before the first
/// limit is written. Where a write fails, the limits written before it are put back.
/// The boost stays outstanding until every limit is written.
pub open spec fn activate(state: PolicyModel, path: PathModel) -> Program {
    let applying = applying(state, path);
    if state.foreground == Some(path) {
        Program::Done(state, true)
    } else if applying.pending_restore.contains(path) {
        Program::Done(applying, true)
    } else {
        match applying.foreground {
            Some(previous) => and_recover(restore::restore(applying, previous), path),
            None => and_boost(recover::recover(applying, path), path),
        }
    }
}

/// Takes up a record after the operation.
pub open spec fn and_recover(first: Program, path: PathModel) -> Program {
    program::bind(
        first,
        |state: PolicyModel, done: bool| and_boost(recover::recover(state, path), path),
    )
}

/// Boosts after the recovery, unless there was a record.
pub open spec fn and_boost(first: Program, path: PathModel) -> Program {
    program::bind(
        first,
        |state: PolicyModel, recovered: bool|
            if recovered {
                Program::Done(state, true)
            } else {
                ask_capacity(state, path)
            },
    )
}

pub open spec fn ask_capacity(state: PolicyModel, path: PathModel) -> Program {
    Program::Ask(
        Call::Read(capacity_file(state.root)),
        |answer: Answer|
            match restore::limits_in(answer) {
                Some(capacity) => ask_limits(state, path, capacity),
                None => Program::Done(state, true),
            },
    )
}

pub open spec fn ask_limits(state: PolicyModel, path: PathModel, capacity: ValuesModel) -> Program {
    Program::Ask(
        Call::Read(restore::low_file(path)),
        |answer: Answer|
            match restore::limits_in(answer) {
                Some(current) => boost(state, path, recovery::boosts(capacity, current)),
                None => Program::Done(state, true),
            },
    )
}

/// Boosts as the record says.
pub open spec fn boost(state: PolicyModel, path: PathModel, record: RecordModel) -> Program {
    if record.len() == 0 {
        Program::Done(recover::activated(state, path), true)
    } else {
        ask_persist(state, path, record)
    }
}

pub open spec fn ask_persist(state: PolicyModel, path: PathModel, record: RecordModel) -> Program {
    Program::Ask(
        Call::SetXattr(path, Xattr::State, recovery::record_bytes(record)),
        |answer: Answer|
            if request::succeeded(answer) {
                boost_writes(state, path, record, 0)
            } else {
                Program::Done(state, true)
            },
    )
}

pub open spec fn boost_writes(
    state: PolicyModel,
    path: PathModel,
    record: RecordModel,
    next: nat,
) -> Program
    decreases record.len() - next,
{
    if next < record.len() {
        let (region, entry) = record[next as int];
        Program::Ask(
            Call::WriteDmem(restore::low_file(path), region, entry.applied),
            |answer: Answer|
                if request::succeeded(answer) {
                    boost_writes(state, path, record, next + 1)
                } else {
                    roll_back(state, path, record, next, 0, true)
                },
        )
    } else {
        Program::Done(recover::activated(state, path), true)
    }
}

/// Puts the baselines of the first regions back, and removes the record if that
/// succeeded everywhere.
pub open spec fn roll_back(
    state: PolicyModel,
    path: PathModel,
    record: RecordModel,
    written: nat,
    next: nat,
    clean: bool,
) -> Program
    decreases written - next,
{
    if next < written {
        let (region, entry) = record[next as int];
        Program::Ask(
            Call::WriteDmem(restore::low_file(path), region, entry.baseline),
            |answer: Answer|
                roll_back(
                    state,
                    path,
                    record,
                    written,
                    next + 1,
                    clean && request::succeeded(answer),
                ),
        )
    } else if clean {
        ask_discard(state, path)
    } else {
        Program::Done(state, true)
    }
}

pub open spec fn ask_discard(state: PolicyModel, path: PathModel) -> Program {
    Program::Ask(
        Call::RemoveXattr(path, Xattr::State),
        |answer: Answer| Program::Done(state, true),
    )
}

proof fn lemma_and_recover(first: Program, path: PathModel, answer: Answer)
    requires
        first is Ask,
    ensures
        program::asked(and_recover(first, path)) == program::asked(first),
        program::after_answer(and_recover(first, path), answer) == and_recover(
            program::after_answer(first, answer),
            path,
        ),
{
    program::lemma_bind(
        first,
        |state: PolicyModel, done: bool| and_boost(recover::recover(state, path), path),
        answer,
    );
}

proof fn lemma_and_boost(first: Program, path: PathModel, answer: Answer)
    requires
        first is Ask,
    ensures
        program::asked(and_boost(first, path)) == program::asked(first),
        program::after_answer(and_boost(first, path), answer) == and_boost(
            program::after_answer(first, answer),
            path,
        ),
{
    program::lemma_bind(
        first,
        |state: PolicyModel, recovered: bool|
            if recovered {
                Program::Done(state, true)
            } else {
                ask_capacity(state, path)
            },
        answer,
    );
}

/// A boost that waits for an answer.
pub enum ActivateTask {
    /// The cgroup that was boosted before is being restored.
    Restoring { path: CgroupPath, restoring: RestoreTask },
    /// A record is being taken up.
    Recovering { path: CgroupPath, recovering: RecoverTask },
    /// For the capacities.
    Capacity { path: CgroupPath },
    /// For the limits.
    Limits { path: CgroupPath, capacity: DmemValues },
    /// For the record to be stored.
    Persist { path: CgroupPath, record: RecoveryState },
    /// For an applied limit to be written.
    Boost { path: CgroupPath, record: RecoveryState, next: usize },
    /// For a baseline to be put back.
    RollBack { path: CgroupPath, record: RecoveryState, written: usize, next: usize, clean: bool },
    /// For the removal of the record.
    Discard { path: CgroupPath },
}

fn next_boost(
    state: &mut PolicyState,
    path: CgroupPath,
    record: RecoveryState,
    next: usize,
) -> (progress: Progress<ActivateTask>)
    requires
        next <= record@.len(),
    ensures
        progress.valid(),
        progress.program(final(state)@) == boost_writes(old(state)@, path@, record@, next as nat),
{
    if next < record.len() {
        Progress::Waiting(ActivateTask::Boost { path, record, next })
    } else {
        recover::set_activated(state, path);
        Progress::Finished(true)
    }
}

fn next_roll_back(
    state: &PolicyState,
    path: CgroupPath,
    record: RecoveryState,
    written: usize,
    next: usize,
    clean: bool,
) -> (progress: Progress<ActivateTask>)
    requires
        next <= written <= record@.len(),
    ensures
        progress.valid(),
        progress.program(state@) == roll_back(
            state@,
            path@,
            record@,
            written as nat,
            next as nat,
            clean,
        ),
{
    if next < written {
        Progress::Waiting(ActivateTask::RollBack { path, record, written, next, clean })
    } else if clean {
        Progress::Waiting(ActivateTask::Discard { path })
    } else {
        Progress::Finished(true)
    }
}

impl Unfinished for ActivateTask {
    open spec fn valid(&self) -> bool {
        match self {
            ActivateTask::Restoring { restoring, .. } => restoring.valid(),
            ActivateTask::Recovering { recovering, .. } => recovering.valid(),
            ActivateTask::Boost { record, next, .. } => *next < record@.len(),
            ActivateTask::RollBack { record, written, next, .. } => *next < *written
                <= record@.len(),
            _ => true,
        }
    }

    open spec fn program(&self, state: PolicyModel) -> Program {
        match self {
            ActivateTask::Restoring { path, restoring } => and_recover(restoring.program(state), path@),
            ActivateTask::Recovering { path, recovering } => and_boost(recovering.program(state), path@),
            ActivateTask::Capacity { path } => ask_capacity(state, path@),
            ActivateTask::Limits { path, capacity } => ask_limits(state, path@, capacity@),
            ActivateTask::Persist { path, record } => ask_persist(state, path@, record@),
            ActivateTask::Boost { path, record, next } => boost_writes(
                state,
                path@,
                record@,
                *next as nat,
            ),
            ActivateTask::RollBack { path, record, written, next, clean } => roll_back(
                state,
                path@,
                record@,
                *written as nat,
                *next as nat,
                *clean,
            ),
            ActivateTask::Discard { path } => ask_discard(state, path@),
        }
    }

    proof fn lemma_asks(&self, state: PolicyModel) {
        match self {
            ActivateTask::Restoring { restoring, .. } => restoring.lemma_asks(state),
            ActivateTask::Recovering { recovering, .. } => recovering.lemma_asks(state),
            _ => {},
        }
    }
}

fn resume_restoring(
    path: CgroupPath,
    restoring: RestoreTask,
    state: &mut PolicyState,
    reply: Reply,
) -> (progress: Progress<ActivateTask>)
    requires
        restoring.valid(),
    ensures
        progress.valid(),
        progress.program(final(state)@) == program::after_answer(
            and_recover(restoring.program(old(state)@), path@),
            reply@,
        ),
{
    proof {
        restoring.lemma_asks(state@);
        lemma_and_recover(restoring.program(state@), path@, reply@);
    }
    match restoring.resume(state, reply) {
        Progress::Waiting(restoring) => Progress::Waiting(
            ActivateTask::Restoring { path, restoring },
        ),
        Progress::Finished(_) => {
            let recovering = RecoverTask::Record { path: path.duplicate() };
            Progress::Waiting(ActivateTask::Recovering { path, recovering })
        },
    }
}

fn resume_recovering(
    path: CgroupPath,
    recovering: RecoverTask,
    state: &mut PolicyState,
    reply: Reply,
) -> (progress: Progress<ActivateTask>)
    requires
        recovering.valid(),
    ensures
        progress.valid(),
        progress.program(final(state)@) == program::after_answer(
            and_boost(recovering.program(old(state)@), path@),
            reply@,
        ),
{
    proof {
        recovering.lemma_asks(state@);
        lemma_and_boost(recovering.program(state@), path@, reply@);
    }
    match recovering.resume(state, reply) {
        Progress::Waiting(recovering) => Progress::Waiting(
            ActivateTask::Recovering { path, recovering },
        ),
        Progress::Finished(true) => Progress::Finished(true),
        Progress::Finished(false) => Progress::Waiting(ActivateTask::Capacity { path }),
    }
}

impl Task for ActivateTask {
    fn request(&self, state: &PolicyState) -> (request: Request) {
        match self {
            ActivateTask::Restoring { restoring, .. } => restoring.request(state),
            ActivateTask::Recovering { recovering, .. } => recovering.request(state),
            ActivateTask::Capacity { .. } => Request::Read(state.root.child("dmem.capacity")),
            ActivateTask::Limits { path, .. } => Request::Read(restore::low_path(path)),
            ActivateTask::Persist { path, record } => Request::SetXattr {
                path: path.duplicate(),
                name: Xattr::State,
                bytes: recovery::serialize_state(record),
            },
            ActivateTask::Boost { path, record, next } => Request::WriteDmem {
                file: restore::low_path(path),
                region: record.region(*next).clone(),
                value: record.value(*next).applied,
            },
            ActivateTask::RollBack { path, record, next, .. } => Request::WriteDmem {
                file: restore::low_path(path),
                region: record.region(*next).clone(),
                value: record.value(*next).baseline,
            },
            ActivateTask::Discard { path } => Request::RemoveXattr {
                path: path.duplicate(),
                name: Xattr::State,
            },
        }
    }

    fn resume(self, state: &mut PolicyState, reply: Reply) -> (progress: Progress<Self>) {
        match self {
            ActivateTask::Restoring { path, restoring } => resume_restoring(
                path,
                restoring,
                state,
                reply,
            ),
            ActivateTask::Recovering { path, recovering } => resume_recovering(
                path,
                recovering,
                state,
                reply,
            ),
            ActivateTask::Capacity { path } => match restore::limits_from(&reply) {
                Some(capacity) => Progress::Waiting(ActivateTask::Limits { path, capacity }),
                None => Progress::Finished(true),
            },
            ActivateTask::Limits { path, capacity } => match restore::limits_from(&reply) {
                Some(current) => {
                    let record = recovery::plan_boost(&capacity, &current);
                    if record.is_empty() {
                        recover::set_activated(state, path);
                        Progress::Finished(true)
                    } else {
                        Progress::Waiting(ActivateTask::Persist { path, record })
                    }
                },
                None => Progress::Finished(true),
            },
            ActivateTask::Persist { path, record } => {
                if reply.succeeded() {
                    next_boost(state, path, record, 0)
                } else {
                    Progress::Finished(true)
                }
            },
            ActivateTask::Boost { path, record, next } => {
                let count: usize = record.len();
                assert(next < count);
                if reply.succeeded() {
                    next_boost(state, path, record, next + 1)
                } else {
                    next_roll_back(state, path, record, next, 0, true)
                }
            },
            ActivateTask::RollBack { path, record, written, next, clean } => {
                let clean = clean && reply.succeeded();
                next_roll_back(state, path, record, written, next + 1, clean)
            },
            ActivateTask::Discard { .. } => Progress::Finished(true),
        }
    }
}

/// Begins to boost a cgroup.
pub(crate) fn start_activate(state: &mut PolicyState, path: &CgroupPath) -> (progress: Progress<
    ActivateTask,
>)
    ensures
        progress.valid(),
        progress.program(final(state)@) == activate(old(state)@, path@),
{
    if state.is_foreground(path) {
        return Progress::Finished(true);
    }
    state.pending_apply.insert(path.duplicate());
    if state.pending_restore.contains(path) {
        return Progress::Finished(true);
    }
    match &state.foreground {
        Some(previous) => {
            let previous = previous.duplicate();
            let restoring = restore::start_restore(state, &previous);
            Progress::Waiting(ActivateTask::Restoring { path: path.duplicate(), restoring })
        },
        None => {
            let recovering = RecoverTask::Record { path: path.duplicate() };
            Progress::Waiting(ActivateTask::Recovering { path: path.duplicate(), recovering })
        },
    }
}

}
