//! Taking up a boost that an earlier run of the service left behind.

use crate::path;
use crate::path::{CgroupPath, PathModel};
use crate::paths;
use crate::program::{Program, Progress, Task, Unfinished};
use crate::recovery;
use crate::recovery::{RecordModel, RecoveryState, Standing};
use crate::request;
use crate::request::{Answer, Call, Reply, Request, Xattr};
use crate::restore;
use crate::state::{PolicyModel, PolicyState};
use vstd::prelude::*;

verus! {

/// The cgroup is the boosted one from now on.
pub open spec fn activated(state: PolicyModel, path: PathModel) -> PolicyModel {
    PolicyModel {
        foreground: Some(path),
        pending_apply: paths::without(state.pending_apply, path),
        ..state
    }
}

/// Completes the boost that a cgroup's record describes.
///
/// Ends with `false` where there is no record, so that there is nothing to take up.
/// A record that cannot be read or understood stays as it is. Entries whose region
/// has a limit that the record does not know are dropped from it. Every region that
/// stands at its baseline gets its applied limit.
pub open spec fn recover(state: PolicyModel, path: PathModel) -> Program {
    Program::Ask(
        Call::GetXattr(path, Xattr::State),
        |answer: Answer|
            match answer {
                Answer::Attribute(Ok(Some(bytes))) => match recovery::record_of(bytes) {
                    Ok(record) => ask_limits(state, path, bytes, record),
                    Err(_) => Program::Done(state, true),
                },
                Answer::Attribute(Ok(None)) => Program::Done(state, false),
                _ => Program::Done(state, true),
            },
    )
}

pub open spec fn ask_limits(
    state: PolicyModel,
    path: PathModel,
    bytes: Seq<u8>,
    record: RecordModel,
) -> Program {
    Program::Ask(
        Call::Read(restore::low_file(path)),
        |answer: Answer|
            match restore::limits_in(answer) {
                Some(current) => {
                    let known = recovery::select(record, current, Standing::Known);
                    let waiting = recovery::select(known, current, Standing::Baseline);
                    recover_known(state, path, bytes, known, waiting)
                },
                None => Program::Done(state, true),
            },
    )
}

/// Goes on with the entries whose limits the record knows, and those among them
/// that wait for their applied limit.
pub open spec fn recover_known(
    state: PolicyModel,
    path: PathModel,
    bytes: Seq<u8>,
    known: RecordModel,
    waiting: RecordModel,
) -> Program {
    if known.len() == 0 {
        ask_forget(state, path)
    } else if recovery::record_bytes(known) != bytes {
        ask_refresh(state, path, known, waiting)
    } else {
        recover_writes(state, path, waiting, 0)
    }
}

pub open spec fn ask_forget(state: PolicyModel, path: PathModel) -> Program {
    Program::Ask(
        Call::RemoveXattr(path, Xattr::State),
        |answer: Answer|
            if request::succeeded(answer) {
                Program::Done(activated(state, path), true)
            } else {
                Program::Done(state, true)
            },
    )
}

pub open spec fn ask_refresh(
    state: PolicyModel,
    path: PathModel,
    known: RecordModel,
    waiting: RecordModel,
) -> Program {
    Program::Ask(
        Call::SetXattr(path, Xattr::State, recovery::record_bytes(known)),
        |answer: Answer|
            if request::succeeded(answer) {
                recover_writes(state, path, waiting, 0)
            } else {
                Program::Done(state, true)
            },
    )
}

pub open spec fn recover_writes(
    state: PolicyModel,
    path: PathModel,
    waiting: RecordModel,
    next: nat,
) -> Program
    decreases waiting.len() - next,
{
    if next < waiting.len() {
        let (region, entry) = waiting[next as int];
        Program::Ask(
            Call::WriteDmem(restore::low_file(path), region, entry.applied),
            |answer: Answer|
                if request::succeeded(answer) {
                    recover_writes(state, path, waiting, next + 1)
                } else {
                    Program::Done(state, true)
                },
        )
    } else {
        Program::Done(activated(state, path), true)
    }
}

/// A recovery that waits for an answer.
pub enum RecoverTask {
    /// For the record.
    Record { path: CgroupPath },
    /// For the limits.
    Limits { path: CgroupPath, bytes: Vec<u8>, record: RecoveryState },
    /// For the removal of the record.
    Forget { path: CgroupPath },
    /// For the narrower record to be stored.
    Refresh { path: CgroupPath, known: RecoveryState, waiting: RecoveryState },
    /// For an applied limit to be written.
    Write { path: CgroupPath, waiting: RecoveryState, next: usize },
}

/// Remembers that a cgroup is the boosted one.
pub(crate) fn set_activated(state: &mut PolicyState, path: CgroupPath)
    ensures
        final(state)@ == activated(old(state)@, path@),
{
    state.pending_apply.remove(&path);
    state.foreground = Some(path);
}

/// Goes on with the regions that wait for their applied limits.
fn next_write(
    state: &mut PolicyState,
    path: CgroupPath,
    waiting: RecoveryState,
    next: usize,
) -> (progress: Progress<RecoverTask>)
    requires
        next <= waiting@.len(),
    ensures
        progress.valid(),
        progress.program(final(state)@) == recover_writes(
            old(state)@,
            path@,
            waiting@,
            next as nat,
        ),
{
    if next < waiting.len() {
        Progress::Waiting(RecoverTask::Write { path, waiting, next })
    } else {
        set_activated(state, path);
        Progress::Finished(true)
    }
}

impl Unfinished for RecoverTask {
    open spec fn valid(&self) -> bool {
        match self {
            RecoverTask::Write { waiting, next, .. } => *next < waiting@.len(),
            _ => true,
        }
    }

    open spec fn program(&self, state: PolicyModel) -> Program {
        match self {
            RecoverTask::Record { path } => recover(state, path@),
            RecoverTask::Limits { path, bytes, record } => ask_limits(
                state,
                path@,
                bytes@,
                record@,
            ),
            RecoverTask::Forget { path } => ask_forget(state, path@),
            RecoverTask::Refresh { path, known, waiting } => ask_refresh(
                state,
                path@,
                known@,
                waiting@,
            ),
            RecoverTask::Write { path, waiting, next } => recover_writes(
                state,
                path@,
                waiting@,
                *next as nat,
            ),
        }
    }

    proof fn lemma_asks(&self, state: PolicyModel) {
    }
}

impl Task for RecoverTask {
    fn request(&self, state: &PolicyState) -> (request: Request) {
        match self {
            RecoverTask::Record { path } => Request::GetXattr {
                path: path.duplicate(),
                name: Xattr::State,
            },
            RecoverTask::Limits { path, .. } => Request::Read(restore::low_path(path)),
            RecoverTask::Forget { path } => Request::RemoveXattr {
                path: path.duplicate(),
                name: Xattr::State,
            },
            RecoverTask::Refresh { path, known, .. } => Request::SetXattr {
                path: path.duplicate(),
                name: Xattr::State,
                bytes: recovery::serialize_state(known),
            },
            RecoverTask::Write { path, waiting, next } => Request::WriteDmem {
                file: restore::low_path(path),
                region: waiting.region(*next).clone(),
                value: waiting.value(*next).applied,
            },
        }
    }

    fn resume(self, state: &mut PolicyState, reply: Reply) -> (progress: Progress<Self>) {
        match self {
            RecoverTask::Record { path } => match reply {
                Reply::Attribute(Ok(Some(bytes))) => match recovery::parse_state(bytes.as_slice()) {
                    Ok(record) => Progress::Waiting(RecoverTask::Limits { path, bytes, record }),
                    Err(_) => Progress::Finished(true),
                },
                Reply::Attribute(Ok(None)) => Progress::Finished(false),
                _ => Progress::Finished(true),
            },
            RecoverTask::Limits { path, bytes, record } => match restore::limits_from(&reply) {
                Some(current) => {
                    let known = recovery::select_entries(&record, &current, Standing::Known);
                    let waiting = recovery::select_entries(&known, &current, Standing::Baseline);
                    if known.is_empty() {
                        Progress::Waiting(RecoverTask::Forget { path })
                    } else if !path::same_bytes(&recovery::serialize_state(&known), &bytes) {
                        Progress::Waiting(RecoverTask::Refresh { path, known, waiting })
                    } else {
                        next_write(state, path, waiting, 0)
                    }
                },
                None => Progress::Finished(true),
            },
            RecoverTask::Forget { path } => {
                if reply.succeeded() {
                    set_activated(state, path);
                }
                Progress::Finished(true)
            },
            RecoverTask::Refresh { path, waiting, .. } => {
                if reply.succeeded() {
                    next_write(state, path, waiting, 0)
                } else {
                    Progress::Finished(true)
                }
            },
            RecoverTask::Write { path, waiting, next } => {
                let count: usize = waiting.len();
                assert(next < count);
                if reply.succeeded() {
                    next_write(state, path, waiting, next + 1)
                } else {
                    Progress::Finished(true)
                }
            },
        }
    }
}

}
