//! Restoring a cgroup's limits from its recovery record.

use crate::cgroup;
use crate::cgroup::{DmemValues, ValuesModel};
use crate::path;
use crate::path::{CgroupPath, PathModel};
use crate::paths;
use crate::program::{Program, Progress, Task, Unfinished};
use crate::recovery;
use crate::recovery::{RecordModel, RecoveryState, Standing};
use crate::request;
use crate::request::{Answer, Call, IoFailure, Reply, Request, Xattr};
use crate::state::{PolicyModel, PolicyState};
use crate::table;
use crate::table::RegionMap;
use vstd::prelude::*;
use vstd::string::*;
use vstd::utf8::*;

verus! {

/// The file that holds a cgroup's limits.
pub open spec fn low_file(path: PathModel) -> PathModel {
    path.push(encode_utf8("dmem.low"@))
}

/// The limits that an answer lists, if it is a file that lists limits.
pub open spec fn limits_in(answer: Answer) -> Option<ValuesModel> {
    match answer {
        Answer::Text(Ok(content)) => match cgroup::dmem_values(content) {
            Ok(values) => Some(values),
            Err(_) => None,
        },
        _ => None,
    }
}

/// From now on the cgroup's restoration is outstanding, and it is not boosted.
pub open spec fn releasing(state: PolicyModel, path: PathModel) -> PolicyModel {
    PolicyModel {
        pending_apply: paths::without(state.pending_apply, path),
        pending_restore: paths::with(state.pending_restore, path),
        foreground: if state.foreground == Some(path) {
            None
        } else {
            state.foreground
        },
        ..state
    }
}

/// The cgroup's restoration is no longer outstanding.
pub open spec fn released(state: PolicyModel, path: PathModel) -> PolicyModel {
    PolicyModel { pending_restore: paths::without(state.pending_restore, path), ..state }
}

/// Restores a cgroup's limits.
///
/// Every region that still has its applied limit gets its baseline back. The
/// record is narrowed to those regions before the first write, and afterwards to
/// those whose write failed; it is removed when none is left. The restoration
/// stays outstanding until there is no record any more.
pub open spec fn restore(state: PolicyModel, path: PathModel) -> Program {
    ask_record(releasing(state, path), path)
}

pub open spec fn ask_record(state: PolicyModel, path: PathModel) -> Program {
    Program::Ask(
        Call::GetXattr(path, Xattr::State),
        |answer: Answer|
            match answer {
                Answer::Attribute(Ok(Some(bytes))) => match recovery::record_of(bytes) {
                    Ok(record) => ask_limits(state, path, bytes, record),
                    Err(_) => Program::Done(state, true),
                },
                Answer::Attribute(Ok(None)) => Program::Done(released(state, path), true),
                Answer::Attribute(Err(IoFailure::NotFound)) => Program::Done(
                    released(state, path),
                    true,
                ),
                _ => Program::Done(state, true),
            },
    )
}

pub open spec fn ask_limits(
    state: PolicyModel,
    path: PathModel,
    bytes: Seq<u8>,
    record: RecordModel,
) -> Program {
    Program::Ask(
        Call::Read(low_file(path)),
        |answer: Answer|
            match limits_in(answer) {
                Some(current) => restore_boosted(
                    state,
                    path,
                    bytes,
                    recovery::select(record, current, Standing::Applied),
                ),
                None => Program::Done(state, true),
            },
    )
}

/// Goes on with the entries that still stand at their applied limits.
pub open spec fn restore_boosted(
    state: PolicyModel,
    path: PathModel,
    bytes: Seq<u8>,
    boosted: RecordModel,
) -> Program {
    if boosted.len() == 0 {
        ask_clear(state, path)
    } else if bytes != recovery::record_bytes(boosted) {
        ask_narrow(state, path, boosted)
    } else {
        restore_writes(state, path, boosted, 0, Seq::empty())
    }
}

pub open spec fn ask_clear(state: PolicyModel, path: PathModel) -> Program {
    Program::Ask(
        Call::RemoveXattr(path, Xattr::State),
        |answer: Answer|
            if request::succeeded(answer) {
                Program::Done(released(state, path), true)
            } else {
                Program::Done(state, true)
            },
    )
}

pub open spec fn ask_narrow(state: PolicyModel, path: PathModel, boosted: RecordModel) -> Program {
    Program::Ask(
        Call::SetXattr(path, Xattr::State, recovery::record_bytes(boosted)),
        |answer: Answer|
            if request::succeeded(answer) {
                restore_writes(state, path, boosted, 0, Seq::empty())
            } else {
                Program::Done(state, true)
            },
    )
}

pub open spec fn restore_writes(
    state: PolicyModel,
    path: PathModel,
    boosted: RecordModel,
    next: nat,
    failed: RecordModel,
) -> Program
    decreases boosted.len() - next,
{
    if next < boosted.len() {
        let (region, entry) = boosted[next as int];
        Program::Ask(
            Call::WriteDmem(low_file(path), region, entry.baseline),
            |answer: Answer|
                restore_writes(
                    state,
                    path,
                    boosted,
                    next + 1,
                    if request::succeeded(answer) {
                        failed
                    } else {
                        table::put(failed, region, entry)
                    },
                ),
        )
    } else if failed.len() == 0 {
        ask_clear(state, path)
    } else if failed == boosted {
        Program::Done(state, true)
    } else {
        ask_keep(state, path, failed)
    }
}

pub open spec fn ask_keep(state: PolicyModel, path: PathModel, failed: RecordModel) -> Program {
    Program::Ask(
        Call::SetXattr(path, Xattr::State, recovery::record_bytes(failed)),
        |answer: Answer| Program::Done(state, true),
    )
}

/// A restoration that waits for an answer.
pub enum RestoreTask {
    /// For the record.
    Record { path: CgroupPath },
    /// For the limits.
    Limits { path: CgroupPath, bytes: Vec<u8>, record: RecoveryState },
    /// For the removal of the record.
    Clear { path: CgroupPath },
    /// For the narrower record to be stored.
    Narrow { path: CgroupPath, boosted: RecoveryState },
    /// For a baseline to be written.
    Write { path: CgroupPath, boosted: RecoveryState, next: usize, failed: RecoveryState },
    /// For the record of the failed writes to be stored.
    Keep { path: CgroupPath, failed: RecoveryState },
}

/// Reads the limits that an answer lists.
pub(crate) fn limits_from(reply: &Reply) -> (limits: Option<DmemValues>)
    ensures
        match limits_in(reply@) {
            Some(values) => limits matches Some(found) && found@ == values,
            None => limits is None,
        },
{
    match reply {
        Reply::Text(Ok(content)) => match cgroup::parse_dmem_values(content.as_str()) {
            Ok(values) => Some(values),
            Err(_) => None,
        },
        _ => None,
    }
}

/// The file that holds a cgroup's limits.
pub(crate) fn low_path(path: &CgroupPath) -> (file: CgroupPath)
    ensures
        file@ == low_file(path@),
{
    path.child("dmem.low")
}

impl Unfinished for RestoreTask {
    open spec fn valid(&self) -> bool {
        match self {
            RestoreTask::Narrow { boosted, .. } => boosted@.len() > 0,
            RestoreTask::Write { boosted, next, .. } => *next < boosted@.len(),
            _ => true,
        }
    }

    open spec fn program(&self, state: PolicyModel) -> Program {
        match self {
            RestoreTask::Record { path } => ask_record(state, path@),
            RestoreTask::Limits { path, bytes, record } => ask_limits(
                state,
                path@,
                bytes@,
                record@,
            ),
            RestoreTask::Clear { path } => ask_clear(state, path@),
            RestoreTask::Narrow { path, boosted } => ask_narrow(state, path@, boosted@),
            RestoreTask::Write { path, boosted, next, failed } => restore_writes(
                state,
                path@,
                boosted@,
                *next as nat,
                failed@,
            ),
            RestoreTask::Keep { path, failed } => ask_keep(state, path@, failed@),
        }
    }

    proof fn lemma_asks(&self, state: PolicyModel) {
    }
}

impl Task for RestoreTask {
    fn request(&self, state: &PolicyState) -> (request: Request) {
        match self {
            RestoreTask::Record { path } => Request::GetXattr {
                path: path.duplicate(),
                name: Xattr::State,
            },
            RestoreTask::Limits { path, .. } => Request::Read(low_path(path)),
            RestoreTask::Clear { path } => Request::RemoveXattr {
                path: path.duplicate(),
                name: Xattr::State,
            },
            RestoreTask::Narrow { path, boosted } => Request::SetXattr {
                path: path.duplicate(),
                name: Xattr::State,
                bytes: recovery::serialize_state(boosted),
            },
            RestoreTask::Write { path, boosted, next, .. } => Request::WriteDmem {
                file: low_path(path),
                region: boosted.region(*next).clone(),
                value: boosted.value(*next).baseline,
            },
            RestoreTask::Keep { path, failed } => Request::SetXattr {
                path: path.duplicate(),
                name: Xattr::State,
                bytes: recovery::serialize_state(failed),
            },
        }
    }

    fn resume(self, state: &mut PolicyState, reply: Reply) -> (progress: Progress<Self>) {
        match self {
            RestoreTask::Record { path } => match reply {
                Reply::Attribute(Ok(Some(bytes))) => match recovery::parse_state(bytes.as_slice()) {
                    Ok(record) => Progress::Waiting(RestoreTask::Limits { path, bytes, record }),
                    Err(_) => Progress::Finished(true),
                },
                Reply::Attribute(Ok(None)) => {
                    state.pending_restore.remove(&path);
                    Progress::Finished(true)
                },
                Reply::Attribute(Err(IoFailure::NotFound)) => {
                    state.pending_restore.remove(&path);
                    Progress::Finished(true)
                },
                _ => Progress::Finished(true),
            },
            RestoreTask::Limits { path, bytes, record } => match limits_from(&reply) {
                Some(current) => {
                    let boosted = recovery::select_entries(&record, &current, Standing::Applied);
                    if boosted.is_empty() {
                        Progress::Waiting(RestoreTask::Clear { path })
                    } else if !path::same_bytes(&bytes, &recovery::serialize_state(&boosted)) {
                        Progress::Waiting(RestoreTask::Narrow { path, boosted })
                    } else {
                        let failed: RecoveryState = RegionMap::new();
                        Progress::Waiting(RestoreTask::Write { path, boosted, next: 0, failed })
                    }
                },
                None => Progress::Finished(true),
            },
            RestoreTask::Clear { path } => {
                if reply.succeeded() {
                    state.pending_restore.remove(&path);
                }
                Progress::Finished(true)
            },
            RestoreTask::Narrow { path, boosted } => {
                if reply.succeeded() {
                    let failed: RecoveryState = RegionMap::new();
                    Progress::Waiting(RestoreTask::Write { path, boosted, next: 0, failed })
                } else {
                    Progress::Finished(true)
                }
            },
            RestoreTask::Write { path, boosted, next, mut failed } => {
                proof {
                    reveal_with_fuel(restore_writes, 2);
                }
                let count: usize = boosted.len();
                if !reply.succeeded() {
                    let region = boosted.region(next).clone();
                    let entry = boosted.value(next);
                    failed.insert(region, entry);
                }
                if next + 1 < count {
                    Progress::Waiting(RestoreTask::Write { path, boosted, next: next + 1, failed })
                } else if failed.is_empty() {
                    Progress::Waiting(RestoreTask::Clear { path })
                } else if recovery::same_record(&failed, &boosted) {
                    Progress::Finished(true)
                } else {
                    Progress::Waiting(RestoreTask::Keep { path, failed })
                }
            },
            RestoreTask::Keep { .. } => Progress::Finished(true),
        }
    }
}

/// Begins to restore a cgroup's limits.
pub(crate) fn start_restore(state: &mut PolicyState, path: &CgroupPath) -> (task: RestoreTask)
    ensures
        task.valid(),
        task.program(final(state)@) == restore(old(state)@, path@),
{
    state.pending_apply.remove(path);
    state.pending_restore.insert(path.duplicate());
    if state.is_foreground(path) {
        state.foreground = None;
    }
    RestoreTask::Record { path: path.duplicate() }
}

}
