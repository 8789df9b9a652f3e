//! Acting on the events of the watches.

use crate::each;
use crate::each::{EachTask, Work};
use crate::path::{CgroupPath, PathModel};
use crate::paths;
use crate::paths::{PathMap, PathSet, WatchMap};
use crate::program;
use crate::program::{Program, Progress, Task, Unfinished};
use crate::reconcile;
use crate::reconcile::ReconcileTask;
use crate::request;
use crate::request::{Answer, Call, Reply, Request};
use crate::state::{PolicyModel, PolicyState};
use crate::watch;
use crate::watch::WatchEvent;
use vstd::prelude::*;

verus! {

/// Whether events were lost.
pub open spec fn overflowed(events: Seq<WatchEvent>) -> bool {
    exists|i: int| 0 <= i < events.len() && watch::has((#[trigger] events[i]).mask, watch::Q_OVERFLOW)
}

/// The cgroups that are gone, or whose watches are.
pub open spec fn removed(watches: Seq<(i32, PathModel)>, events: Seq<WatchEvent>) -> Seq<PathModel>
    decreases events.len(),
{
    if events.len() == 0 {
        Seq::empty()
    } else {
        let rest = removed(watches, events.drop_last());
        match paths::watched(watches, events.last().watch) {
            Some(path) => if watch::meets(events.last().mask, watch::REMOVED) {
                rest.push(path)
            } else {
                rest
            },
            None => rest,
        }
    }
}

/// The cgroups whose attributes have changed.
pub open spec fn changed(watches: Seq<(i32, PathModel)>, events: Seq<WatchEvent>) -> Seq<PathModel>
    decreases events.len(),
{
    if events.len() == 0 {
        Seq::empty()
    } else {
        let rest = changed(watches, events.drop_last());
        match paths::watched(watches, events.last().watch) {
            Some(path) => if !watch::meets(events.last().mask, watch::REMOVED) && watch::has(
                events.last().mask,
                watch::ATTRIB,
            ) {
                rest.push(path)
            } else {
                rest
            },
            None => rest,
        }
    }
}

/// Acts on events.
///
/// Where events were lost, every watch is made anew and every cgroup is looked at
/// again. Otherwise the cgroups that are gone are let go; then, if a cgroup that is
/// still tracked has changed or has not been looked at yet, the focus of all tracked
/// cgroups is looked at. Without watches there is nothing to act on.
pub open spec fn process_events(state: PolicyModel, events: Seq<WatchEvent>) -> Program {
    if !state.watching {
        Program::Done(state, true)
    } else if overflowed(events) {
        and_reconcile(rebuild_watches(state))
    } else {
        and_check(
            each::each(Work::Untrack, state, removed(state.watches, events), 0),
            changed(state.watches, events),
        )
    }
}

/// Looks at the focus after the operation, if there is a reason to.
pub open spec fn and_check(first: Program, changed: Seq<PathModel>) -> Program {
    program::bind(first, |state: PolicyModel, done: bool| check(state, changed))
}

/// Every cgroup has been looked at.
pub open spec fn checked(state: PolicyModel) -> PolicyModel {
    PolicyModel { pending_focus_checks: Seq::empty(), ..state }
}

/// Whether one of the paths is tracked.
pub open spec fn any_tracked(state: PolicyModel, candidates: Seq<PathModel>) -> bool {
    exists|i: int|
        0 <= i < candidates.len() && paths::lookup(state.paths, #[trigger] candidates[i]) is Some
}

/// Looks at the focus of all tracked cgroups, if one of them has changed or has not
/// been looked at yet.
pub open spec fn check(state: PolicyModel, changed: Seq<PathModel>) -> Program {
    if any_tracked(state, changed) || any_tracked(state, state.pending_focus_checks) {
        reconcile::reconcile_paths(checked(state), paths::keys(state.paths))
    } else {
        Program::Done(checked(state), true)
    }
}

/// Makes every watch anew.
///
/// Where that is not possible, nothing is tracked or watched from now on.
pub open spec fn rebuild_watches(state: PolicyModel) -> Program {
    Program::Ask(
        Call::ResetWatches,
        |answer: Answer|
            if request::succeeded(answer) {
                each::each(Work::Register, checked(untied(state)), paths::keys(state.paths), 0)
            } else {
                Program::Done(PolicyModel { watching: false, ..untied(state) }, true)
            },
    )
}

/// No cgroup is tracked.
pub open spec fn untied(state: PolicyModel) -> PolicyModel {
    PolicyModel { watches: Seq::empty(), paths: Seq::empty(), ..state }
}

/// Looks at everything again after the operation.
pub open spec fn and_reconcile(first: Program) -> Program {
    program::bind(first, |state: PolicyModel, done: bool| reconcile(state))
}

/// Nothing is known of the focus. The boosted cgroup's boost or, if it is not tracked
/// any more, its restoration is outstanding.
pub open spec fn restarted(state: PolicyModel) -> PolicyModel {
    let blank = PolicyModel {
        foreground: None,
        ambiguous_active: Seq::empty(),
        focus_values: Seq::empty(),
        pending_focus_checks: Seq::empty(),
        ..state
    };
    match state.foreground {
        Some(path) => if paths::lookup(state.paths, path) is Some {
            PolicyModel { pending_apply: paths::with(state.pending_apply, path), ..blank }
        } else {
            PolicyModel { pending_restore: paths::with(state.pending_restore, path), ..blank }
        },
        None => blank,
    }
}

/// Looks at the focus of all tracked cgroups as if for the first time.
pub open spec fn reconcile(state: PolicyModel) -> Program {
    reconcile::reconcile_paths(restarted(state), paths::keys(state.paths))
}

proof fn lemma_and_check(first: Program, changed: Seq<PathModel>, answer: Answer)
    requires
        first is Ask,
    ensures
        program::asked(and_check(first, changed)) == program::asked(first),
        program::after_answer(and_check(first, changed), answer) == and_check(
            program::after_answer(first, answer),
            changed,
        ),
{
    program::lemma_bind(first, |state: PolicyModel, done: bool| check(state, changed), answer);
}

proof fn lemma_and_reconcile(first: Program, answer: Answer)
    requires
        first is Ask,
    ensures
        program::asked(and_reconcile(first)) == program::asked(first),
        program::after_answer(and_reconcile(first), answer) == and_reconcile(
            program::after_answer(first, answer),
        ),
{
    program::lemma_bind(first, |state: PolicyModel, done: bool| reconcile(state), answer);
}

/// Begins to look at everything again.
pub(crate) fn start_over(state: &mut PolicyState) -> (progress: Progress<ReconcileTask>)
    ensures
        progress.valid(),
        progress.program(final(state)@) == reconcile(old(state)@),
{
    if let Some(path) = state.foreground.take() {
        if state.paths.contains(&path) {
            state.pending_apply.insert(path);
        } else {
            state.pending_restore.insert(path);
        }
    }
    state.ambiguous_active = PathSet::new();
    state.focus_values = PathMap::new();
    state.pending_focus_checks = PathSet::new();
    let all = state.paths.paths();
    reconcile::start_reconcile(state, all)
}

/// A renewal of the watches that waits for an answer.
pub enum RebuildTask {
    /// For a fresh set of watches.
    Reset,
    /// The cgroups are being registered.
    Registering { registering: EachTask },
}

impl Unfinished for RebuildTask {
    open spec fn valid(&self) -> bool {
        match self {
            RebuildTask::Reset => true,
            RebuildTask::Registering { registering } => registering.valid(),
        }
    }

    open spec fn program(&self, state: PolicyModel) -> Program {
        match self {
            RebuildTask::Reset => rebuild_watches(state),
            RebuildTask::Registering { registering } => registering.program(state),
        }
    }

    proof fn lemma_asks(&self, state: PolicyModel) {
        match self {
            RebuildTask::Reset => {},
            RebuildTask::Registering { registering } => registering.lemma_asks(state),
        }
    }
}

impl Task for RebuildTask {
    fn request(&self, state: &PolicyState) -> (request: Request) {
        match self {
            RebuildTask::Reset => Request::ResetWatches,
            RebuildTask::Registering { registering } => registering.request(state),
        }
    }

    fn resume(self, state: &mut PolicyState, reply: Reply) -> (progress: Progress<Self>) {
        let step = match self {
            RebuildTask::Reset => {
                let all = state.paths.paths();
                state.watches = WatchMap::new();
                state.paths = PathMap::new();
                if !reply.succeeded() {
                    state.watching = false;
                    return Progress::Finished(true);
                }
                state.pending_focus_checks = PathSet::new();
                each::start_each(Work::Register, state, all, 0)
            },
            RebuildTask::Registering { registering } => registering.resume(state, reply),
        };
        match step {
            Progress::Waiting(registering) => Progress::Waiting(
                RebuildTask::Registering { registering },
            ),
            Progress::Finished(result) => Progress::Finished(result),
        }
    }
}

/// The handling of events that waits for an answer.
pub enum EventsTask {
    /// The watches are being made anew.
    Rebuilding { rebuilding: RebuildTask },
    /// Cgroups are being let go.
    Removing { removing: EachTask, changed: Vec<CgroupPath> },
    /// The focus is being looked at.
    Checking { checking: ReconcileTask },
}

impl Unfinished for EventsTask {
    open spec fn valid(&self) -> bool {
        match self {
            EventsTask::Rebuilding { rebuilding } => rebuilding.valid(),
            EventsTask::Removing { removing, .. } => removing.valid(),
            EventsTask::Checking { checking } => checking.valid(),
        }
    }

    open spec fn program(&self, state: PolicyModel) -> Program {
        match self {
            EventsTask::Rebuilding { rebuilding } => and_reconcile(rebuilding.program(state)),
            EventsTask::Removing { removing, changed } => and_check(
                removing.program(state),
                paths::path_views(changed@),
            ),
            EventsTask::Checking { checking } => checking.program(state),
        }
    }

    proof fn lemma_asks(&self, state: PolicyModel) {
        match self {
            EventsTask::Rebuilding { rebuilding } => rebuilding.lemma_asks(state),
            EventsTask::Removing { removing, .. } => removing.lemma_asks(state),
            EventsTask::Checking { checking } => checking.lemma_asks(state),
        }
    }
}

fn checking(step: Progress<ReconcileTask>) -> (progress: Progress<EventsTask>)
    requires
        step.valid(),
    ensures
        progress.valid(),
        forall|state: PolicyModel| #[trigger] progress.program(state) == step.program(state),
{
    match step {
        Progress::Waiting(checking) => Progress::Waiting(EventsTask::Checking { checking }),
        Progress::Finished(result) => Progress::Finished(result),
    }
}

/// Whether one of the paths is tracked.
fn is_any_tracked(state: &PolicyState, candidates: &Vec<CgroupPath>) -> (found: bool)
    ensures
        found == any_tracked(state@, paths::path_views(candidates@)),
{
    let ghost models = paths::path_views(candidates@);
    let mut i: usize = 0;
    while i < candidates.len()
        invariant
            i <= candidates@.len(),
            models == paths::path_views(candidates@),
            forall|j: int|
                0 <= j < i ==> paths::lookup(state@.paths, #[trigger] models[j]) is None,
        decreases candidates@.len() - i,
    {
        assert(models[i as int] == candidates@[i as int]@);
        if state.paths.contains(&candidates[i]) {
            return true;
        }
        i = i + 1;
    }
    false
}

fn next_check(state: &mut PolicyState, changed: &Vec<CgroupPath>) -> (progress: Progress<
    EventsTask,
>)
    ensures
        progress.valid(),
        progress.program(final(state)@) == check(old(state)@, paths::path_views(changed@)),
{
    let pending = state.pending_focus_checks.to_vec();
    let wanted = is_any_tracked(state, changed) || is_any_tracked(state, &pending);
    state.pending_focus_checks = PathSet::new();
    if wanted {
        let all = state.paths.paths();
        checking(reconcile::start_reconcile(state, all))
    } else {
        Progress::Finished(true)
    }
}

fn resume_rebuilding(
    rebuilding: RebuildTask,
    state: &mut PolicyState,
    reply: Reply,
) -> (progress: Progress<EventsTask>)
    requires
        rebuilding.valid(),
    ensures
        progress.valid(),
        progress.program(final(state)@) == program::after_answer(
            and_reconcile(rebuilding.program(old(state)@)),
            reply@,
        ),
{
    proof {
        rebuilding.lemma_asks(state@);
        lemma_and_reconcile(rebuilding.program(state@), reply@);
    }
    match rebuilding.resume(state, reply) {
        Progress::Waiting(rebuilding) => Progress::Waiting(EventsTask::Rebuilding { rebuilding }),
        Progress::Finished(_) => checking(start_over(state)),
    }
}

fn after_removing(
    step: Progress<EachTask>,
    state: &mut PolicyState,
    changed: Vec<CgroupPath>,
) -> (progress: Progress<EventsTask>)
    requires
        step.valid(),
    ensures
        progress.valid(),
        progress.program(final(state)@) == and_check(
            step.program(old(state)@),
            paths::path_views(changed@),
        ),
{
    match step {
        Progress::Waiting(removing) => Progress::Waiting(
            EventsTask::Removing { removing, changed },
        ),
        Progress::Finished(_) => next_check(state, &changed),
    }
}

impl Task for EventsTask {
    fn request(&self, state: &PolicyState) -> (request: Request) {
        proof {
            self.lemma_asks(state@);
        }
        match self {
            EventsTask::Rebuilding { rebuilding } => {
                proof {
                    rebuilding.lemma_asks(state@);
                }
                rebuilding.request(state)
            },
            EventsTask::Removing { removing, .. } => {
                proof {
                    removing.lemma_asks(state@);
                }
                removing.request(state)
            },
            EventsTask::Checking { checking } => checking.request(state),
        }
    }

    fn resume(self, state: &mut PolicyState, reply: Reply) -> (progress: Progress<Self>) {
        match self {
            EventsTask::Rebuilding { rebuilding } => resume_rebuilding(rebuilding, state, reply),
            EventsTask::Removing { removing, changed } => {
                proof {
                    removing.lemma_asks(state@);
                    lemma_and_check(
                        removing.program(state@),
                        paths::path_views(changed@),
                        reply@,
                    );
                }
                let step = removing.resume(state, reply);
                after_removing(step, state, changed)
            },
            EventsTask::Checking { checking } => self::checking(checking.resume(state, reply)),
        }
    }
}

/// Whether events were lost.
fn any_overflow(events: &Vec<WatchEvent>) -> (lost: bool)
    ensures
        lost == overflowed(events@),
{
    let mut i: usize = 0;
    while i < events.len()
        invariant
            i <= events@.len(),
            forall|j: int|
                0 <= j < i ==> !watch::has((#[trigger] events@[j]).mask, watch::Q_OVERFLOW),
        decreases events@.len() - i,
    {
        if watch::mask_contains(events[i].mask, watch::Q_OVERFLOW) {
            return true;
        }
        i = i + 1;
    }
    false
}

/// Begins to act on events.
pub(crate) fn start_events(state: &mut PolicyState, events: &Vec<WatchEvent>) -> (progress:
    Progress<EventsTask>)
    ensures
        progress.valid(),
        progress.program(final(state)@) == process_events(old(state)@, events@),
{
    if !state.watching {
        return Progress::Finished(true);
    }
    if any_overflow(events) {
        return Progress::Waiting(EventsTask::Rebuilding { rebuilding: RebuildTask::Reset });
    }
    let mut gone: Vec<CgroupPath> = Vec::new();
    let mut altered: Vec<CgroupPath> = Vec::new();
    let mut i: usize = 0;
    proof {
        assert(events@.take(0) =~= Seq::<WatchEvent>::empty());
        assert(paths::path_views(gone@) =~= Seq::<PathModel>::empty());
        assert(paths::path_views(altered@) =~= Seq::<PathModel>::empty());
    }
    while i < events.len()
        invariant
            i <= events@.len(),
            paths::path_views(gone@) == removed(state@.watches, events@.take(i as int)),
            paths::path_views(altered@) == changed(state@.watches, events@.take(i as int)),
        decreases events@.len() - i,
    {
        let event = events[i];
        proof {
            assert(events@.take(i + 1).drop_last() =~= events@.take(i as int));
            assert(events@.take(i + 1).last() == event);
        }
        if let Some(path) = state.watches.get(event.watch) {
            let path = path.duplicate();
            if watch::mask_intersects(event.mask, watch::REMOVED) {
                proof {
                    assert(paths::path_views(gone@.push(path)) =~= paths::path_views(gone@).push(
                        path@,
                    ));
                }
                gone.push(path);
            } else if watch::mask_contains(event.mask, watch::ATTRIB) {
                proof {
                    assert(paths::path_views(altered@.push(path)) =~= paths::path_views(
                        altered@,
                    ).push(path@));
                }
                altered.push(path);
            }
        }
        i = i + 1;
    }
    proof {
        assert(events@.take(i as int) =~= events@);
    }
    let step = each::start_each(Work::Untrack, state, gone, 0);
    after_removing(step, state, altered)
}

}
