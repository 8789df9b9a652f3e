//! Following the focus: one look at the focus attributes, and what comes of it.

use crate::activate;
use crate::activate::ActivateTask;
use crate::focus;
use crate::focus::FocusValue;
use crate::path::{CgroupPath, PathModel};
use crate::paths;
use crate::paths::PathMap;
use crate::program;
use crate::program::{Program, Progress, Task, Unfinished};
use crate::request::{Answer, Call, Reply, Request, Xattr};
use crate::restore;
use crate::restore::RestoreTask;
use crate::state::{PolicyModel, PolicyState};
use vstd::prelude::*;

verus! {

/// The focus attributes with newly read ones filed, and whether any of those was
/// different.
pub open spec fn commit(
    known: Seq<(PathModel, Option<Seq<u8>>)>,
    paths: Seq<PathModel>,
    values: Seq<Option<Seq<u8>>>,
) -> (Seq<(PathModel, Option<Seq<u8>>)>, bool)
    decreases values.len(),
{
    if values.len() == 0 {
        (known, false)
    } else {
        let (before, changed) = commit(known, paths, values.drop_last());
        let path = paths[values.len() - 1];
        if paths::lookup(before, path) != Some(values.last()) {
            (paths::filed(before, path, values.last()), true)
        } else {
            (before, changed)
        }
    }
}

/// Looks at the focus attributes of cgroups and acts on what has changed.
///
/// Ends with `false`, and with nothing changed, where an attribute cannot be read: a
/// part of a snapshot is no snapshot. Where nothing is different, nothing is done.
/// Otherwise the one cgroup that claims the focus is boosted, or none if several
/// claim it, and every other cgroup is restored.
pub open spec fn reconcile_paths(state: PolicyModel, paths: Seq<PathModel>) -> Program {
    look(state, paths, Seq::empty())
}

pub open spec fn look(
    state: PolicyModel,
    paths: Seq<PathModel>,
    values: Seq<Option<Seq<u8>>>,
) -> Program
    decreases paths.len() - values.len(),
{
    if values.len() < paths.len() {
        Program::Ask(
            Call::GetXattr(paths[values.len() as int], Xattr::Focus),
            |answer: Answer|
                match answer {
                    Answer::Attribute(Ok(value)) => look(state, paths, values.push(value)),
                    _ => Program::Done(state, false),
                },
        )
    } else {
        settle(state, paths, values)
    }
}

/// The one cgroup that claims the focus.
pub open spec fn sole(active: Seq<PathModel>) -> Option<PathModel> {
    if active.len() == 1 {
        Some(active[0])
    } else {
        None
    }
}

/// The focus attributes are known anew.
pub open spec fn informed(
    state: PolicyModel,
    values: Seq<(PathModel, Option<Seq<u8>>)>,
) -> PolicyModel {
    let active = focus::claimants(values);
    PolicyModel {
        focus_values: values,
        ambiguous_active: if active.len() > 1 {
            active
        } else {
            Seq::empty()
        },
        ..state
    }
}

/// Acts on a complete snapshot.
pub open spec fn settle(
    state: PolicyModel,
    paths: Seq<PathModel>,
    values: Seq<Option<Seq<u8>>>,
) -> Program {
    let (known, changed) = commit(state.focus_values, paths, values);
    if changed {
        release(informed(state, known), paths::keys(known), 0, sole(focus::claimants(known)))
    } else {
        Program::Done(state, true)
    }
}

/// The cgroup's boost is no longer wanted.
pub open spec fn unwanted(state: PolicyModel, path: PathModel) -> PolicyModel {
    PolicyModel { pending_apply: paths::without(state.pending_apply, path), ..state }
}

/// Restores every cgroup but the selected one, and then boosts that one. A
/// restoration or a boost that is already outstanding is left for later.
pub open spec fn release(
    state: PolicyModel,
    paths: Seq<PathModel>,
    next: nat,
    selected: Option<PathModel>,
) -> Program
    decreases paths.len() - next, 0int,
{
    if next < paths.len() {
        let path = paths[next as int];
        let unwanted = unwanted(state, path);
        if selected == Some(path) {
            release(state, paths, next + 1, selected)
        } else if unwanted.pending_restore.contains(path) {
            release(unwanted, paths, next + 1, selected)
        } else {
            and_release(restore::restore(unwanted, path), paths, next + 1, selected)
        }
    } else {
        favour(state, selected)
    }
}

/// Releases the cgroups from a place on after the operation.
pub open spec fn and_release(
    first: Program,
    paths: Seq<PathModel>,
    next: nat,
    selected: Option<PathModel>,
) -> Program
    decreases paths.len() - next, 1int,
{
    program::bind(
        first,
        |state: PolicyModel, done: bool| release(state, paths, next, selected),
    )
}

/// Boosts the selected cgroup, unless its boost or restoration is outstanding.
pub open spec fn favour(state: PolicyModel, selected: Option<PathModel>) -> Program {
    match selected {
        Some(path) => if state.pending_apply.contains(path) || state.pending_restore.contains(
            path,
        ) {
            Program::Done(state, true)
        } else {
            activate::activate(state, path)
        },
        None => Program::Done(state, true),
    }
}

/// While a cgroup is restored, the ones after it wait.
pub proof fn lemma_and_release(
    first: Program,
    paths: Seq<PathModel>,
    next: nat,
    selected: Option<PathModel>,
    answer: Answer,
)
    requires
        first is Ask,
    ensures
        program::asked(and_release(first, paths, next, selected)) == program::asked(first),
        program::after_answer(and_release(first, paths, next, selected), answer) == and_release(
            program::after_answer(first, answer),
            paths,
            next,
            selected,
        ),
{
    program::lemma_bind(
        first,
        |state: PolicyModel, done: bool| release(state, paths, next, selected),
        answer,
    );
}

/// The models of focus attributes.
pub open spec fn focus_views(values: Seq<FocusValue>) -> Seq<Option<Seq<u8>>> {
    Seq::new(values.len(), |i: int| values[i]@)
}

/// A look at the focus that waits for an answer.
pub enum ReconcileTask {
    /// For a focus attribute.
    Look { paths: Vec<CgroupPath>, values: Vec<FocusValue> },
    /// A cgroup is being restored.
    Releasing {
        paths: Vec<CgroupPath>,
        next: usize,
        selected: Option<CgroupPath>,
        restoring: RestoreTask,
    },
    /// The selected cgroup is being boosted.
    Favouring { activating: ActivateTask },
}

impl Unfinished for ReconcileTask {
    open spec fn valid(&self) -> bool {
        match self {
            ReconcileTask::Look { paths, values } => values@.len() < paths@.len(),
            ReconcileTask::Releasing { paths, next, restoring, .. } => *next <= paths@.len()
                && restoring.valid(),
            ReconcileTask::Favouring { activating } => activating.valid(),
        }
    }

    open spec fn program(&self, state: PolicyModel) -> Program {
        match self {
            ReconcileTask::Look { paths, values } => look(
                state,
                paths::path_views(paths@),
                focus_views(values@),
            ),
            ReconcileTask::Releasing { paths, next, selected, restoring } => and_release(
                restoring.program(state),
                paths::path_views(paths@),
                *next as nat,
                crate::state::optional(*selected),
            ),
            ReconcileTask::Favouring { activating } => activating.program(state),
        }
    }

    proof fn lemma_asks(&self, state: PolicyModel) {
        match self {
            ReconcileTask::Releasing { restoring, .. } => restoring.lemma_asks(state),
            ReconcileTask::Favouring { activating } => activating.lemma_asks(state),
            _ => {},
        }
    }
}

/// Files newly read focus attributes. Says whether any of those was different.
fn commit_values(
    known: &mut PathMap<FocusValue>,
    paths: &Vec<CgroupPath>,
    values: &Vec<FocusValue>,
) -> (changed: bool)
    requires
        values@.len() <= paths@.len(),
    ensures
        (final(known)@, changed) == commit(
            old(known)@,
            paths::path_views(paths@),
            focus_views(values@),
        ),
{
    let ghost all = focus_views(values@);
    let ghost models = paths::path_views(paths@);
    let mut changed = false;
    let mut i: usize = 0;
    proof {
        assert(all.take(0) =~= Seq::<Option<Seq<u8>>>::empty());
    }
    while i < values.len()
        invariant
            i <= values@.len() <= paths@.len(),
            all == focus_views(values@),
            models == paths::path_views(paths@),
            (known@, changed) == commit(old(known)@, models, all.take(i as int)),
        decreases values@.len() - i,
    {
        proof {
            assert(all.take(i + 1).drop_last() =~= all.take(i as int));
            assert(all.take(i + 1).last() == values@[i as int]@);
            assert(models[i as int] == paths@[i as int]@);
        }
        let same = match known.get(&paths[i]) {
            Some(value) => value.same(&values[i]),
            None => false,
        };
        if !same {
            changed = true;
            known.insert(paths[i].duplicate(), values[i].duplicate());
        }
        i = i + 1;
    }
    proof {
        assert(all.take(i as int) =~= all);
    }
    changed
}

/// Goes on with the release of cgroups.
fn next_release(
    state: &mut PolicyState,
    paths: Vec<CgroupPath>,
    start: usize,
    selected: Option<CgroupPath>,
) -> (progress: Progress<ReconcileTask>)
    requires
        start <= paths@.len(),
    ensures
        progress.valid(),
        progress.program(final(state)@) == release(
            old(state)@,
            paths::path_views(paths@),
            start as nat,
            crate::state::optional(selected),
        ),
{
    let ghost models = paths::path_views(paths@);
    let ghost chosen = crate::state::optional(selected);
    let count: usize = paths.len();
    let mut next: usize = start;
    while next < count
        invariant
            count == paths@.len(),
            next <= count,
            models == paths::path_views(paths@),
            chosen == crate::state::optional(selected),
            release(old(state)@, models, start as nat, chosen) == release(
                state@,
                models,
                next as nat,
                chosen,
            ),
        decreases count - next,
    {
        let path = &paths[next];
        assert(models[next as int] == path@);
        let is_selected = match &selected {
            Some(selected) => selected.same(path),
            None => false,
        };
        if !is_selected {
            state.pending_apply.remove(path);
            if !state.pending_restore.contains(path) {
                let restoring = restore::start_restore(state, path);
                return Progress::Waiting(
                    ReconcileTask::Releasing { paths, next: next + 1, selected, restoring },
                );
            }
        }
        next = next + 1;
    }
    match &selected {
        Some(path) => {
            if state.pending_apply.contains(path) || state.pending_restore.contains(path) {
                return Progress::Finished(true);
            }
            match activate::start_activate(state, path) {
                Progress::Waiting(activating) => Progress::Waiting(
                    ReconcileTask::Favouring { activating },
                ),
                Progress::Finished(result) => Progress::Finished(result),
            }
        },
        None => Progress::Finished(true),
    }
}

/// Acts on a complete snapshot.
fn act(state: &mut PolicyState, paths: &Vec<CgroupPath>, values: &Vec<FocusValue>) -> (progress:
    Progress<ReconcileTask>)
    requires
        values@.len() == paths@.len(),
    ensures
        progress.valid(),
        progress.program(final(state)@) == settle(
            old(state)@,
            paths::path_views(paths@),
            focus_views(values@),
        ),
{
    let ghost before = state@;
    let changed = commit_values(&mut state.focus_values, paths, values);
    if !changed {
        proof {
            lemma_unchanged(before.focus_values, paths::path_views(paths@), focus_views(values@));
        }
        return Progress::Finished(true);
    }
    let active = focus::active_paths(&state.focus_values);
    let selected = if active.len() == 1 {
        Some(active.at(0).duplicate())
    } else {
        None
    };
    state.ambiguous_active = if active.len() > 1 {
        active
    } else {
        paths::PathSet::new()
    };
    let all = state.focus_values.paths();
    next_release(state, all, 0, selected)
}

/// Where no attribute is different, nothing is filed.
proof fn lemma_unchanged(
    known: Seq<(PathModel, Option<Seq<u8>>)>,
    paths: Seq<PathModel>,
    values: Seq<Option<Seq<u8>>>,
)
    requires
        !commit(known, paths, values).1,
    ensures
        commit(known, paths, values).0 == known,
    decreases values.len(),
{
    if values.len() > 0 {
        lemma_unchanged(known, paths, values.drop_last());
    }
}

fn next_look(state: &mut PolicyState, paths: Vec<CgroupPath>, values: Vec<FocusValue>) -> (progress:
    Progress<ReconcileTask>)
    requires
        values@.len() <= paths@.len(),
    ensures
        progress.valid(),
        progress.program(final(state)@) == look(
            old(state)@,
            paths::path_views(paths@),
            focus_views(values@),
        ),
{
    if values.len() < paths.len() {
        Progress::Waiting(ReconcileTask::Look { paths, values })
    } else {
        act(state, &paths, &values)
    }
}

fn resume_releasing(
    paths: Vec<CgroupPath>,
    next: usize,
    selected: Option<CgroupPath>,
    restoring: RestoreTask,
    state: &mut PolicyState,
    reply: Reply,
) -> (progress: Progress<ReconcileTask>)
    requires
        next <= paths@.len(),
        restoring.valid(),
    ensures
        progress.valid(),
        progress.program(final(state)@) == program::after_answer(
            and_release(
                restoring.program(old(state)@),
                paths::path_views(paths@),
                next as nat,
                crate::state::optional(selected),
            ),
            reply@,
        ),
{
    proof {
        restoring.lemma_asks(state@);
        lemma_and_release(
            restoring.program(state@),
            paths::path_views(paths@),
            next as nat,
            crate::state::optional(selected),
            reply@,
        );
    }
    match restoring.resume(state, reply) {
        Progress::Waiting(restoring) => Progress::Waiting(
            ReconcileTask::Releasing { paths, next, selected, restoring },
        ),
        Progress::Finished(_) => next_release(state, paths, next, selected),
    }
}

impl Task for ReconcileTask {
    fn request(&self, state: &PolicyState) -> (request: Request) {
        match self {
            ReconcileTask::Look { paths, values } => Request::GetXattr {
                path: paths[values.len()].duplicate(),
                name: Xattr::Focus,
            },
            ReconcileTask::Releasing { paths, next, selected, restoring } => {
                proof {
                    restoring.lemma_asks(state@);
                }
                restoring.request(state)
            },
            ReconcileTask::Favouring { activating } => activating.request(state),
        }
    }

    fn resume(self, state: &mut PolicyState, reply: Reply) -> (progress: Progress<Self>) {
        match self {
            ReconcileTask::Look { paths, mut values } => match reply {
                Reply::Attribute(Ok(bytes)) => {
                    let value = FocusValue { bytes };
                    proof {
                        assert(focus_views(values@.push(value)) =~= focus_views(values@).push(
                            value@,
                        ));
                    }
                    values.push(value);
                    next_look(state, paths, values)
                },
                _ => Progress::Finished(false),
            },
            ReconcileTask::Releasing { paths, next, selected, restoring } => resume_releasing(
                paths,
                next,
                selected,
                restoring,
                state,
                reply,
            ),
            ReconcileTask::Favouring { activating } => match activating.resume(state, reply) {
                Progress::Waiting(activating) => Progress::Waiting(
                    ReconcileTask::Favouring { activating },
                ),
                Progress::Finished(result) => Progress::Finished(result),
            },
        }
    }
}

/// Begins to look at the focus attributes of cgroups.
pub(crate) fn start_reconcile(state: &mut PolicyState, paths: Vec<CgroupPath>) -> (progress:
    Progress<ReconcileTask>)
    ensures
        progress.valid(),
        progress.program(final(state)@) == reconcile_paths(
            old(state)@,
            paths::path_views(paths@),
        ),
{
    let values: Vec<FocusValue> = Vec::new();
    proof {
        assert(focus_views(values@) =~= Seq::<Option<Seq<u8>>>::empty());
    }
    next_look(state, paths, values)
}

}
