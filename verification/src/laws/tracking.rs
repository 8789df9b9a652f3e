//! Tracking: which cgroups are followed, and when the focus is looked at.

use crate::activate;
use crate::each;
use crate::each::Work;
use crate::events;
use crate::laws::boost;
use crate::laws::consistency;
use crate::laws::focus;
use crate::laws::maintenance;
use crate::laws::operations;
use crate::laws::restoration;
use crate::laws::shutdown;
use crate::path;
use crate::path::PathModel;
use crate::paths;
use crate::policy;
use crate::program;
use crate::program::Program;
use crate::reconcile;
use crate::recover;
use crate::register;
use crate::request;
use crate::request::{Answer, Call, Xattr};
use crate::restore;
use crate::state::PolicyModel;
use crate::untrack;
use crate::watch;
use crate::watch::WatchEvent;
use crate::world;
use crate::world::World;
use vstd::prelude::*;

verus! {

/// What is tracked, waits for its registration or for a look is as it was.
pub open spec fn same_tracking(from: PolicyModel, to: PolicyModel) -> bool {
    &&& to.root == from.root
    &&& to.watching == from.watching
    &&& to.watches == from.watches
    &&& to.paths == from.paths
    &&& to.pending_registration == from.pending_registration
    &&& to.pending_focus_checks == from.pending_focus_checks
}

/// The same, as an ending.
pub open spec fn tracking_kept(from: PolicyModel) -> spec_fn(PolicyModel, bool) -> bool {
    |to: PolicyModel, done: bool| same_tracking(from, to)
}

/// Only boosts and restorations, done or outstanding, change.
spec fn otherwise_kept(from: PolicyModel) -> spec_fn(PolicyModel, bool) -> bool {
    |to: PolicyModel, done: bool| boost::otherwise_same(from, to)
}

proof fn lemma_restore(state: PolicyModel, path: PathModel)
    ensures
        consistency::ends(restore::restore(state, path), otherwise_kept(state)),
{
    let from = restore::releasing(state, path);
    consistency::lemma_restore(state, path);
    consistency::lemma_ends_weaken(
        restore::restore(state, path),
        consistency::either(from, restore::released(from, path)),
        otherwise_kept(state),
    );
}

proof fn lemma_activate(state: PolicyModel, path: PathModel)
    ensures
        consistency::ends(activate::activate(state, path), otherwise_kept(state)),
{
    let applying = activate::applying(state, path);
    let outcome = otherwise_kept(state);
    if state.foreground == Some(path) || state.pending_restore.contains(path) {
    } else {
        match state.foreground {
            None => {
                consistency::lemma_and_boost(applying, path);
                consistency::lemma_ends_weaken(
                    activate::activate(state, path),
                    consistency::either(applying, recover::activated(applying, path)),
                    outcome,
                );
            },
            Some(previous) => {
                let between = otherwise_kept(applying);
                let next = |s: PolicyModel, done: bool|
                    activate::and_boost(recover::recover(s, path), path);
                lemma_restore(applying, previous);
                assert forall|s: PolicyModel, r: bool| #[trigger]
                    between(s, r) implies consistency::ends(next(s, r), outcome) by {
                    consistency::lemma_and_boost(s, path);
                    consistency::lemma_ends_weaken(
                        next(s, r),
                        consistency::either(s, recover::activated(s, path)),
                        outcome,
                    );
                }
                consistency::lemma_ends_bind(
                    restore::restore(applying, previous),
                    next,
                    between,
                    outcome,
                );
            },
        }
    }
}

proof fn lemma_release(
    state: PolicyModel,
    all: Seq<PathModel>,
    next: nat,
    selected: Option<PathModel>,
)
    ensures
        consistency::ends(
            reconcile::release(state, all, next, selected),
            otherwise_kept(state),
        ),
    decreases all.len() - next,
{
    let outcome = otherwise_kept(state);
    if next < all.len() {
        let one = all[next as int];
        let unwanted = reconcile::unwanted(state, one);
        if selected == Some(one) {
            lemma_release(state, all, next + 1, selected);
        } else if unwanted.pending_restore.contains(one) {
            lemma_release(unwanted, all, next + 1, selected);
            consistency::lemma_ends_weaken(
                reconcile::release(unwanted, all, next + 1, selected),
                otherwise_kept(unwanted),
                outcome,
            );
        } else {
            let between = otherwise_kept(unwanted);
            lemma_restore(unwanted, one);
            let then = |s: PolicyModel, done: bool| reconcile::release(s, all, next + 1, selected);
            let sequence = |p: Program| reconcile::and_release(p, all, next + 1, selected);
            focus::lemma_release_goes_on(all, next + 1, selected);
            assert forall|s: PolicyModel, r: bool| #[trigger] between(s, r) implies consistency::ends(
                then(s, r),
                outcome,
            ) by {
                lemma_release(s, all, next + 1, selected);
                consistency::lemma_ends_weaken(then(s, r), otherwise_kept(s), outcome);
            }
            consistency::lemma_ends_sequence(
                restore::restore(unwanted, one),
                sequence,
                then,
                between,
                outcome,
            );
        }
    } else if let Some(path) = selected {
        lemma_activate(state, path);
    }
}

/// How a look ends: tracking is kept, and what is known of the focus is what was known, or
/// what the look has shown.
spec fn looked(
    from: PolicyModel,
    known: Seq<(PathModel, Option<Seq<u8>>)>,
) -> spec_fn(PolicyModel, bool) -> bool {
    |to: PolicyModel, done: bool| same_tracking(from, to) && to.focus_values == known
}

proof fn lemma_settle(state: PolicyModel, all: Seq<PathModel>, values: Seq<Option<Seq<u8>>>)
    ensures
        consistency::ends(
            reconcile::settle(state, all, values),
            looked(state, reconcile::commit(state.focus_values, all, values).0),
        ),
{
    let (known, changed) = reconcile::commit(state.focus_values, all, values);
    if changed {
        let informed = reconcile::informed(state, known);
        let selected = reconcile::sole(crate::focus::claimants(known));
        lemma_release(informed, paths::keys(known), 0, selected);
        consistency::lemma_ends_weaken(
            reconcile::settle(state, all, values),
            otherwise_kept(informed),
            looked(state, known),
        );
    } else {
        lemma_unchanged(state.focus_values, all, values);
    }
}

proof fn lemma_unchanged(
    known: Seq<(PathModel, Option<Seq<u8>>)>,
    all: Seq<PathModel>,
    values: Seq<Option<Seq<u8>>>,
)
    ensures
        !reconcile::commit(known, all, values).1 ==> reconcile::commit(known, all, values).0
            == known,
    decreases values.len(),
{
    if values.len() > 0 {
        lemma_unchanged(known, all, values.drop_last());
    }
}

proof fn lemma_look(state: PolicyModel, all: Seq<PathModel>, values: Seq<Option<Seq<u8>>>)
    ensures
        consistency::ends(reconcile::look(state, all, values), tracking_kept(state)),
    decreases all.len() - values.len(),
{
    if values.len() < all.len() {
        let program = reconcile::look(state, all, values);
        assert forall|answer: Answer|
            consistency::ends(
                #[trigger] program::after_answer(program, answer),
                tracking_kept(state),
            ) by {
            if let Answer::Attribute(Ok(value)) = answer {
                lemma_look(state, all, values.push(value));
            }
        }
        consistency::lemma_ends_ask(program, tracking_kept(state));
    } else {
        lemma_settle(state, all, values);
        consistency::lemma_ends_weaken(
            reconcile::settle(state, all, values),
            looked(state, reconcile::commit(state.focus_values, all, values).0),
            tracking_kept(state),
        );
    }
}

/// Whatever the system answers, a look at the focus changes nothing of what is tracked or
/// waits for its registration.
pub proof fn looking_keeps_the_tracking(state: PolicyModel, all: Seq<PathModel>)
    ensures
        consistency::ends(reconcile::reconcile_paths(state, all), tracking_kept(state)),
{
    lemma_look(state, all, Seq::empty());
}

/// The focus is as it was.
pub open spec fn same_focus(first: World) -> spec_fn(World) -> bool {
    |now: World| now.focus == first.focus
}

/// No operation changes the focus.
proof fn lemma_same_focus(
    program: Program,
    first: World,
    now: World,
    faults: bool,
    ending: spec_fn(PolicyModel, bool) -> bool,
    outcome: spec_fn(World, PolicyModel, bool) -> bool,
)
    requires
        now.focus == first.focus,
        consistency::ends(program, ending),
        forall|w: World, s: PolicyModel, r: bool|
            w.focus == first.focus && ending(s, r) ==> #[trigger] outcome(w, s, r),
    ensures
        world::always(program, now, faults, same_focus(first), outcome),
    decreases program,
{
    match program {
        Program::Done(state, result) => {
            assert(outcome(now, state, result));
        },
        Program::Ask(call, next) => {
            assert forall|answer: Answer| #[trigger]
                world::possible(now, call, answer, faults) implies world::always(
                next(answer),
                world::after(now, call, answer),
                faults,
                same_focus(first),
                outcome,
            ) by {
                assert(consistency::ends(next(answer), ending));
                lemma_same_focus(
                    next(answer),
                    first,
                    world::after(now, call, answer),
                    faults,
                    ending,
                    outcome,
                );
            }
        },
    }
}

/// What is known of the focus of these cgroups is what it is.
pub open spec fn focus_known(first: World, from: PolicyModel, all: Seq<PathModel>) -> spec_fn(
    World,
    PolicyModel,
    bool,
) -> bool {
    |now: World, to: PolicyModel, done: bool|
        {
            &&& same_tracking(from, to)
            &&& forall|i: int|
                0 <= i < all.len() ==> paths::lookup(to.focus_values, #[trigger] all[i]) == Some(
                    first.focus.get(all[i]),
                )
        }
}

proof fn lemma_learn(
    state: PolicyModel,
    all: Seq<PathModel>,
    values: Seq<Option<Seq<u8>>>,
    first: World,
    now: World,
)
    requires
        all.no_duplicates(),
        now.focus == first.focus,
        values.len() <= all.len(),
        values == focus::seen(first, all).take(values.len() as int),
    ensures
        world::always(
            reconcile::look(state, all, values),
            now,
            false,
            same_focus(first),
            focus_known(first, state, all),
        ),
    decreases all.len() - values.len(),
{
    let outcome = focus_known(first, state, all);
    let program = reconcile::look(state, all, values);
    if values.len() < all.len() {
        let path = all[values.len() as int];
        let call = Call::GetXattr(path, Xattr::Focus);
        assert forall|answer: Answer| #[trigger]
            world::possible(now, call, answer, false) implies world::always(
            program::after_answer(program, answer),
            world::after(now, call, answer),
            false,
            same_focus(first),
            outcome,
        ) by {
            assert(world::after(now, call, answer) == now);
            if let Answer::Attribute(Ok(value)) = answer {
                assert(values.push(value) =~= focus::seen(first, all).take(
                    values.len() as int + 1,
                ));
                lemma_learn(state, all, values.push(value), first, now);
            }
        }
    } else {
        assert(values =~= focus::seen(first, all));
        let known = reconcile::commit(state.focus_values, all, values).0;
        lemma_settle(state, all, values);
        assert forall|w: World, s: PolicyModel, r: bool|
            w.focus == first.focus && looked(state, known)(s, r) implies #[trigger] outcome(
            w,
            s,
            r,
        ) by {
            assert forall|i: int| 0 <= i < all.len() implies paths::lookup(
                s.focus_values,
                #[trigger] all[i],
            ) == Some(first.focus.get(all[i])) by {
                focus::a_look_is_remembered(state.focus_values, all, values, i);
            }
        }
        lemma_same_focus(program, first, now, false, looked(state, known), outcome);
    }
}

/// After a look without faults at cgroups, what is known of the focus of each is what its
/// attribute says.
pub proof fn a_look_learns_the_focus(state: PolicyModel, all: Seq<PathModel>, now: World)
    requires
        all.no_duplicates(),
    ensures
        world::always(
            reconcile::reconcile_paths(state, all),
            now,
            false,
            same_focus(now),
            focus_known(now, state, all),
        ),
{
    assert(focus::seen(now, all).take(0) =~= Seq::<Option<Seq<u8>>>::empty());
    lemma_learn(state, all, Seq::empty(), now, now);
}

/// Of a cgroup everything is remembered as before, but for watches.
pub open spec fn same_memory(from: PolicyModel, to: PolicyModel, path: PathModel) -> bool {
    &&& paths::lookup(to.paths, path) == paths::lookup(from.paths, path)
    &&& paths::lookup(to.focus_values, path) == paths::lookup(from.focus_values, path)
    &&& to.pending_registration.contains(path) == from.pending_registration.contains(path)
    &&& to.pending_focus_checks.contains(path) == from.pending_focus_checks.contains(path)
    &&& to.pending_apply.contains(path) == from.pending_apply.contains(path)
    &&& to.pending_restore.contains(path) == from.pending_restore.contains(path)
    &&& to.foreground == Some(path) <==> from.foreground == Some(path)
}

/// Of a cgroup nothing is remembered but maybe that its restoration is outstanding.
pub open spec fn forgotten(to: PolicyModel, path: PathModel) -> bool {
    &&& paths::lookup(to.paths, path) is None
    &&& paths::lookup(to.focus_values, path) is None
    &&& !to.pending_registration.contains(path)
    &&& !to.pending_focus_checks.contains(path)
    &&& !to.pending_apply.contains(path)
    &&& to.foreground != Some(path)
}

/// These cgroups are forgotten, and everything is remembered of the others.
pub open spec fn let_go(from: PolicyModel, to: PolicyModel, all: Seq<PathModel>, next: nat) -> bool {
    &&& to.watching == from.watching
    &&& paths::keys(from.paths).no_duplicates() ==> paths::keys(to.paths).no_duplicates()
    &&& forall|path: PathModel| #[trigger] shutdown::among(all, next, path) ==> forgotten(to, path)
    &&& forall|path: PathModel|
        !(#[trigger] shutdown::among(all, next, path)) ==> same_memory(from, to, path)
}

/// The same, as an ending.
pub open spec fn letting_go(from: PolicyModel, all: Seq<PathModel>, next: nat) -> spec_fn(
    PolicyModel,
    bool,
) -> bool {
    |to: PolicyModel, done: bool| let_go(from, to, all, next)
}

/// One cgroup is forgotten, and everything is remembered of the others.
spec fn one_gone(from: PolicyModel, path: PathModel) -> spec_fn(PolicyModel, bool) -> bool {
    |to: PolicyModel, done: bool|
        {
            &&& to.watching == from.watching
            &&& paths::keys(from.paths).no_duplicates() ==> paths::keys(to.paths).no_duplicates()
            &&& forgotten(to, path)
            &&& forall|other: PathModel| other != path ==> #[trigger] same_memory(from, to, other)
        }
}

proof fn lemma_forgotten(from: PolicyModel, mid: PolicyModel, path: PathModel)
    requires
        mid.watching == from.watching,
        paths::keys(from.paths).no_duplicates() ==> paths::keys(mid.paths).no_duplicates(),
        paths::lookup(mid.paths, path) is None,
        !mid.pending_registration.contains(path),
        mid.foreground != Some(path),
        forall|other: PathModel| other != path ==> #[trigger] same_memory(from, mid, other),
    ensures
        one_gone(from, path)(untrack::forgotten(mid, path), true),
{
    let to = untrack::forgotten(mid, path);
    paths::lemma_without(mid.pending_focus_checks, path);
    paths::lemma_without(mid.pending_apply, path);
    paths::lemma_dropped(mid.focus_values, path);
    assert forall|other: PathModel| other != path implies #[trigger] same_memory(from, to, other) by {
        assert(same_memory(from, mid, other));
    }
}

proof fn lemma_untrack(from: PolicyModel, path: PathModel)
    ensures
        consistency::ends(untrack::untrack(from, path), one_gone(from, path)),
{
    let start = untrack::unregistered(from, path);
    let releasing = restore::releasing(start, path);
    let released = restore::released(releasing, path);
    let between = consistency::either(releasing, released);
    let outcome = one_gone(from, path);
    paths::lemma_without(from.pending_registration, path);
    paths::lemma_without(from.pending_apply, path);
    paths::lemma_with(from.pending_restore, path);
    paths::lemma_without(releasing.pending_restore, path);
    consistency::lemma_restore(start, path);
    let next = |s: PolicyModel, done: bool| untrack::unwatch(s, path);
    assert forall|s: PolicyModel, r: bool| #[trigger] between(s, r) implies consistency::ends(
        next(s, r),
        outcome,
    ) by {
        assert forall|other: PathModel| other != path implies #[trigger] same_memory(
            from,
            s,
            other,
        ) by {}
        match paths::lookup(s.paths, path) {
            Some(watch) => {
                let gone = untrack::unattended(s, path, watch);
                paths::lemma_dropped(s.paths, path);
                assert forall|other: PathModel| other != path implies #[trigger] same_memory(
                    from,
                    gone,
                    other,
                ) by {
                    assert(same_memory(from, s, other));
                }
                lemma_forgotten(from, gone, path);
                consistency::lemma_ends_ask(untrack::ask_unwatch(gone, path, watch), outcome);
            },
            None => {
                lemma_forgotten(from, s, path);
            },
        }
    }
    consistency::lemma_ends_bind(restore::restore(start, path), next, between, outcome);
}

/// Whatever the system answers, letting cgroups go forgets each of them, and nothing of any
/// other.
pub proof fn each_is_let_go(from: PolicyModel, all: Seq<PathModel>, next: nat)
    ensures
        consistency::ends(each::each(Work::Untrack, from, all, next), letting_go(from, all, next)),
    decreases all.len() - next,
{
    let outcome = letting_go(from, all, next);
    if next < all.len() {
        let one = all[next as int];
        let between = one_gone(from, one);
        lemma_untrack(from, one);
        let then = |s: PolicyModel, done: bool| each::each(Work::Untrack, s, all, next + 1);
        let sequence = |p: Program| each::and_each(p, Work::Untrack, all, next + 1);
        operations::lemma_each_goes_on(Work::Untrack, all, next + 1);
        assert forall|s: PolicyModel, r: bool| #[trigger] between(s, r) implies consistency::ends(
            then(s, r),
            outcome,
        ) by {
            each_is_let_go(s, all, next + 1);
            let rest = letting_go(s, all, next + 1);
            assert forall|s2: PolicyModel, r2: bool| #[trigger] rest(s2, r2) implies outcome(
                s2,
                r2,
            ) by {
                assert forall|path: PathModel| #[trigger] shutdown::among(
                    all,
                    next,
                    path,
                ) implies forgotten(s2, path) by {
                    focus::lemma_among(all, next, path);
                    if !shutdown::among(all, next + 1, path) {
                        assert(same_memory(s, s2, path));
                    }
                }
                assert forall|path: PathModel|
                    !(#[trigger] shutdown::among(all, next, path)) implies same_memory(
                    from,
                    s2,
                    path,
                ) by {
                    focus::lemma_among(all, next, path);
                    assert(!shutdown::among(all, next + 1, path));
                    assert(same_memory(s, s2, path));
                    assert(same_memory(from, s, path));
                }
            }
            consistency::lemma_ends_weaken(then(s, r), rest, outcome);
        }
        consistency::lemma_ends_sequence(
            each::work(Work::Untrack, from, one),
            sequence,
            then,
            between,
            outcome,
        );
    } else {
        assert forall|path: PathModel| !(#[trigger] shutdown::among(all, next, path)) by {
            if shutdown::among(all, next, path) {
                let i = choose|i: int| next <= i < all.len() && #[trigger] all[i] == path;
            }
        }
    }
}

proof fn lemma_outside(root: PathModel, all: Seq<PathModel>)
    ensures
        forall|i: int|
            0 <= i < policy::outside(root, all).len() ==> !path::application_cgroup(
                root,
                #[trigger] policy::outside(root, all)[i],
            ),
    decreases all.len(),
{
    if all.len() > 0 {
        lemma_outside(root, all.drop_last());
        let rest = policy::outside(root, all.drop_last());
        let result = policy::outside(root, all);
        assert forall|i: int| 0 <= i < result.len() implies !path::application_cgroup(
            root,
            #[trigger] result[i],
        ) by {
            if i < rest.len() {
                assert(result[i] == rest[i]);
            }
        }
    }
}

/// Whatever the system answers, a restriction to a root leaves everything that is remembered
/// of application cgroups beneath the root as it is.
pub proof fn a_restriction_keeps_applications(state: PolicyModel, root: PathModel)
    ensures
        consistency::ends(
            policy::restrict_to(state, root),
            |to: PolicyModel, done: bool|
                forall|path: PathModel|
                    path::application_cgroup(root, path) ==> #[trigger] same_memory(
                        state,
                        to,
                        path,
                    ),
        ),
{
    let all = policy::outside(root, policy::involved(state));
    let outcome = |to: PolicyModel, done: bool|
        forall|path: PathModel|
            path::application_cgroup(root, path) ==> #[trigger] same_memory(state, to, path);
    each_is_let_go(state, all, 0);
    lemma_outside(root, policy::involved(state));
    assert forall|to: PolicyModel, done: bool| #[trigger]
        letting_go(state, all, 0)(to, done) implies outcome(to, done) by {
        assert forall|path: PathModel|
            path::application_cgroup(root, path) implies #[trigger] same_memory(
            state,
            to,
            path,
        ) by {
            if shutdown::among(all, 0, path) {
                let i = choose|i: int| 0 <= i < all.len() && #[trigger] all[i] == path;
                assert(!path::application_cgroup(root, all[i]));
            }
        }
    }
    consistency::lemma_ends_weaken(
        policy::restrict_to(state, root),
        letting_go(state, all, 0),
        outcome,
    );
}

/// Whether one of the events, on the watch of a cgroup, says that it is deleted or that the
/// watch is removed.
pub open spec fn reported_gone(
    state: PolicyModel,
    reported: Seq<WatchEvent>,
    path: PathModel,
) -> bool {
    exists|i: int|
        0 <= i < reported.len() && (#[trigger] reported[i]).mask & 0x8400u32 != 0 && paths::watched(
            state.watches,
            reported[i].watch,
        ) == Some(path)
}

/// Whether one of the events, on the watch of a cgroup, says that its attributes have
/// changed.
pub open spec fn reported_changed(
    state: PolicyModel,
    reported: Seq<WatchEvent>,
    path: PathModel,
) -> bool {
    exists|i: int|
        0 <= i < reported.len() && (#[trigger] reported[i]).mask & 0x4u32 != 0 && paths::watched(
            state.watches,
            reported[i].watch,
        ) == Some(path)
}

/// No event says that events were lost.
pub open spec fn none_lost(reported: Seq<WatchEvent>) -> bool {
    forall|i: int| 0 <= i < reported.len() ==> (#[trigger] reported[i]).mask & 0x4000u32 == 0
}

proof fn lemma_masks(mask: u32)
    ensures
        watch::meets(mask, watch::REMOVED) <==> mask & 0x8400u32 != 0,
        watch::has(mask, watch::ATTRIB) <==> mask & 0x4u32 != 0,
        watch::has(mask, watch::Q_OVERFLOW) <==> mask & 0x4000u32 != 0,
{
    assert(0x400u32 | 0x8000u32 == 0x8400u32) by (bit_vector);
    assert((mask & 0x4u32 == 0x4u32) <==> (mask & 0x4u32 != 0)) by (bit_vector);
    assert((mask & 0x4000u32 == 0x4000u32) <==> (mask & 0x4000u32 != 0)) by (bit_vector);
}

proof fn lemma_removed(state: PolicyModel, reported: Seq<WatchEvent>, path: PathModel)
    ensures
        events::removed(state.watches, reported).contains(path) <==> reported_gone(
            state,
            reported,
            path,
        ),
    decreases reported.len(),
{
    if reported.len() > 0 {
        let front = reported.drop_last();
        let last = reported.last();
        let rest = events::removed(state.watches, front);
        let all = events::removed(state.watches, reported);
        lemma_masks(last.mask);
        lemma_removed(state, front, path);
        if all.contains(path) {
            let k = choose|k: int| 0 <= k < all.len() && all[k] == path;
            if k < rest.len() {
                assert(rest[k] == path);
                let i = choose|i: int|
                    0 <= i < front.len() && (#[trigger] front[i]).mask & 0x8400u32 != 0
                        && paths::watched(state.watches, front[i].watch) == Some(path);
                assert(reported[i] == front[i]);
            } else {
                assert(reported[reported.len() - 1].mask & 0x8400u32 != 0);
            }
        }
        if reported_gone(state, reported, path) {
            let i = choose|i: int|
                0 <= i < reported.len() && (#[trigger] reported[i]).mask & 0x8400u32 != 0
                    && paths::watched(state.watches, reported[i].watch) == Some(path);
            if i < front.len() {
                assert(front[i] == reported[i]);
                assert(reported_gone(state, front, path));
                let k = choose|k: int| 0 <= k < rest.len() && rest[k] == path;
                assert(all[k] == path);
            } else {
                assert(all[rest.len() as int] == path);
            }
        }
    }
}

proof fn lemma_changed(state: PolicyModel, reported: Seq<WatchEvent>, path: PathModel)
    requires
        reported_changed(state, reported, path),
        !reported_gone(state, reported, path),
    ensures
        events::changed(state.watches, reported).contains(path),
    decreases reported.len(),
{
    let front = reported.drop_last();
    let last = reported.last();
    let rest = events::changed(state.watches, front);
    let all = events::changed(state.watches, reported);
    lemma_masks(last.mask);
    let i = choose|i: int|
        0 <= i < reported.len() && (#[trigger] reported[i]).mask & 0x4u32 != 0 && paths::watched(
            state.watches,
            reported[i].watch,
        ) == Some(path);
    if reported_gone(state, front, path) {
        let k = choose|k: int|
            0 <= k < front.len() && (#[trigger] front[k]).mask & 0x8400u32 != 0 && paths::watched(
                state.watches,
                front[k].watch,
            ) == Some(path);
        assert(reported[k] == front[k]);
    }
    if i < front.len() {
        assert(front[i] == reported[i]);
        lemma_changed(state, front, path);
        let k = choose|k: int| 0 <= k < rest.len() && rest[k] == path;
        assert(all[k] == path);
    } else {
        assert(reported[reported.len() - 1] == last);
        assert(all[rest.len() as int] == path);
    }
}

pub proof fn lemma_none_lost(reported: Seq<WatchEvent>)
    ensures
        none_lost(reported) <==> !events::overflowed(reported),
{
    if events::overflowed(reported) {
        let i = choose|i: int|
            0 <= i < reported.len() && watch::has(
                (#[trigger] reported[i]).mask,
                watch::Q_OVERFLOW,
            );
        lemma_masks(reported[i].mask);
    }
    if !none_lost(reported) {
        let i = choose|i: int|
            0 <= i < reported.len() && (#[trigger] reported[i]).mask & 0x4000u32 != 0;
        lemma_masks(reported[i].mask);
        assert(watch::has(reported[i].mask, watch::Q_OVERFLOW));
    }
}

proof fn lemma_gone_among(state: PolicyModel, reported: Seq<WatchEvent>, path: PathModel)
    ensures
        shutdown::among(events::removed(state.watches, reported), 0, path) <==> reported_gone(
            state,
            reported,
            path,
        ),
{
    let gone = events::removed(state.watches, reported);
    lemma_removed(state, reported, path);
    if gone.contains(path) {
        let k = choose|k: int| 0 <= k < gone.len() && gone[k] == path;
        assert(gone[k] == path);
    }
    if shutdown::among(gone, 0, path) {
        let k = choose|k: int| 0 <= k < gone.len() && #[trigger] gone[k] == path;
        assert(gone.contains(path));
    }
}

/// Whatever the system answers, acting on events lets go of every cgroup that one of them
/// says is gone, and of no other: what is tracked and not reported as gone stays tracked
/// with the same watch. Nothing waits for a look afterwards.
pub proof fn events_let_go_of_what_is_gone(state: PolicyModel, reported: Seq<WatchEvent>)
    requires
        state.watching,
        none_lost(reported),
    ensures
        consistency::ends(
            events::process_events(state, reported),
            |to: PolicyModel, done: bool|
                {
                    &&& to.pending_focus_checks.len() == 0
                    &&& forall|path: PathModel| #[trigger]
                        reported_gone(state, reported, path) ==> paths::lookup(to.paths, path)
                            is None && !to.pending_registration.contains(path)
                    &&& forall|path: PathModel|
                        !(#[trigger] reported_gone(state, reported, path)) ==> {
                            &&& paths::lookup(to.paths, path) == paths::lookup(state.paths, path)
                            &&& to.pending_registration.contains(path)
                                == state.pending_registration.contains(path)
                        }
                },
        ),
{
    let gone = events::removed(state.watches, reported);
    let changed = events::changed(state.watches, reported);
    let between = letting_go(state, gone, 0);
    let outcome = |to: PolicyModel, done: bool|
        {
            &&& to.pending_focus_checks.len() == 0
            &&& forall|path: PathModel| #[trigger]
                reported_gone(state, reported, path) ==> paths::lookup(to.paths, path) is None
                    && !to.pending_registration.contains(path)
            &&& forall|path: PathModel|
                !(#[trigger] reported_gone(state, reported, path)) ==> {
                    &&& paths::lookup(to.paths, path) == paths::lookup(state.paths, path)
                    &&& to.pending_registration.contains(path)
                        == state.pending_registration.contains(path)
                }
        };
    lemma_none_lost(reported);
    each_is_let_go(state, gone, 0);
    let next = |s: PolicyModel, done: bool| events::check(s, changed);
    assert forall|s: PolicyModel, r: bool| #[trigger] between(s, r) implies consistency::ends(
        next(s, r),
        outcome,
    ) by {
        let looking = events::checked(s);
        assert forall|path: PathModel| #[trigger]
            reported_gone(state, reported, path) == shutdown::among(gone, 0, path) by {
            lemma_gone_among(state, reported, path);
        }
        assert forall|to: PolicyModel, done: bool| #[trigger]
            tracking_kept(looking)(to, done) implies outcome(to, done) by {
            assert forall|path: PathModel|
                !(#[trigger] reported_gone(state, reported, path)) implies paths::lookup(
                to.paths,
                path,
            ) == paths::lookup(state.paths, path) && to.pending_registration.contains(path)
                == state.pending_registration.contains(path) by {
                assert(!shutdown::among(gone, 0, path));
                assert(same_memory(state, s, path));
            }
            assert forall|path: PathModel| #[trigger]
                reported_gone(state, reported, path) implies paths::lookup(to.paths, path) is None
                && !to.pending_registration.contains(path) by {
                assert(shutdown::among(gone, 0, path));
                assert(forgotten(s, path));
            }
        }
        assert(tracking_kept(looking)(looking, true));
        looking_keeps_the_tracking(looking, paths::keys(s.paths));
        consistency::lemma_ends_weaken(
            reconcile::reconcile_paths(looking, paths::keys(s.paths)),
            tracking_kept(looking),
            outcome,
        );
    }
    consistency::lemma_ends_bind(
        each::each(Work::Untrack, state, gone, 0),
        next,
        between,
        outcome,
    );
}

/// What is known of the focus of every cgroup that is tracked is what its attribute says.
pub open spec fn focus_learned(first: World) -> spec_fn(World, PolicyModel, bool) -> bool {
    |now: World, to: PolicyModel, done: bool|
        forall|path: PathModel| #[trigger]
            paths::lookup(to.paths, path) is Some ==> paths::lookup(to.focus_values, path) == Some(
                first.focus.get(path),
            )
}

/// A look at everything that is tracked.
proof fn lemma_look_at_tracked(state: PolicyModel, first: World, now: World)
    requires
        paths::keys(state.paths).no_duplicates(),
        now.focus == first.focus,
    ensures
        world::always(
            reconcile::reconcile_paths(state, paths::keys(state.paths)),
            now,
            false,
            same_focus(first),
            focus_learned(first),
        ),
{
    let all = paths::keys(state.paths);
    let between = focus_known(first, state, all);
    let outcome = focus_learned(first);
    assert(focus::seen(first, all).take(0) =~= Seq::<Option<Seq<u8>>>::empty());
    lemma_learn(state, all, Seq::empty(), first, now);
    assert forall|w: World, s: PolicyModel, r: bool|
        same_focus(first)(w) && #[trigger] between(w, s, r) implies outcome(w, s, r) by {
        assert forall|path: PathModel| #[trigger]
            paths::lookup(s.paths, path) is Some implies paths::lookup(s.focus_values, path)
            == Some(first.focus.get(path)) by {
            paths::lemma_lookup_keys(state.paths, path);
            let i = choose|i: int| 0 <= i < all.len() && all[i] == path;
            assert(paths::lookup(s.focus_values, all[i]) == Some(first.focus.get(all[i])));
        }
    }
    world::lemma_always_weaken(
        reconcile::reconcile_paths(state, all),
        now,
        false,
        same_focus(first),
        between,
        same_focus(first),
        outcome,
    );
}

/// When the attributes of a tracked cgroup have changed, or one is tracked since the last
/// look, acting on the events without faults looks at everything that is tracked then:
/// whatever was known before, the focus is known as it is.
pub proof fn a_change_leads_to_a_look(
    state: PolicyModel,
    reported: Seq<WatchEvent>,
    path: PathModel,
    now: World,
)
    requires
        state.watching,
        none_lost(reported),
        paths::keys(state.paths).no_duplicates(),
        paths::lookup(state.paths, path) is Some,
        !reported_gone(state, reported, path),
        reported_changed(state, reported, path) || state.pending_focus_checks.contains(path),
    ensures
        world::always(
            events::process_events(state, reported),
            now,
            false,
            same_focus(now),
            focus_learned(now),
        ),
{
    let gone = events::removed(state.watches, reported);
    let changed = events::changed(state.watches, reported);
    let ending = letting_go(state, gone, 0);
    let between = |w: World, s: PolicyModel, r: bool| w.focus == now.focus && ending(s, r);
    lemma_none_lost(reported);
    each_is_let_go(state, gone, 0);
    lemma_same_focus(
        each::each(Work::Untrack, state, gone, 0),
        now,
        now,
        false,
        ending,
        between,
    );
    let next = |s: PolicyModel, done: bool| events::check(s, changed);
    assert forall|w: World, s: PolicyModel, r: bool|
        same_focus(now)(w) && #[trigger] between(w, s, r) implies world::always(
        next(s, r),
        w,
        false,
        same_focus(now),
        focus_learned(now),
    ) by {
        lemma_gone_among(state, reported, path);
        assert(same_memory(state, s, path));
        if reported_changed(state, reported, path) {
            lemma_changed(state, reported, path);
            let i = choose|i: int| 0 <= i < changed.len() && changed[i] == path;
            assert(paths::lookup(s.paths, changed[i]) is Some);
            assert(events::any_tracked(s, changed));
        } else {
            let pending = s.pending_focus_checks;
            assert(pending.contains(path));
            let i = choose|i: int| 0 <= i < pending.len() && pending[i] == path;
            assert(paths::lookup(s.paths, pending[i]) is Some);
            assert(events::any_tracked(s, s.pending_focus_checks));
        }
        lemma_look_at_tracked(events::checked(s), now, w);
    }
    world::lemma_always_bind(
        each::each(Work::Untrack, state, gone, 0),
        next,
        now,
        false,
        same_focus(now),
        between,
        focus_learned(now),
    );
}

/// A cgroup is tracked, or waits for its registration.
pub open spec fn followed(state: PolicyModel, path: PathModel) -> bool {
    paths::lookup(state.paths, path) is Some || state.pending_registration.contains(path)
}

/// These cgroups are tracked or wait for it, and so are those that did before. It is as well
/// known which are tracked.
spec fn following(from: PolicyModel, all: Seq<PathModel>, next: nat) -> spec_fn(
    PolicyModel,
    bool,
) -> bool {
    |to: PolicyModel, done: bool|
        {
            &&& to.watching == from.watching
            &&& paths::keys(from.paths).no_duplicates() ==> paths::keys(to.paths).no_duplicates()
            &&& forall|path: PathModel| #[trigger] followed(from, path) ==> followed(to, path)
            &&& forall|path: PathModel| #[trigger]
                shutdown::among(all, next, path) ==> followed(to, path)
        }
}

proof fn lemma_register(from: PolicyModel, path: PathModel)
    ensures
        consistency::ends(register::register(from, path), following(from, seq![path], 0)),
{
    let outcome = following(from, seq![path], 0);
    assert forall|other: PathModel| #[trigger] shutdown::among(seq![path], 0, other) implies other
        == path by {
        let i = choose|i: int| 0 <= i < 1 && #[trigger] seq![path][i] == other;
    }
    if paths::lookup(from.paths, path) is None && !from.pending_registration.contains(path) {
        let start = register::registering(from, path);
        let same = consistency::either(start, start);
        paths::lemma_with(from.pending_registration, path);
        consistency::lemma_ends_ask(register::ask_writable(start, path), same);
        consistency::lemma_ends_ask(register::ask_support(start, path), same);
        consistency::lemma_ends_ask(register::eligible(start, path), same);
        let next = |s: PolicyModel, eligible: bool|
            if eligible && s.watching {
                register::ask_watch(s, path)
            } else {
                Program::Done(s, false)
            };
        assert(outcome(start, false));
        assert forall|s: PolicyModel, r: bool| #[trigger] same(s, r) implies consistency::ends(
            next(s, r),
            outcome,
        ) by {
            let program = register::ask_watch(start, path);
            assert forall|answer: Answer|
                consistency::ends(#[trigger] program::after_answer(program, answer), outcome) by {
                if let Answer::Watch(Ok(watch)) = answer {
                    let now = register::followed(start, path, watch);
                    paths::lemma_filed(start.paths, path, watch);
                    paths::lemma_without(start.pending_registration, path);
                    assert forall|other: PathModel| #[trigger]
                        followed(from, other) implies followed(now, other) by {
                        if other != path && from.pending_registration.contains(other) {
                            assert(start.pending_registration.contains(other));
                        }
                    }
                    assert(outcome(now, true));
                }
            }
            consistency::lemma_ends_ask(program, outcome);
        }
        consistency::lemma_ends_bind(register::eligible(start, path), next, same, outcome);
    }
}

proof fn lemma_each_registers(from: PolicyModel, all: Seq<PathModel>, next: nat)
    ensures
        consistency::ends(
            each::each(Work::Register, from, all, next),
            following(from, all, next),
        ),
    decreases all.len() - next,
{
    let outcome = following(from, all, next);
    if next < all.len() {
        let one = all[next as int];
        let between = following(from, seq![one], 0);
        lemma_register(from, one);
        let then = |s: PolicyModel, done: bool| each::each(Work::Register, s, all, next + 1);
        let sequence = |p: Program| each::and_each(p, Work::Register, all, next + 1);
        operations::lemma_each_goes_on(Work::Register, all, next + 1);
        assert forall|s: PolicyModel, r: bool| #[trigger] between(s, r) implies consistency::ends(
            then(s, r),
            outcome,
        ) by {
            lemma_each_registers(s, all, next + 1);
            let rest = following(s, all, next + 1);
            assert(seq![one][0] == one);
            assert(shutdown::among(seq![one], 0, one));
            assert(followed(s, one));
            assert forall|s2: PolicyModel, r2: bool| #[trigger] rest(s2, r2) implies outcome(
                s2,
                r2,
            ) by {
                assert forall|path: PathModel| #[trigger]
                    shutdown::among(all, next, path) implies followed(s2, path) by {
                    focus::lemma_among(all, next, path);
                    if path == one {
                        assert(followed(s, one));
                    }
                }
                assert forall|path: PathModel| #[trigger] followed(from, path) implies followed(
                    s2,
                    path,
                ) by {
                    assert(followed(s, path));
                }
            }
            consistency::lemma_ends_weaken(then(s, r), rest, outcome);
        }
        consistency::lemma_ends_sequence(
            each::work(Work::Register, from, one),
            sequence,
            then,
            between,
            outcome,
        );
    } else {
        assert forall|path: PathModel| !(#[trigger] shutdown::among(all, next, path)) by {
            if shutdown::among(all, next, path) {
                let i = choose|i: int| next <= i < all.len() && #[trigger] all[i] == path;
            }
        }
    }
}

/// Once every watch has been made anew, every cgroup that was followed still is: it is
/// tracked, or waits for its next try. Where there can be no new watches, there are none.
pub proof fn a_rebuild_follows_everything(state: PolicyModel)
    requires
        state.watching,
    ensures
        consistency::ends(
            events::rebuild_watches(state),
            |to: PolicyModel, done: bool|
                if to.watching {
                    forall|path: PathModel| #[trigger] followed(state, path) ==> followed(to, path)
                } else {
                    to.watches.len() == 0 && to.paths.len() == 0
                },
        ),
{
    let blank = events::checked(events::untied(state));
    let all = paths::keys(state.paths);
    let outcome = |to: PolicyModel, done: bool|
        if to.watching {
            forall|path: PathModel| #[trigger] followed(state, path) ==> followed(to, path)
        } else {
            to.watches.len() == 0 && to.paths.len() == 0
        };
    lemma_each_registers(blank, all, 0);
    lemma_all_followed(state, all);
    assert forall|to: PolicyModel, done: bool| #[trigger]
        following(blank, all, 0)(to, done) implies outcome(to, done) by {
        assert forall|path: PathModel| #[trigger] followed(state, path) implies followed(
            to,
            path,
        ) by {
            if paths::lookup(state.paths, path) is Some {
                assert(shutdown::among(all, 0, path));
            } else {
                assert(followed(blank, path));
            }
        }
    }
    consistency::lemma_ends_weaken(
        each::each(Work::Register, blank, all, 0),
        following(blank, all, 0),
        outcome,
    );
    consistency::lemma_ends_ask(events::rebuild_watches(state), outcome);
}

proof fn lemma_all_followed(state: PolicyModel, all: Seq<PathModel>)
    requires
        all == paths::keys(state.paths),
    ensures
        forall|path: PathModel|
            paths::lookup(state.paths, path) is Some ==> #[trigger] shutdown::among(all, 0, path),
{
    assert forall|path: PathModel| paths::lookup(state.paths, path)
        is Some implies #[trigger] shutdown::among(all, 0, path) by {
        paths::lemma_lookup_keys(state.paths, path);
        let i = choose|i: int| 0 <= i < all.len() && all[i] == path;
        assert(all[i] == path);
    }
}

/// When events were lost, acting on them without faults makes every watch anew and looks at
/// everything again: every cgroup that was followed still is, and the focus of each that is
/// tracked is known as it is.
pub proof fn lost_events_lead_to_a_look(
    state: PolicyModel,
    reported: Seq<WatchEvent>,
    now: World,
)
    requires
        state.watching,
        !none_lost(reported),
    ensures
        world::always(
            events::process_events(state, reported),
            now,
            false,
            same_focus(now),
            |w: World, to: PolicyModel, done: bool|
                {
                    &&& forall|path: PathModel| #[trigger]
                        followed(state, path) ==> followed(to, path)
                    &&& forall|path: PathModel| #[trigger]
                        paths::lookup(to.paths, path) is Some ==> paths::lookup(
                            to.focus_values,
                            path,
                        ) == Some(now.focus.get(path))
                },
        ),
{
    let blank = events::checked(events::untied(state));
    let all = paths::keys(state.paths);
    let held = same_focus(now);
    let outcome = |w: World, to: PolicyModel, done: bool|
        {
            &&& forall|path: PathModel| #[trigger] followed(state, path) ==> followed(to, path)
            &&& forall|path: PathModel| #[trigger]
                paths::lookup(to.paths, path) is Some ==> paths::lookup(to.focus_values, path)
                    == Some(now.focus.get(path))
        };
    let ending = following(blank, all, 0);
    let between = |w: World, s: PolicyModel, r: bool| w.focus == now.focus && ending(s, r);
    let rebuild = events::rebuild_watches(state);
    lemma_none_lost(reported);
    lemma_each_registers(blank, all, 0);
    lemma_all_followed(state, all);
    assert(paths::keys(blank.paths).no_duplicates());
    assert forall|answer: Answer| #[trigger]
        world::possible(now, Call::ResetWatches, answer, false) implies world::always(
        program::after_answer(rebuild, answer),
        world::after(now, Call::ResetWatches, answer),
        false,
        held,
        between,
    ) by {
        assert(request::succeeded(answer));
        lemma_same_focus(
            each::each(Work::Register, blank, all, 0),
            now,
            now,
            false,
            ending,
            between,
        );
    }
    assert(world::always(rebuild, now, false, held, between));
    let next = |s: PolicyModel, done: bool| events::reconcile(s);
    assert forall|w: World, s: PolicyModel, r: bool|
        held(w) && #[trigger] between(w, s, r) implies world::always(
        next(s, r),
        w,
        false,
        held,
        outcome,
    ) by {
        let fresh = events::restarted(s);
        let look = reconcile::reconcile_paths(fresh, paths::keys(s.paths));
        lemma_look_at_tracked(fresh, now, w);
        looking_keeps_the_tracking(fresh, paths::keys(s.paths));
        assert forall|w2: World, s2: PolicyModel, r2: bool|
            held(w2) && focus_learned(now)(w2, s2, r2) && tracking_kept(fresh)(
                s2,
                r2,
            ) implies #[trigger] outcome(w2, s2, r2) by {
            assert forall|path: PathModel| #[trigger] followed(state, path) implies followed(
                s2,
                path,
            ) by {
                if paths::lookup(state.paths, path) is Some {
                    assert(shutdown::among(all, 0, path));
                } else {
                    assert(followed(blank, path));
                }
                assert(followed(s, path));
            }
        }
        maintenance::lemma_both(
            look,
            w,
            false,
            held,
            focus_learned(now),
            tracking_kept(fresh),
            outcome,
        );
    }
    world::lemma_always_bind(rebuild, next, now, false, held, between, outcome);
}

/// A look at everything as if for the first time, without faults: the focus of each cgroup
/// that is tracked is known as it is.
pub proof fn a_fresh_look_learns_the_focus(state: PolicyModel, now: World)
    requires
        paths::keys(state.paths).no_duplicates(),
    ensures
        world::always(
            events::reconcile(state),
            now,
            false,
            same_focus(now),
            focus_learned(now),
        ),
{
    lemma_look_at_tracked(events::restarted(state), now, now);
}

/// Restoring or boosting cgroups in turn keeps what is tracked.
proof fn lemma_each_keeps(kind: Work, state: PolicyModel, all: Seq<PathModel>, next: nat)
    requires
        kind == Work::Restore || kind == Work::Apply,
    ensures
        consistency::ends(each::each(kind, state, all, next), otherwise_kept(state)),
    decreases all.len() - next,
{
    let outcome = otherwise_kept(state);
    if next < all.len() {
        let one = all[next as int];
        let then = |s: PolicyModel, done: bool| each::each(kind, s, all, next + 1);
        let sequence = |p: Program| each::and_each(p, kind, all, next + 1);
        operations::lemma_each_goes_on(kind, all, next + 1);
        if kind == Work::Restore {
            lemma_restore(state, one);
        } else {
            lemma_activate(state, one);
        }
        assert forall|s: PolicyModel, r: bool| #[trigger] outcome(s, r) implies consistency::ends(
            then(s, r),
            outcome,
        ) by {
            lemma_each_keeps(kind, s, all, next + 1);
            consistency::lemma_ends_weaken(then(s, r), otherwise_kept(s), outcome);
        }
        consistency::lemma_ends_sequence(
            each::work(kind, state, one),
            sequence,
            then,
            outcome,
            outcome,
        );
    }
}

/// Whatever the system answers, what follows the registrations in a round of maintenance
/// changes nothing of what is tracked or waits for its registration.
pub proof fn surveying_keeps_the_tracking(state: PolicyModel)
    ensures
        consistency::ends(crate::maintenance::survey(state), tracking_kept(state)),
{
    let outcome = tracking_kept(state);
    let restore = state.pending_restore;
    let apply = state.pending_apply;
    let known = crate::maintenance::known_paths(state);
    let look = reconcile::reconcile_paths(state, known);
    let next = |s: PolicyModel, complete: bool|
        crate::maintenance::and_apply(each::each(Work::Restore, s, restore, 0), complete, apply);
    looking_keeps_the_tracking(state, known);
    assert forall|s: PolicyModel, r: bool| #[trigger] outcome(s, r) implies consistency::ends(
        next(s, r),
        outcome,
    ) by {
        let then = |s2: PolicyModel, done: bool|
            if r {
                each::each(Work::Apply, crate::maintenance::hopeful(s2), apply, 0)
            } else {
                Program::Done(s2, true)
            };
        let between = otherwise_kept(s);
        lemma_each_keeps(Work::Restore, s, restore, 0);
        assert forall|s2: PolicyModel, r2: bool| #[trigger]
            between(s2, r2) implies consistency::ends(then(s2, r2), outcome) by {
            let hopeful = crate::maintenance::hopeful(s2);
            lemma_each_keeps(Work::Apply, hopeful, apply, 0);
            consistency::lemma_ends_weaken(
                each::each(Work::Apply, hopeful, apply, 0),
                otherwise_kept(hopeful),
                outcome,
            );
        }
        consistency::lemma_ends_bind(
            each::each(Work::Restore, s, restore, 0),
            then,
            between,
            outcome,
        );
    }
    consistency::lemma_ends_bind(look, next, outcome, outcome);
}

/// What is tracked, and what is known of the focus, is as it was.
spec fn view_kept(from: PolicyModel) -> spec_fn(PolicyModel, bool) -> bool {
    |to: PolicyModel, done: bool| to.paths == from.paths && to.focus_values == from.focus_values
}

/// Any ending.
spec fn anyhow() -> spec_fn(PolicyModel, bool) -> bool {
    |to: PolicyModel, done: bool| true
}

proof fn lemma_anyhow(program: Program)
    ensures
        consistency::ends(program, anyhow()),
    decreases program,
{
    if let Program::Ask(_, next) = program {
        assert forall|answer: Answer|
            consistency::ends(#[trigger] program::after_answer(program, answer), anyhow()) by {
            lemma_anyhow(next(answer));
        }
        consistency::lemma_ends_ask(program, anyhow());
    }
}

proof fn lemma_survey_learns(state: PolicyModel, first: World, now: World)
    requires
        now.focus == first.focus,
    ensures
        world::always(
            crate::maintenance::survey(state),
            now,
            false,
            same_focus(first),
            focus_learned(first),
        ),
{
    let held = same_focus(first);
    let outcome = focus_learned(first);
    let restore = state.pending_restore;
    let apply = state.pending_apply;
    let known = crate::maintenance::known_paths(state);
    let look = reconcile::reconcile_paths(state, known);
    let between = focus_known(first, state, known);
    let next = |s: PolicyModel, complete: bool|
        crate::maintenance::and_apply(each::each(Work::Restore, s, restore, 0), complete, apply);
    maintenance::maintenance_looks_at_what_is_known(state);
    assert(focus::seen(first, known).take(0) =~= Seq::<Option<Seq<u8>>>::empty());
    lemma_learn(state, known, Seq::empty(), first, now);
    assert forall|w: World, s: PolicyModel, r: bool|
        held(w) && #[trigger] between(w, s, r) implies world::always(
        next(s, r),
        w,
        false,
        held,
        outcome,
    ) by {
        let ending = view_kept(s);
        let then = |s2: PolicyModel, done: bool|
            if r {
                each::each(Work::Apply, crate::maintenance::hopeful(s2), apply, 0)
            } else {
                Program::Done(s2, true)
            };
        lemma_each_keeps(Work::Restore, s, restore, 0);
        assert forall|s2: PolicyModel, r2: bool| #[trigger]
            otherwise_kept(s)(s2, r2) implies consistency::ends(then(s2, r2), ending) by {
            let hopeful = crate::maintenance::hopeful(s2);
            lemma_each_keeps(Work::Apply, hopeful, apply, 0);
            consistency::lemma_ends_weaken(
                each::each(Work::Apply, hopeful, apply, 0),
                otherwise_kept(hopeful),
                ending,
            );
        }
        consistency::lemma_ends_bind(
            each::each(Work::Restore, s, restore, 0),
            then,
            otherwise_kept(s),
            ending,
        );
        assert forall|w2: World, s2: PolicyModel, r2: bool|
            w2.focus == first.focus && ending(s2, r2) implies #[trigger] outcome(w2, s2, r2) by {
            assert forall|path: PathModel| #[trigger]
                paths::lookup(s2.paths, path) is Some implies paths::lookup(s2.focus_values, path)
                == Some(first.focus.get(path)) by {
                assert(known.contains(path));
                let i = choose|i: int| 0 <= i < known.len() && known[i] == path;
                assert(paths::lookup(s.focus_values, known[i]) == Some(
                    first.focus.get(known[i]),
                ));
            }
        }
        lemma_same_focus(next(s, r), first, w, false, ending, outcome);
    }
    world::lemma_always_bind(look, next, now, false, held, between, outcome);
}

/// After a round of maintenance without faults, what is known of the focus of every cgroup
/// that is tracked is what its attribute says.
pub proof fn maintenance_learns_the_focus(state: PolicyModel, now: World)
    ensures
        world::always(
            crate::maintenance::maintenance(state),
            now,
            false,
            same_focus(now),
            focus_learned(now),
        ),
{
    let held = same_focus(now);
    let from = PolicyModel { pending_registration: Seq::empty(), ..state };
    let retry = each::each(Work::Retry, from, state.pending_registration, 0);
    let between = |w: World, s: PolicyModel, r: bool| w.focus == now.focus;
    let next = |s: PolicyModel, done: bool| crate::maintenance::survey(s);
    lemma_anyhow(retry);
    lemma_same_focus(retry, now, now, false, anyhow(), between);
    assert forall|w: World, s: PolicyModel, r: bool|
        held(w) && #[trigger] between(w, s, r) implies world::always(
        next(s, r),
        w,
        false,
        held,
        focus_learned(now),
    ) by {
        lemma_survey_learns(s, now, w);
    }
    world::lemma_always_bind(retry, next, now, false, held, between, focus_learned(now));
}

/// A fresh look does not take the boost away: where the boosted cgroup is still tracked and
/// the only one of those that claims the focus, its boost is outstanding afterwards, and its
/// restoration is not.
pub proof fn a_fresh_look_leaves_the_boost_wanted(state: PolicyModel, path: PathModel, now: World)
    requires
        state.foreground == Some(path),
        !state.pending_restore.contains(path),
        paths::keys(state.paths).no_duplicates(),
        paths::lookup(state.paths, path) is Some,
        world::readable(now, path),
        forall|other: PathModel| #[trigger]
            paths::lookup(state.paths, other) is Some ==> (crate::focus::claims(
                now.focus.get(other),
            ) <==> other == path),
    ensures
        world::always(
            events::reconcile(state),
            now,
            false,
            restoration::keeps(now, false),
            |w: World, to: PolicyModel, done: bool|
                to.pending_apply.contains(path) && !to.pending_restore.contains(path),
        ),
{
    let held = restoration::keeps(now, false);
    let outcome = |w: World, to: PolicyModel, done: bool|
        to.pending_apply.contains(path) && !to.pending_restore.contains(path);
    let from = events::restarted(state);
    let all = paths::keys(state.paths);
    let seen = focus::seen(now, all);
    let values = focus::learned(now, from, all).0;
    let active = crate::focus::claimants(values);
    let between = focus::follow_outcome(now, from, all, false);
    focus::following_the_focus(from, all, now, false, now, false);
    maintenance::lemma_commit(from.focus_values, all, seen);
    paths::lemma_with(state.pending_apply, path);
    paths::lemma_lookup_keys(state.paths, path);
    let place = choose|i: int| 0 <= i < all.len() && all[i] == path;
    focus::a_look_is_remembered(from.focus_values, all, seen, place);
    focus::claimants_claim_the_focus(values, path);
    focus::nobody_claims_twice(values);
    let at = maintenance::lemma_lookup_index(values, path);
    assert(values[at].0 == path);
    assert(active.contains(path));
    assert forall|other: PathModel| #[trigger] active.contains(other) implies other == path by {
        focus::claimants_claim_the_focus(values, other);
        let k = choose|k: int|
            0 <= k < values.len() && (#[trigger] values[k]).0 == other && crate::focus::claims(
                values[k].1,
            );
        maintenance::lemma_lookup_entry(values, k);
        assert(paths::lookup(values, other) is Some);
        let i = choose|i: int| 0 <= i < all.len() && all[i] == other;
        focus::a_look_is_remembered(from.focus_values, all, seen, i);
        paths::lemma_lookup_keys(state.paths, other);
    }
    if active.len() > 1 {
        assert(active.contains(active[0]) && active.contains(active[1]));
    }
    assert(active =~= seq![path]);
    assert(reconcile::sole(active) == Some(path));
    assert forall|w: World, s: PolicyModel, r: bool|
        held(w) && #[trigger] between(w, s, r) implies outcome(w, s, r) by {}
    world::lemma_always_weaken(
        events::reconcile(state),
        now,
        false,
        held,
        between,
        held,
        outcome,
    );
}

proof fn lemma_changed_means(state: PolicyModel, reported: Seq<WatchEvent>, path: PathModel)
    requires
        events::changed(state.watches, reported).contains(path),
    ensures
        reported_changed(state, reported, path),
    decreases reported.len(),
{
    let all = events::changed(state.watches, reported);
    if reported.len() > 0 {
        let front = reported.drop_last();
        let rest = events::changed(state.watches, front);
        let k = choose|k: int| 0 <= k < all.len() && all[k] == path;
        lemma_masks(reported.last().mask);
        if k < rest.len() {
            assert(rest[k] == path);
            lemma_changed_means(state, front, path);
            let i = choose|i: int|
                0 <= i < front.len() && (#[trigger] front[i]).mask & 0x4u32 != 0
                    && paths::watched(state.watches, front[i].watch) == Some(path);
            assert(reported[i] == front[i]);
        } else {
            assert(reported[reported.len() - 1].mask & 0x4u32 != 0);
        }
    }
}

/// Events that tell of no cgroup that it is gone, and of no tracked one that it has changed,
/// lead to nothing, unless a tracked cgroup has not been looked at yet. Without watches no
/// event leads to anything.
pub proof fn other_events_lead_to_nothing(state: PolicyModel, reported: Seq<WatchEvent>)
    ensures
        !state.watching ==> events::process_events(state, reported) == Program::Done(state, true),
        state.watching && none_lost(reported) && (forall|path: PathModel|
            !(#[trigger] reported_gone(state, reported, path))) && (forall|path: PathModel|
            #[trigger] reported_changed(state, reported, path) ==> paths::lookup(
                state.paths,
                path,
            ) is None) && (forall|path: PathModel| #[trigger]
            state.pending_focus_checks.contains(path) ==> paths::lookup(state.paths, path)
                is None) ==> events::process_events(state, reported) == Program::Done(
            PolicyModel { pending_focus_checks: Seq::empty(), ..state },
            true,
        ),
{
    if state.watching && none_lost(reported) && (forall|path: PathModel|
        !(#[trigger] reported_gone(state, reported, path))) && (forall|path: PathModel| #[trigger]
        reported_changed(state, reported, path) ==> paths::lookup(state.paths, path) is None) && (
    forall|path: PathModel| #[trigger]
        state.pending_focus_checks.contains(path) ==> paths::lookup(state.paths, path) is None) {
        let gone = events::removed(state.watches, reported);
        let changed = events::changed(state.watches, reported);
        lemma_none_lost(reported);
        if gone.len() > 0 {
            assert(gone.contains(gone[0]));
            lemma_removed(state, reported, gone[0]);
        }
        assert(each::each(Work::Untrack, state, gone, 0) == Program::Done(state, true));
        if events::any_tracked(state, changed) {
            let i = choose|i: int|
                0 <= i < changed.len() && paths::lookup(state.paths, #[trigger] changed[i]) is Some;
            assert(changed.contains(changed[i]));
            lemma_changed_means(state, reported, changed[i]);
        }
        let pending = state.pending_focus_checks;
        if events::any_tracked(state, pending) {
            let i = choose|i: int|
                0 <= i < pending.len() && paths::lookup(state.paths, #[trigger] pending[i]) is Some;
            assert(pending.contains(pending[i]));
        }
    }
}

}
