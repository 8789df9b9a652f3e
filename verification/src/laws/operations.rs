//! Every operation: whatever fails and wherever it is cut short, no original limit is
//! lost.

use crate::activate;
use crate::each;
use crate::each::Work;
use crate::events;
use crate::laws;
use crate::laws::accounting;
use crate::laws::boost;
use crate::laws::focus;
use crate::laws::restoration;
use crate::maintenance;
use crate::path::PathModel;
use crate::paths;
use crate::policy;
use crate::program;
use crate::program::Program;
use crate::reconcile;
use crate::register;
use crate::request::{Answer, Call};
use crate::restore;
use crate::state::PolicyModel;
use crate::untrack;
use crate::watch::WatchEvent;
use crate::world;
use crate::world::World;
use vstd::prelude::*;

verus! {

/// An ending with the system as it was.
pub open spec fn untouched(before: World) -> spec_fn(World, PolicyModel, bool) -> bool {
    |now: World, to: PolicyModel, result: bool| now == before
}

/// Every limit of a cgroup is the original one, and its restoration is not
/// outstanding.
pub open spec fn put_back(first: World, path: PathModel) -> spec_fn(
    World,
    PolicyModel,
    bool,
) -> bool {
    |now: World, to: PolicyModel, result: bool|
        {
            &&& forall|region: Seq<char>| #[trigger]
                world::limit(now, path, region) == world::original(first, path, region)
            &&& now.records.get(path) is None
            &&& !to.pending_restore.contains(path)
        }
}

/// At any moment of any operation, even if the service ends there and a new one
/// remembers nothing, a restoration without faults gives every region its original
/// limit back.
///
/// What holds at any moment of any operation is `keeps`. A record that somebody has
/// made unreadable is left out.
pub proof fn originals_can_be_put_back(
    state: PolicyModel,
    path: PathModel,
    first: World,
    now: World,
)
    requires
        restoration::keeps(first, false)(now),
        world::readable(first, path),
    ensures
        world::always(
            restore::restore(state, path),
            now,
            false,
            restoration::keeps(first, false),
            put_back(first, path),
        ),
{
    let held = restoration::keeps(first, false);
    let outcome = restoration::restoration(now, state, path, false);
    restoration::restoring_keeps_originals(state, path, first, false, now, false);
    assert(world::readable(now, path));
    assert forall|w: World, s: PolicyModel, r: bool|
        held(w) && #[trigger] outcome(w, s, r) implies put_back(first, path)(w, s, r) by {
        assert forall|region: Seq<char>| #[trigger]
            world::limit(w, path, region) == world::original(first, path, region) by {
            assert(world::original(w, path, region) == world::original(first, path, region));
        }
        paths::lemma_without(
            paths::with(state.pending_restore, path),
            path,
        );
    }
    world::lemma_always_weaken(
        restore::restore(state, path),
        now,
        false,
        held,
        outcome,
        held,
        put_back(first, path),
    );
}

/// A boost, whatever fails in it, and a restoration without faults after it leave every
/// limit of the cgroup at its original value, and no record.
pub proof fn a_boost_can_be_undone(
    state: PolicyModel,
    path: PathModel,
    now: World,
    faults: bool,
)
    requires
        world::readable(now, path),
    ensures
        world::always(
            activate::activate(state, path),
            now,
            faults,
            restoration::keeps(now, false),
            |w: World, to: PolicyModel, done: bool|
                world::always(
                    restore::restore(to, path),
                    w,
                    false,
                    restoration::keeps(now, false),
                    put_back(now, path),
                ),
        ),
{
    let held = restoration::keeps(now, false);
    let outcome = |w: World, to: PolicyModel, done: bool|
        world::always(restore::restore(to, path), w, false, held, put_back(now, path));
    boost::boosting_keeps_originals(state, path, now, now, faults);
    assert forall|w: World, s: PolicyModel, r: bool|
        held(w) && #[trigger] boost::settlement(now, state, path, faults)(
            w,
            s,
            r,
        ) implies outcome(w, s, r) by {
        originals_can_be_put_back(s, path, now, w);
    }
    world::lemma_always_weaken(
        activate::activate(state, path),
        now,
        faults,
        held,
        boost::settlement(now, state, path, faults),
        held,
        outcome,
    );
}

proof fn lemma_read_only(
    program: Program,
    first: World,
    calm: bool,
    now: World,
    faults: bool,
    call: Call,
    outcome: spec_fn(World, PolicyModel, bool) -> bool,
)
    requires
        program::asked(program) == Some(call),
        call is Read || call is GetXattr || call is XattrsSupported || call is Writable
            || call is AddWatch || call is RemoveWatch || call is ResetWatches,
        restoration::keeps(first, calm)(now),
        forall|answer: Answer| #[trigger]
            world::possible(now, call, answer, faults) ==> world::always(
                program::after_answer(program, answer),
                now,
                faults,
                restoration::keeps(first, calm),
                outcome,
            ),
    ensures
        world::always(program, now, faults, restoration::keeps(first, calm), outcome),
{
    assert forall|answer: Answer| #[trigger]
        world::possible(now, call, answer, faults) implies world::always(
        program::after_answer(program, answer),
        world::after(now, call, answer),
        faults,
        restoration::keeps(first, calm),
        outcome,
    ) by {
        assert(world::after(now, call, answer) == now);
    }
}

/// Examining a cgroup leaves the system as it is.
pub proof fn lemma_eligible(
    state: PolicyModel,
    path: PathModel,
    first: World,
    calm: bool,
    now: World,
    faults: bool,
)
    requires
        restoration::keeps(first, calm)(now),
    ensures
        world::always(
            register::eligible(state, path),
            now,
            faults,
            restoration::keeps(first, calm),
            untouched(now),
        ),
{
    let low = restore::low_file(path);
    lemma_read_only(
        register::ask_writable(state, path),
        first,
        calm,
        now,
        faults,
        Call::Writable(low),
        untouched(now),
    );
    lemma_read_only(
        register::ask_support(state, path),
        first,
        calm,
        now,
        faults,
        Call::XattrsSupported(path),
        untouched(now),
    );
    lemma_read_only(
        register::eligible(state, path),
        first,
        calm,
        now,
        faults,
        Call::Read(low),
        untouched(now),
    );
}

/// Registering a cgroup leaves limits and records as they are.
pub proof fn registering_touches_nothing(
    state: PolicyModel,
    path: PathModel,
    first: World,
    calm: bool,
    now: World,
    faults: bool,
)
    requires
        restoration::keeps(first, calm)(now),
    ensures
        world::always(
            register::register(state, path),
            now,
            faults,
            restoration::keeps(first, calm),
            untouched(now),
        ),
{
    let held = restoration::keeps(first, calm);
    if paths::lookup(state.paths, path) is None && !state.pending_registration.contains(path) {
        let from = register::registering(state, path);
        lemma_eligible(from, path, first, calm, now, faults);
        let next = |s: PolicyModel, eligible: bool|
            if eligible && s.watching {
                register::ask_watch(s, path)
            } else {
                Program::Done(s, false)
            };
        assert forall|w: World, s: PolicyModel, r: bool|
            held(w) && #[trigger] untouched(now)(w, s, r) implies world::always(
            next(s, r),
            w,
            faults,
            held,
            untouched(now),
        ) by {
            lemma_read_only(
                register::ask_watch(s, path),
                first,
                calm,
                now,
                faults,
                Call::AddWatch(path),
                untouched(now),
            );
        }
        world::lemma_always_bind(
            register::eligible(from, path),
            next,
            now,
            faults,
            held,
            untouched(now),
            untouched(now),
        );
    }
}

/// How a farewell ends: the cgroup's restoration is outstanding, which needs a fault or
/// a record that cannot be understood, or there is no record any more. No record goes
/// astray.
pub open spec fn farewell(
    before: World,
    from: PolicyModel,
    path: PathModel,
    faults: bool,
) -> spec_fn(World, PolicyModel, bool) -> bool {
    |now: World, to: PolicyModel, done: bool|
        {
            &&& if to.pending_restore.contains(path) {
                faults || !world::readable(before, path)
            } else {
                now.records.get(path) is None
            }
            &&& accounting::accounted(before, from, now, to)
        }
}

/// What is left of the farewell after the restoration leaves the system as it is.
proof fn lemma_unwatch(
    state: PolicyModel,
    path: PathModel,
    first: World,
    calm: bool,
    now: World,
    faults: bool,
    outcome: spec_fn(World, PolicyModel, bool) -> bool,
)
    requires
        restoration::keeps(first, calm)(now),
        forall|to: PolicyModel, done: bool|
            to.pending_restore == state.pending_restore && to.foreground == state.foreground
                && to.pending_apply == paths::without(state.pending_apply, path)
                ==> #[trigger] outcome(now, to, done),
    ensures
        world::always(
            untrack::unwatch(state, path),
            now,
            faults,
            restoration::keeps(first, calm),
            outcome,
        ),
{
    if let Some(watch) = paths::lookup(state.paths, path) {
        if state.watching {
            lemma_read_only(
                untrack::unwatch(state, path),
                first,
                calm,
                now,
                faults,
                Call::RemoveWatch(watch),
                outcome,
            );
        }
    }
}

/// Letting a cgroup go loses no original limit and raises none. The cgroup is restored,
/// or its restoration is outstanding for a reason.
pub proof fn untracking_keeps_originals(
    state: PolicyModel,
    path: PathModel,
    first: World,
    calm: bool,
    now: World,
    faults: bool,
)
    requires
        restoration::keeps(first, calm)(now),
    ensures
        world::always(
            untrack::untrack(state, path),
            now,
            faults,
            restoration::keeps(first, calm),
            farewell(now, state, path, faults),
        ),
{
    let held = restoration::keeps(first, calm);
    let from = untrack::unregistered(state, path);
    let between = restoration::restoration(now, from, path, faults);
    let outcome = farewell(now, state, path, faults);
    restoration::restoring_keeps_originals(from, path, first, calm, now, faults);
    let next = |s: PolicyModel, done: bool| untrack::unwatch(s, path);
    assert forall|w: World, s: PolicyModel, r: bool|
        held(w) && #[trigger] between(w, s, r) implies world::always(
        next(s, r),
        w,
        faults,
        held,
        outcome,
    ) by {
        paths::lemma_with(from.pending_restore, path);
        paths::lemma_without(paths::with(from.pending_restore, path), path);
        accounting::lemma_restored(now, w, from, s, path, faults);
        paths::lemma_without(s.pending_apply, path);
        assert forall|to: PolicyModel, done: bool|
            to.pending_restore == s.pending_restore && to.foreground == s.foreground
                && to.pending_apply == paths::without(
                s.pending_apply,
                path,
            ) implies #[trigger] outcome(w, to, done) by {
            assert forall|other: PathModel| #[trigger]
                accounting::stray(w, to, other) implies accounting::stray(now, state, other) by {
                assert(other != path);
                assert(accounting::stray(w, s, other));
                assert(accounting::stray(now, from, other));
            }
        }
        lemma_unwatch(s, path, first, calm, w, faults, outcome);
    }
    world::lemma_always_bind(
        restore::restore(from, path),
        next,
        now,
        faults,
        held,
        between,
        outcome,
    );
}

/// What goes on from a moment where no record has gone astray leaves none astray either.
proof fn lemma_goes_on(
    program: Program,
    before: World,
    from: PolicyModel,
    now: World,
    state: PolicyModel,
    faults: bool,
    held: spec_fn(World) -> bool,
)
    requires
        world::always(program, now, faults, held, accounting::accounts(now, state)),
        accounting::accounted(before, from, now, state),
    ensures
        world::always(program, now, faults, held, accounting::accounts(before, from)),
{
    world::lemma_always_weaken(
        program,
        now,
        faults,
        held,
        accounting::accounts(now, state),
        held,
        accounting::accounts(before, from),
    );
}

/// A registration leaves no record astray.
proof fn lemma_register(
    state: PolicyModel,
    path: PathModel,
    first: World,
    calm: bool,
    now: World,
    faults: bool,
)
    requires
        restoration::keeps(first, calm)(now),
    ensures
        world::always(
            register::register(state, path),
            now,
            faults,
            restoration::keeps(first, calm),
            accounting::accounts(now, state),
        ),
{
    let program = register::register(state, path);
    registering_touches_nothing(state, path, first, calm, now, faults);
    assert(seq![path].contains(seq![path][0]));
    laws::maintenance::lemma_register(state, path, seq![path]);
    laws::maintenance::lemma_both(
        program,
        now,
        faults,
        restoration::keeps(first, calm),
        untouched(now),
        laws::maintenance::steady(state, seq![path]),
        accounting::accounts(now, state),
    );
}

/// What is done to one cgroup leaves no record astray.
pub proof fn lemma_work(
    kind: Work,
    state: PolicyModel,
    path: PathModel,
    first: World,
    calm: bool,
    now: World,
    faults: bool,
)
    requires
        restoration::keeps(first, calm)(now),
        calm ==> kind != Work::Apply,
    ensures
        world::always(
            each::work(kind, state, path),
            now,
            faults,
            restoration::keeps(first, calm),
            accounting::accounts(now, state),
        ),
{
    let held = restoration::keeps(first, calm);
    let program = each::work(kind, state, path);
    let outcome = accounting::accounts(now, state);
    match kind {
        Work::Restore => {
            restoration::restoring_keeps_originals(state, path, first, calm, now, faults);
            let between = restoration::restoration(now, state, path, faults);
            assert forall|w: World, s: PolicyModel, r: bool|
                held(w) && #[trigger] between(w, s, r) implies outcome(w, s, r) by {
                accounting::lemma_restored(now, w, state, s, path, faults);
            }
            world::lemma_always_weaken(program, now, faults, held, between, held, outcome);
        },
        Work::Untrack => {
            untracking_keeps_originals(state, path, first, calm, now, faults);
            let between = farewell(now, state, path, faults);
            world::lemma_always_weaken(program, now, faults, held, between, held, outcome);
        },
        Work::Register => {
            lemma_register(state, path, first, calm, now, faults);
        },
        Work::Retry => {
            lemma_register(state, path, first, calm, now, faults);
            lemma_read_only(
                program,
                first,
                calm,
                now,
                faults,
                Call::XattrsSupported(path),
                outcome,
            );
        },
        Work::Apply => {
            if state.pending_apply.contains(path) && !state.pending_restore.contains(path) {
                boost::boosting_keeps_originals(state, path, first, now, faults);
                let between = boost::settlement(now, state, path, faults);
                assert forall|w: World, s: PolicyModel, r: bool|
                    held(w) && #[trigger] between(w, s, r) implies outcome(w, s, r) by {
                    accounting::lemma_settled(now, w, state, s, path, faults);
                }
                world::lemma_always_weaken(program, now, faults, held, between, held, outcome);
            }
        },
    }
}

/// After one cgroup come the next ones.
pub proof fn lemma_each_goes_on(kind: Work, all: Seq<PathModel>, next: nat)
    ensures
        world::goes_on(
            |p: Program| each::and_each(p, kind, all, next),
            |s: PolicyModel, done: bool| each::each(kind, s, all, next),
        ),
{
    assert forall|first: Program| first is Ask implies program::asked(
        #[trigger] each::and_each(first, kind, all, next),
    ) == program::asked(first) by {
        each::lemma_and_each(first, kind, all, next, Answer::Done(Ok(())));
    }
    assert forall|first: Program, answer: Answer| first is Ask implies #[trigger] program::after_answer(
        each::and_each(first, kind, all, next),
        answer,
    ) == each::and_each(program::after_answer(first, answer), kind, all, next) by {
        each::lemma_and_each(first, kind, all, next, answer);
    }
}

/// Doing the same to one cgroup after another loses no original limit and leaves no record
/// astray. Only boosting raises a limit.
pub proof fn each_keeps_originals(
    kind: Work,
    state: PolicyModel,
    all: Seq<PathModel>,
    next: nat,
    first: World,
    calm: bool,
    now: World,
    faults: bool,
)
    requires
        restoration::keeps(first, calm)(now),
        calm ==> kind != Work::Apply,
    ensures
        world::always(
            each::each(kind, state, all, next),
            now,
            faults,
            restoration::keeps(first, calm),
            accounting::accounts(now, state),
        ),
    decreases all.len() - next,
{
    let held = restoration::keeps(first, calm);
    let outcome = accounting::accounts(now, state);
    if next < all.len() {
        lemma_work(kind, state, all[next as int], first, calm, now, faults);
        let then = |s: PolicyModel, done: bool| each::each(kind, s, all, next + 1);
        let sequence = |p: Program| each::and_each(p, kind, all, next + 1);
        lemma_each_goes_on(kind, all, next + 1);
        assert forall|w: World, s: PolicyModel, r: bool|
            held(w) && #[trigger] outcome(w, s, r) implies world::always(
            then(s, r),
            w,
            faults,
            held,
            outcome,
        ) by {
            each_keeps_originals(kind, s, all, next + 1, first, calm, w, faults);
            lemma_goes_on(then(s, r), now, state, w, s, faults, held);
        }
        world::lemma_always_sequence(
            each::work(kind, state, all[next as int]),
            sequence,
            then,
            now,
            faults,
            held,
            outcome,
            outcome,
        );
    }
}

/// Registering one cgroup after another leaves limits and records as they are.
pub proof fn registering_all_touches_nothing(
    kind: Work,
    state: PolicyModel,
    all: Seq<PathModel>,
    next: nat,
    first: World,
    calm: bool,
    now: World,
    faults: bool,
)
    requires
        restoration::keeps(first, calm)(now),
        kind == Work::Register || kind == Work::Retry,
    ensures
        world::always(
            each::each(kind, state, all, next),
            now,
            faults,
            restoration::keeps(first, calm),
            untouched(now),
        ),
    decreases all.len() - next,
{
    let held = restoration::keeps(first, calm);
    let outcome = untouched(now);
    if next < all.len() {
        let one = all[next as int];
        let program = each::work(kind, state, one);
        registering_touches_nothing(state, one, first, calm, now, faults);
        if kind == Work::Retry {
            lemma_read_only(
                program,
                first,
                calm,
                now,
                faults,
                Call::XattrsSupported(one),
                outcome,
            );
        }
        let then = |s: PolicyModel, done: bool| each::each(kind, s, all, next + 1);
        let sequence = |p: Program| each::and_each(p, kind, all, next + 1);
        lemma_each_goes_on(kind, all, next + 1);
        assert forall|w: World, s: PolicyModel, r: bool|
            held(w) && #[trigger] outcome(w, s, r) implies world::always(
            then(s, r),
            w,
            faults,
            held,
            outcome,
        ) by {
            registering_all_touches_nothing(kind, s, all, next + 1, first, calm, now, faults);
        }
        world::lemma_always_sequence(
            program,
            sequence,
            then,
            now,
            faults,
            held,
            outcome,
            outcome,
        );
    }
}

/// Letting go of the cgroups outside a root loses no original limit, raises none and leaves
/// no record astray.
pub proof fn restricting_keeps_originals(
    state: PolicyModel,
    root: PathModel,
    first: World,
    calm: bool,
    now: World,
    faults: bool,
)
    requires
        restoration::keeps(first, calm)(now),
    ensures
        world::always(
            policy::restrict_to(state, root),
            now,
            faults,
            restoration::keeps(first, calm),
            accounting::accounts(now, state),
        ),
{
    each_keeps_originals(
        Work::Untrack,
        state,
        policy::outside(root, policy::involved(state)),
        0,
        first,
        calm,
        now,
        faults,
    );
}

/// Making every watch anew loses no original limit and leaves no record astray.
pub proof fn rebuilding_keeps_originals(
    state: PolicyModel,
    first: World,
    now: World,
    faults: bool,
)
    requires
        restoration::keeps(first, false)(now),
    ensures
        world::always(
            events::rebuild_watches(state),
            now,
            faults,
            restoration::keeps(first, false),
            accounting::accounts(now, state),
        ),
{
    let blank = events::checked(events::untied(state));
    let all = paths::keys(state.paths);
    each_keeps_originals(Work::Register, blank, all, 0, first, false, now, faults);
    lemma_goes_on(
        each::each(Work::Register, blank, all, 0),
        now,
        state,
        now,
        blank,
        faults,
        restoration::keeps(first, false),
    );
    lemma_read_only(
        events::rebuild_watches(state),
        first,
        false,
        now,
        faults,
        Call::ResetWatches,
        accounting::accounts(now, state),
    );
}

/// What the policy forgets before it looks at everything again leaves no record astray.
proof fn lemma_restarted(now: World, state: PolicyModel)
    ensures
        accounting::accounted(now, state, now, events::restarted(state)),
{
    if let Some(path) = state.foreground {
        paths::lemma_with(state.pending_apply, path);
        paths::lemma_with(state.pending_restore, path);
    }
}

/// Looking at everything again loses no original limit and leaves no record astray.
pub proof fn reconciling_keeps_originals(
    state: PolicyModel,
    first: World,
    now: World,
    faults: bool,
)
    requires
        restoration::keeps(first, false)(now),
    ensures
        world::always(
            events::reconcile(state),
            now,
            faults,
            restoration::keeps(first, false),
            accounting::accounts(now, state),
        ),
{
    focus::looking_keeps_originals(
        events::restarted(state),
        paths::keys(state.paths),
        first,
        now,
        faults,
    );
    lemma_restarted(now, state);
    lemma_goes_on(
        events::reconcile(state),
        now,
        state,
        now,
        events::restarted(state),
        faults,
        restoration::keeps(first, false),
    );
}

/// Acting on events loses no original limit and leaves no record astray.
pub proof fn events_keep_originals(
    state: PolicyModel,
    reported: Seq<WatchEvent>,
    first: World,
    now: World,
    faults: bool,
)
    requires
        restoration::keeps(first, false)(now),
    ensures
        world::always(
            events::process_events(state, reported),
            now,
            faults,
            restoration::keeps(first, false),
            accounting::accounts(now, state),
        ),
{
    let held = restoration::keeps(first, false);
    let outcome = accounting::accounts(now, state);
    if state.watching && events::overflowed(reported) {
        rebuilding_keeps_originals(state, first, now, faults);
        let next = |s: PolicyModel, done: bool| events::reconcile(s);
        assert forall|w: World, s: PolicyModel, r: bool|
            held(w) && #[trigger] outcome(w, s, r) implies world::always(
            next(s, r),
            w,
            faults,
            held,
            outcome,
        ) by {
            reconciling_keeps_originals(s, first, w, faults);
            lemma_goes_on(next(s, r), now, state, w, s, faults, held);
        }
        world::lemma_always_bind(
            events::rebuild_watches(state),
            next,
            now,
            faults,
            held,
            outcome,
            outcome,
        );
    } else if state.watching {
        let gone = events::removed(state.watches, reported);
        let changed = events::changed(state.watches, reported);
        each_keeps_originals(Work::Untrack, state, gone, 0, first, false, now, faults);
        let next = |s: PolicyModel, done: bool| events::check(s, changed);
        assert forall|w: World, s: PolicyModel, r: bool|
            held(w) && #[trigger] outcome(w, s, r) implies world::always(
            next(s, r),
            w,
            faults,
            held,
            outcome,
        ) by {
            let looked = events::checked(s);
            assert(accounting::accounted(now, state, w, looked)) by {
                assert forall|path: PathModel| #[trigger]
                    accounting::stray(w, looked, path) implies accounting::stray(
                    now,
                    state,
                    path,
                ) by {
                    assert(accounting::stray(w, s, path));
                }
            }
            focus::looking_keeps_originals(looked, paths::keys(s.paths), first, w, faults);
            let look = reconcile::reconcile_paths(looked, paths::keys(s.paths));
            lemma_goes_on(look, now, state, w, looked, faults, held);
        }
        world::lemma_always_bind(
            each::each(Work::Untrack, state, gone, 0),
            next,
            now,
            faults,
            held,
            outcome,
            outcome,
        );
    }
}

/// Trying boosts after restorations loses no original limit and leaves no record astray.
proof fn lemma_and_apply(
    state: PolicyModel,
    restore: Seq<PathModel>,
    complete: bool,
    apply: Seq<PathModel>,
    first: World,
    now: World,
    faults: bool,
)
    requires
        restoration::keeps(first, false)(now),
    ensures
        world::always(
            maintenance::and_apply(
                each::each(Work::Restore, state, restore, 0),
                complete,
                apply,
            ),
            now,
            faults,
            restoration::keeps(first, false),
            accounting::accounts(now, state),
        ),
{
    let held = restoration::keeps(first, false);
    let outcome = accounting::accounts(now, state);
    each_keeps_originals(Work::Restore, state, restore, 0, first, false, now, faults);
    let next = |s: PolicyModel, done: bool|
        if complete {
            each::each(Work::Apply, maintenance::hopeful(s), apply, 0)
        } else {
            Program::Done(s, true)
        };
    assert forall|w: World, s: PolicyModel, r: bool|
        held(w) && #[trigger] outcome(w, s, r) implies world::always(
        next(s, r),
        w,
        faults,
        held,
        outcome,
    ) by {
        let hopeful = maintenance::hopeful(s);
        paths::lemma_with_all(s.pending_apply, crate::focus::claimants(s.focus_values));
        assert(accounting::accounted(now, state, w, hopeful)) by {
            assert forall|path: PathModel| #[trigger]
                accounting::stray(w, hopeful, path) implies accounting::stray(now, state, path) by {
                assert(accounting::stray(w, s, path));
            }
        }
        each_keeps_originals(Work::Apply, hopeful, apply, 0, first, false, w, faults);
        let tries = each::each(Work::Apply, hopeful, apply, 0);
        lemma_goes_on(tries, now, state, w, hopeful, faults, held);
    }
    world::lemma_always_bind(
        each::each(Work::Restore, state, restore, 0),
        next,
        now,
        faults,
        held,
        outcome,
        outcome,
    );
}

proof fn lemma_survey(state: PolicyModel, first: World, now: World, faults: bool)
    requires
        restoration::keeps(first, false)(now),
    ensures
        world::always(
            maintenance::survey(state),
            now,
            faults,
            restoration::keeps(first, false),
            accounting::accounts(now, state),
        ),
{
    let held = restoration::keeps(first, false);
    let outcome = accounting::accounts(now, state);
    let restore = state.pending_restore;
    let apply = state.pending_apply;
    let known = maintenance::known_paths(state);
    focus::looking_keeps_originals(state, known, first, now, faults);
    let next = |s: PolicyModel, complete: bool|
        maintenance::and_apply(each::each(Work::Restore, s, restore, 0), complete, apply);
    assert forall|w: World, s: PolicyModel, r: bool|
        held(w) && #[trigger] outcome(w, s, r) implies world::always(
        next(s, r),
        w,
        faults,
        held,
        outcome,
    ) by {
        lemma_and_apply(s, restore, r, apply, first, w, faults);
        lemma_goes_on(next(s, r), now, state, w, s, faults, held);
    }
    world::lemma_always_bind(
        reconcile::reconcile_paths(state, known),
        next,
        now,
        faults,
        held,
        outcome,
        outcome,
    );
}

/// A round of maintenance loses no original limit and leaves no record astray.
pub proof fn maintenance_keeps_originals(
    state: PolicyModel,
    first: World,
    now: World,
    faults: bool,
)
    requires
        restoration::keeps(first, false)(now),
    ensures
        world::always(
            maintenance::maintenance(state),
            now,
            faults,
            restoration::keeps(first, false),
            accounting::accounts(now, state),
        ),
{
    let held = restoration::keeps(first, false);
    let outcome = accounting::accounts(now, state);
    let from = PolicyModel { pending_registration: Seq::empty(), ..state };
    let all = state.pending_registration;
    each_keeps_originals(Work::Retry, from, all, 0, first, false, now, faults);
    assert(accounting::accounted(now, state, now, from));
    lemma_goes_on(
        each::each(Work::Retry, from, all, 0),
        now,
        state,
        now,
        from,
        faults,
        held,
    );
    let next = |s: PolicyModel, done: bool| maintenance::survey(s);
    assert forall|w: World, s: PolicyModel, r: bool|
        held(w) && #[trigger] outcome(w, s, r) implies world::always(
        next(s, r),
        w,
        faults,
        held,
        outcome,
    ) by {
        lemma_survey(s, first, w, faults);
        lemma_goes_on(next(s, r), now, state, w, s, faults, held);
    }
    world::lemma_always_bind(
        each::each(Work::Retry, from, all, 0),
        next,
        now,
        faults,
        held,
        outcome,
        outcome,
    );
}

}
