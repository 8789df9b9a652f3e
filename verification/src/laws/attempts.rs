//! What is asked in any case, and what follows from particular answers.

use crate::activate;
use crate::each;
use crate::each::Work;
use crate::events;
use crate::laws::consistency;
use crate::laws::maintenance::steady;
use crate::laws::operations;
use crate::laws::shutdown;
use crate::laws::tracking;
use crate::maintenance;
use crate::path::PathModel;
use crate::paths;
use crate::policy;
use crate::program;
use crate::program::Program;
use crate::reconcile;
use crate::recover;
use crate::recovery;
use crate::recovery::{RecordModel, Standing};
use crate::register;
use crate::request;
use crate::request::{Answer, Call, IoFailure, Xattr};
use crate::restore;
use crate::state::PolicyModel;
use crate::table;
use crate::untrack;
use crate::watch::WatchEvent;
use crate::world;
use crate::world::World;
use vstd::prelude::*;

verus! {

/// In every run of an operation, whatever is answered, a request is made.
pub open spec fn asks(program: Program, call: Call) -> bool
    decreases program,
{
    match program {
        Program::Done(_, _) => false,
        Program::Ask(made, next) => made == call || forall|answer: Answer|
            asks(#[trigger] next(answer), call),
    }
}

/// What an operation asks in any case is asked whatever follows.
proof fn lemma_asks_first(
    first: Program,
    sequence: spec_fn(Program) -> Program,
    next: spec_fn(PolicyModel, bool) -> Program,
    call: Call,
)
    requires
        world::goes_on(sequence, next),
        asks(first, call),
    ensures
        asks(sequence(first), call),
    decreases first,
{
    if let Program::Ask(made, then) = first {
        assert(program::asked(sequence(first)) == Some(made));
        if made != call {
            assert forall|answer: Answer|
                asks(#[trigger] program::after_answer(sequence(first), answer), call) by {
                assert(asks(then(answer), call));
                lemma_asks_first(then(answer), sequence, next, call);
                assert(program::after_answer(first, answer) == then(answer));
            }
            lemma_asks_next(sequence(first), call);
        }
    }
}

proof fn lemma_asks_next(program: Program, call: Call)
    requires
        program is Ask,
        forall|answer: Answer| asks(#[trigger] program::after_answer(program, answer), call),
    ensures
        asks(program, call),
{
    if let Program::Ask(made, next) = program {
        assert forall|answer: Answer| asks(#[trigger] next(answer), call) by {
            assert(program::after_answer(program, answer) == next(answer));
        }
    }
}

/// What is asked in any case after an operation, however that ends, is asked.
proof fn lemma_asks_then(
    first: Program,
    sequence: spec_fn(Program) -> Program,
    next: spec_fn(PolicyModel, bool) -> Program,
    between: spec_fn(PolicyModel, bool) -> bool,
    call: Call,
)
    requires
        world::goes_on(sequence, next),
        consistency::ends(first, between),
        forall|s: PolicyModel, r: bool| #[trigger] between(s, r) ==> asks(next(s, r), call),
    ensures
        asks(sequence(first), call),
    decreases first,
{
    match first {
        Program::Done(state, result) => {
            assert(between(state, result));
            assert(sequence(Program::Done(state, result)) == next(state, result));
        },
        Program::Ask(made, then) => {
            assert(program::asked(sequence(first)) == Some(made));
            assert forall|answer: Answer|
                asks(#[trigger] program::after_answer(sequence(first), answer), call) by {
                assert(consistency::ends(then(answer), between));
                lemma_asks_then(then(answer), sequence, next, between, call);
                assert(program::after_answer(first, answer) == then(answer));
            }
            lemma_asks_next(sequence(first), call);
        },
    }
}

/// Sequences are made by `bind`.
proof fn lemma_bind_goes_on(next: spec_fn(PolicyModel, bool) -> Program)
    ensures
        world::goes_on(|first: Program| program::bind(first, next), next),
{
    let sequence = |first: Program| program::bind(first, next);
    assert forall|first: Program| first is Ask implies program::asked(#[trigger] sequence(first))
        == program::asked(first) by {
        program::lemma_bind(first, next, Answer::Done(Ok(())));
    }
    assert forall|first: Program, answer: Answer|
        first is Ask implies #[trigger] program::after_answer(sequence(first), answer)
        == sequence(program::after_answer(first, answer)) by {
        program::lemma_bind(first, next, answer);
    }
}

/// Every operation ends in some way.
proof fn lemma_ends(program: Program)
    ensures
        consistency::ends(program, |s: PolicyModel, r: bool| true),
    decreases program,
{
    if let Program::Ask(_, next) = program {
        assert forall|answer: Answer|
            consistency::ends(
                #[trigger] program::after_answer(program, answer),
                |s: PolicyModel, r: bool| true,
            ) by {
            lemma_ends(next(answer));
        }
        consistency::lemma_ends_ask(program, |s: PolicyModel, r: bool| true);
    }
}

/// What is asked first about each cgroup.
spec fn opening(kind: Work, path: PathModel) -> Call {
    match kind {
        Work::Retry => Call::XattrsSupported(path),
        _ => Call::GetXattr(path, Xattr::State),
    }
}

/// Whatever the system answers, every restoration in turn is tried, every cgroup is let go,
/// or every registration is tried again: no failure keeps the next one from its try.
pub proof fn every_cgroup_gets_its_turn(
    kind: Work,
    state: PolicyModel,
    all: Seq<PathModel>,
    next: nat,
    i: int,
)
    requires
        kind == Work::Restore || kind == Work::Untrack || kind == Work::Retry,
        next <= i < all.len(),
    ensures
        asks(
            each::each(kind, state, all, next),
            match kind {
                Work::Retry => Call::XattrsSupported(all[i]),
                _ => Call::GetXattr(all[i], Xattr::State),
            },
        ),
    decreases all.len() - next,
{
    let call = opening(kind, all[i]);
    let one = all[next as int];
    let first = each::work(kind, state, one);
    let then = |s: PolicyModel, done: bool| each::each(kind, s, all, next + 1);
    let sequence = |p: Program| each::and_each(p, kind, all, next + 1);
    operations::lemma_each_goes_on(kind, all, next + 1);
    if next == i {
        if kind == Work::Untrack {
            let start = untrack::unregistered(state, one);
            let after = |s: PolicyModel, done: bool| untrack::unwatch(s, one);
            lemma_bind_goes_on(after);
            lemma_asks_first(
                restore::restore(start, one),
                |p: Program| program::bind(p, after),
                after,
                call,
            );
        }
        lemma_asks_first(first, sequence, then, call);
    } else {
        let any = |s: PolicyModel, r: bool| true;
        lemma_ends(first);
        assert forall|s: PolicyModel, r: bool| #[trigger] any(s, r) implies asks(
            then(s, r),
            call,
        ) by {
            every_cgroup_gets_its_turn(kind, s, all, next + 1, i);
        }
        lemma_asks_then(first, sequence, then, any, call);
    }
}

/// Whatever the system answers, a shutdown tries to restore every cgroup that is boosted or
/// whose boost or restoration is outstanding.
pub proof fn a_shutdown_tries_everything(state: PolicyModel, path: PathModel)
    requires
        state.foreground == Some(path) || state.pending_apply.contains(path)
            || state.pending_restore.contains(path),
    ensures
        asks(policy::shutdown(state), Call::GetXattr(path, Xattr::State)),
{
    let all = policy::unsettled(state);
    shutdown::lemma_unsettled(state);
    assert(all.contains(path)) by {
        paths::lemma_with_all(state.pending_restore, state.pending_apply);
        let most = paths::with_all(state.pending_restore, state.pending_apply);
        if let Some(foreground) = state.foreground {
            paths::lemma_with(most, foreground);
        }
    }
    let i = choose|i: int| 0 <= i < all.len() && all[i] == path;
    every_cgroup_gets_its_turn(
        Work::Restore,
        PolicyModel { pending_apply: Seq::empty(), ..state },
        all,
        0,
        i,
    );
}

/// Whatever the system answers, a round of maintenance tries every registration and every
/// restoration that is outstanding.
pub proof fn maintenance_tries_everything(state: PolicyModel, path: PathModel)
    ensures
        state.pending_registration.contains(path) ==> asks(
            maintenance::maintenance(state),
            Call::XattrsSupported(path),
        ),
        state.pending_restore.contains(path) ==> asks(
            maintenance::maintenance(state),
            Call::GetXattr(path, Xattr::State),
        ),
{
    let from = PolicyModel { pending_registration: Seq::empty(), ..state };
    let all = state.pending_registration;
    let retry = each::each(Work::Retry, from, all, 0);
    let next = |s: PolicyModel, done: bool| maintenance::survey(s);
    let sequence = |p: Program| program::bind(p, next);
    lemma_bind_goes_on(next);
    assert(maintenance::maintenance(state) == sequence(retry));
    if all.contains(path) {
        let i = choose|i: int| 0 <= i < all.len() && all[i] == path;
        every_cgroup_gets_its_turn(Work::Retry, from, all, 0, i);
        lemma_asks_first(retry, sequence, next, Call::XattrsSupported(path));
    }
    if state.pending_restore.contains(path) {
        let call = Call::GetXattr(path, Xattr::State);
        let between = steady(from, all);
        crate::laws::maintenance::lemma_retry(from, from, all, 0);
        assert forall|s: PolicyModel, r: bool| #[trigger] between(s, r) implies asks(
            next(s, r),
            call,
        ) by {
            lemma_survey_tries(s, path);
        }
        lemma_asks_then(retry, sequence, next, between, call);
    }
}

proof fn lemma_survey_tries(state: PolicyModel, path: PathModel)
    requires
        state.pending_restore.contains(path),
    ensures
        asks(maintenance::survey(state), Call::GetXattr(path, Xattr::State)),
{
    let call = Call::GetXattr(path, Xattr::State);
    let restore = state.pending_restore;
    let apply = state.pending_apply;
    let look = reconcile::reconcile_paths(state, maintenance::known_paths(state));
    let next = |s: PolicyModel, complete: bool|
        maintenance::and_apply(each::each(Work::Restore, s, restore, 0), complete, apply);
    let any = |s: PolicyModel, r: bool| true;
    let i = choose|i: int| 0 <= i < restore.len() && restore[i] == path;
    lemma_bind_goes_on(next);
    lemma_ends(look);
    assert forall|s: PolicyModel, r: bool| #[trigger] any(s, r) implies asks(next(s, r), call) by {
        let then = |s2: PolicyModel, done: bool|
            if r {
                each::each(Work::Apply, maintenance::hopeful(s2), apply, 0)
            } else {
                Program::Done(s2, true)
            };
        lemma_bind_goes_on(then);
        every_cgroup_gets_its_turn(Work::Restore, s, restore, 0, i);
        lemma_asks_first(
            each::each(Work::Restore, s, restore, 0),
            |p: Program| program::bind(p, then),
            then,
            call,
        );
    }
    lemma_asks_then(look, |p: Program| program::bind(p, next), next, any, call);
}

/// Whatever the system answers, letting go of a cgroup that is tracked removes its watch.
pub proof fn letting_go_removes_the_watch(state: PolicyModel, path: PathModel, watch: i32)
    requires
        state.watching,
        paths::lookup(state.paths, path) == Some(watch),
    ensures
        asks(untrack::untrack(state, path), Call::RemoveWatch(watch)),
{
    let call = Call::RemoveWatch(watch);
    let start = untrack::unregistered(state, path);
    let releasing = restore::releasing(start, path);
    let between = consistency::either(releasing, restore::released(releasing, path));
    let next = |s: PolicyModel, done: bool| untrack::unwatch(s, path);
    lemma_bind_goes_on(next);
    consistency::lemma_restore(start, path);
    assert forall|s: PolicyModel, r: bool| #[trigger] between(s, r) implies asks(
        next(s, r),
        call,
    ) by {
        assert(next(s, r) == untrack::ask_unwatch(
            untrack::unattended(s, path, watch),
            path,
            watch,
        ));
    }
    lemma_asks_then(
        restore::restore(start, path),
        |p: Program| program::bind(p, next),
        next,
        between,
        call,
    );
}

/// Whatever the system answers, once a cgroup that was tracked is let go, nothing that comes
/// from its watch is about any cgroup. What comes from other watches is about what it was
/// about before.
pub proof fn letting_go_forgets_the_watch(state: PolicyModel, path: PathModel, watch: i32)
    requires
        paths::lookup(state.paths, path) == Some(watch),
    ensures
        consistency::ends(
            untrack::untrack(state, path),
            |to: PolicyModel, done: bool|
                {
                    &&& paths::watched(to.watches, watch) is None
                    &&& forall|other: i32|
                        other != watch ==> #[trigger] paths::watched(to.watches, other)
                            == paths::watched(state.watches, other)
                },
        ),
{
    let outcome = |to: PolicyModel, done: bool|
        {
            &&& paths::watched(to.watches, watch) is None
            &&& forall|other: i32|
                other != watch ==> #[trigger] paths::watched(to.watches, other) == paths::watched(
                    state.watches,
                    other,
                )
        };
    let start = untrack::unregistered(state, path);
    let releasing = restore::releasing(start, path);
    let between = consistency::either(releasing, restore::released(releasing, path));
    let next = |s: PolicyModel, done: bool| untrack::unwatch(s, path);
    consistency::lemma_restore(start, path);
    consistency::lemma_unwatched(state.watches, watch);
    assert forall|s: PolicyModel, r: bool| #[trigger] between(s, r) implies consistency::ends(
        next(s, r),
        outcome,
    ) by {
        let gone = untrack::unattended(s, path, watch);
        assert(outcome(untrack::forgotten(gone, path), true));
        consistency::lemma_ends_ask(untrack::ask_unwatch(gone, path, watch), outcome);
    }
    consistency::lemma_ends_bind(restore::restore(start, path), next, between, outcome);
}

/// Where events were lost, the watches are made anew.
pub proof fn lost_events_reset_the_watches(state: PolicyModel, reported: Seq<WatchEvent>, i: int)
    requires
        state.watching,
        0 <= i < reported.len(),
        reported[i].mask & 0x4000u32 != 0,
    ensures
        asks(events::process_events(state, reported), Call::ResetWatches),
{
    let next = |s: PolicyModel, done: bool| events::reconcile(s);
    lemma_bind_goes_on(next);
    tracking::lemma_none_lost(reported);
    assert(asks(events::rebuild_watches(state), Call::ResetWatches));
    lemma_asks_first(
        events::rebuild_watches(state),
        |p: Program| program::bind(p, next),
        next,
        Call::ResetWatches,
    );
}

/// In every run of an operation in which only some answers are given, `outcome` holds of how
/// it ends.
pub open spec fn given(
    program: Program,
    allowed: spec_fn(Call, Answer) -> bool,
    outcome: spec_fn(PolicyModel, bool) -> bool,
) -> bool
    decreases program,
{
    match program {
        Program::Done(state, result) => outcome(state, result),
        Program::Ask(call, next) => forall|answer: Answer| #[trigger]
            allowed(call, answer) ==> given(next(answer), allowed, outcome),
    }
}

/// What holds after every answer that is given, holds.
proof fn lemma_given(
    program: Program,
    call: Call,
    allowed: spec_fn(Call, Answer) -> bool,
    outcome: spec_fn(PolicyModel, bool) -> bool,
)
    requires
        program::asked(program) == Some(call),
        forall|answer: Answer|
            allowed(call, answer) ==> given(
                #[trigger] program::after_answer(program, answer),
                allowed,
                outcome,
            ),
    ensures
        given(program, allowed, outcome),
{
    if let Program::Ask(_, next) = program {
        assert forall|answer: Answer| #[trigger] allowed(call, answer) implies given(
            next(answer),
            allowed,
            outcome,
        ) by {
            assert(program::after_answer(program, answer) == next(answer));
        }
    }
}

proof fn lemma_given_bind(
    first: Program,
    next: spec_fn(PolicyModel, bool) -> Program,
    allowed: spec_fn(Call, Answer) -> bool,
    between: spec_fn(PolicyModel, bool) -> bool,
    outcome: spec_fn(PolicyModel, bool) -> bool,
)
    requires
        given(first, allowed, between),
        forall|s: PolicyModel, r: bool| #[trigger]
            between(s, r) ==> given(next(s, r), allowed, outcome),
    ensures
        given(program::bind(first, next), allowed, outcome),
    decreases first,
{
    match first {
        Program::Done(state, result) => {
            assert(between(state, result));
        },
        Program::Ask(call, then) => {
            let sequence = program::bind(first, next);
            program::lemma_bind(first, next, Answer::Done(Ok(())));
            assert forall|answer: Answer| #[trigger] allowed(call, answer) implies given(
                program::after_answer(sequence, answer),
                allowed,
                outcome,
            ) by {
                program::lemma_bind(first, next, answer);
                lemma_given_bind(then(answer), next, allowed, between, outcome);
            }
        },
    }
}

/// Nothing has changed, and that is said.
pub open spec fn undone(from: PolicyModel) -> spec_fn(PolicyModel, bool) -> bool {
    |to: PolicyModel, done: bool| to == from && !done
}

proof fn lemma_look_fails(
    state: PolicyModel,
    all: Seq<PathModel>,
    values: Seq<Option<Seq<u8>>>,
    i: int,
    allowed: spec_fn(Call, Answer) -> bool,
)
    requires
        values.len() <= i < all.len(),
        forall|value: Option<Seq<u8>>|
            !(#[trigger] allowed(
                Call::GetXattr(all[i], Xattr::Focus),
                Answer::Attribute(Ok(value)),
            )),
    ensures
        given(
            reconcile::look(state, all, values),
            allowed,
            undone(state),
        ),
    decreases all.len() - values.len(),
{
    let outcome = undone(state);
    let program = reconcile::look(state, all, values);
    let call = Call::GetXattr(all[values.len() as int], Xattr::Focus);
    assert forall|answer: Answer| #[trigger] allowed(call, answer) implies given(
        program::after_answer(program, answer),
        allowed,
        outcome,
    ) by {
        if let Answer::Attribute(Ok(value)) = answer {
            if values.len() < i {
                lemma_look_fails(state, all, values.push(value), i, allowed);
            }
        } else {
            assert(outcome(state, false));
        }
    }
}

/// Where the focus of one of the cgroups cannot be read, a look changes nothing, and says so.
pub proof fn an_incomplete_look_changes_nothing(
    state: PolicyModel,
    all: Seq<PathModel>,
    i: int,
    allowed: spec_fn(Call, Answer) -> bool,
)
    requires
        0 <= i < all.len(),
        forall|value: Option<Seq<u8>>|
            !(#[trigger] allowed(
                Call::GetXattr(all[i], Xattr::Focus),
                Answer::Attribute(Ok(value)),
            )),
    ensures
        given(reconcile::reconcile_paths(state, all), allowed, undone(state)),
{
    lemma_look_fails(state, all, Seq::empty(), i, allowed);
}

/// Whether an answer says that a cgroup can be boosted, as far as the request asks.
pub open spec fn favourable(call: Call, answer: Answer) -> bool {
    match call {
        Call::Read(_) => restore::limits_in(answer) is Some,
        _ => request::succeeded(answer),
    }
}

/// A cgroup can be boosted if its limits can be read, extended attributes are supported, and
/// its limits can be written. It cannot if one of these is denied.
pub proof fn a_cgroup_is_eligible_if_nothing_is_denied(
    state: PolicyModel,
    path: PathModel,
    denied: Call,
)
    ensures
        given(
            register::eligible(state, path),
            |call: Call, answer: Answer| favourable(call, answer),
            |to: PolicyModel, done: bool| to == state && done,
        ),
        denied == Call::Read(restore::low_file(path)) || denied == Call::XattrsSupported(path)
            || denied == Call::Writable(restore::low_file(path)) ==> given(
            register::eligible(state, path),
            |call: Call, answer: Answer| call == denied ==> !favourable(call, answer),
            |to: PolicyModel, done: bool| to == state && !done,
        ),
{
    let fine = |call: Call, answer: Answer| favourable(call, answer);
    let yes = |to: PolicyModel, done: bool| to == state && done;
    let no = |to: PolicyModel, done: bool| to == state && !done;
    let bad = |call: Call, answer: Answer| call == denied ==> !favourable(call, answer);
    let read = Call::Read(restore::low_file(path));
    let support = Call::XattrsSupported(path);
    let writable = Call::Writable(restore::low_file(path));
    lemma_given(register::ask_writable(state, path), writable, fine, yes);
    lemma_given(register::ask_support(state, path), support, fine, yes);
    lemma_given(register::eligible(state, path), read, fine, yes);
    if denied == writable {
        lemma_given(register::ask_writable(state, path), writable, bad, no);
        lemma_given(register::ask_support(state, path), support, bad, no);
        lemma_given(register::eligible(state, path), read, bad, no);
    } else if denied == support {
        lemma_given(register::ask_support(state, path), support, bad, no);
        lemma_given(register::eligible(state, path), read, bad, no);
    } else if denied == read {
        lemma_given(register::eligible(state, path), read, bad, no);
    }
}

/// What is remembered of a cgroup that is newly tracked with a watch. Nothing else is new.
pub open spec fn newly_tracked(
    from: PolicyModel,
    to: PolicyModel,
    path: PathModel,
    watch: i32,
) -> bool {
    &&& paths::lookup(to.paths, path) == Some(watch)
    &&& paths::watched(to.watches, watch) == Some(path)
    &&& forall|other: i32|
        other != watch ==> #[trigger] paths::watched(to.watches, other) == paths::watched(
            from.watches,
            other,
        )
    &&& !to.pending_registration.contains(path)
    &&& to.pending_focus_checks.contains(path)
    &&& forall|other: PathModel| other != path ==> #[trigger] tracking::same_memory(from, to, other)
}

/// A cgroup that can be boosted and watched is tracked, with the watch that it got: what
/// comes from that watch is about the cgroup, and its focus is to be looked at. Where
/// something is denied it waits for its next try. Nothing changes for any other cgroup.
pub proof fn an_eligible_cgroup_is_tracked(
    state: PolicyModel,
    path: PathModel,
    watch: i32,
    denied: Call,
)
    requires
        state.watching,
        paths::lookup(state.paths, path) is None,
        !state.pending_registration.contains(path),
    ensures
        given(
            register::register(state, path),
            |call: Call, answer: Answer|
                if call == Call::AddWatch(path) {
                    answer == Answer::Watch(Ok(watch))
                } else {
                    favourable(call, answer)
                },
            |to: PolicyModel, done: bool| done && newly_tracked(state, to, path, watch),
        ),
        denied == Call::Read(restore::low_file(path)) || denied == Call::XattrsSupported(path)
            || denied == Call::Writable(restore::low_file(path)) ==> given(
            register::register(state, path),
            |call: Call, answer: Answer| call == denied ==> !favourable(call, answer),
            |to: PolicyModel, done: bool|
                {
                    &&& !done
                    &&& paths::lookup(to.paths, path) is None
                    &&& to.pending_registration.contains(path)
                    &&& forall|other: PathModel|
                        other != path ==> #[trigger] tracking::same_memory(state, to, other)
                },
        ),
{
    let from = register::registering(state, path);
    let next = |s: PolicyModel, eligible: bool|
        if eligible && s.watching {
            register::ask_watch(s, path)
        } else {
            Program::Done(s, false)
        };
    let fine = |call: Call, answer: Answer|
        if call == Call::AddWatch(path) {
            answer == Answer::Watch(Ok(watch))
        } else {
            favourable(call, answer)
        };
    let yes = |to: PolicyModel, done: bool| to == from && done;
    let no = |to: PolicyModel, done: bool| to == from && !done;
    let bad = |call: Call, answer: Answer| call == denied ==> !favourable(call, answer);
    let outcome = |to: PolicyModel, done: bool| done && newly_tracked(state, to, path, watch);
    let waiting = |to: PolicyModel, done: bool|
        {
            &&& !done
            &&& paths::lookup(to.paths, path) is None
            &&& to.pending_registration.contains(path)
            &&& forall|other: PathModel|
                other != path ==> #[trigger] tracking::same_memory(state, to, other)
        };
    let now = register::followed(from, path, watch);
    paths::lemma_with(state.pending_registration, path);
    paths::lemma_without(from.pending_registration, path);
    paths::lemma_with(state.pending_focus_checks, path);
    paths::lemma_filed(state.paths, path, watch);
    assert forall|other: PathModel| other != path implies #[trigger] tracking::same_memory(
        state,
        now,
        other,
    ) by {}
    assert(now.watches.drop_last() =~= paths::unwatched(from.watches, watch));
    assert(now.watches.last() == (watch, path));
    consistency::lemma_unwatched(from.watches, watch);
    assert forall|other: i32| other != watch implies #[trigger] paths::watched(now.watches, other)
        == paths::watched(state.watches, other) by {
        assert(paths::watched(now.watches, other) == paths::watched(
            paths::unwatched(from.watches, watch),
            other,
        ));
    }
    assert(newly_tracked(state, now, path, watch));
    let writable = Call::Writable(restore::low_file(path));
    lemma_given(register::ask_writable(from, path), writable, fine, yes);
    lemma_given(register::ask_support(from, path), Call::XattrsSupported(path), fine, yes);
    lemma_given(register::eligible(from, path), Call::Read(restore::low_file(path)), fine, yes);
    assert(outcome(now, true));
    lemma_given(register::ask_watch(from, path), Call::AddWatch(path), fine, outcome);
    lemma_given_bind(register::eligible(from, path), next, fine, yes, outcome);
    a_cgroup_is_eligible_if_nothing_is_denied(from, path, denied);
    if denied == Call::Read(restore::low_file(path)) || denied == Call::XattrsSupported(path)
        || denied == Call::Writable(restore::low_file(path)) {
        assert(waiting(from, false));
        lemma_given_bind(register::eligible(from, path), next, bad, no, waiting);
    }
}

/// A cgroup that is tracked is not registered again, and one that waits is not tried before
/// the next maintenance: nothing is asked, and nothing changes.
pub proof fn a_second_registration_asks_nothing(state: PolicyModel, path: PathModel)
    requires
        tracking::followed(state, path),
    ensures
        register::register(state, path) == Program::Done(
            state,
            paths::lookup(state.paths, path) is Some,
        ),
{
}

/// Without watches a cgroup is not tracked, whatever is answered: it waits.
pub proof fn without_watches_a_cgroup_waits(state: PolicyModel, path: PathModel)
    requires
        !state.watching,
        paths::lookup(state.paths, path) is None,
    ensures
        consistency::ends(
            register::register(state, path),
            |to: PolicyModel, done: bool|
                !done && to.paths == state.paths && to.pending_registration.contains(path),
        ),
{
    let outcome = |to: PolicyModel, done: bool|
        !done && to.paths == state.paths && to.pending_registration.contains(path);
    if !state.pending_registration.contains(path) {
        let from = register::registering(state, path);
        let same = consistency::either(from, from);
        let next = |s: PolicyModel, eligible: bool|
            if eligible && s.watching {
                register::ask_watch(s, path)
            } else {
                Program::Done(s, false)
            };
        paths::lemma_with(state.pending_registration, path);
        consistency::lemma_ends_ask(register::ask_writable(from, path), same);
        consistency::lemma_ends_ask(register::ask_support(from, path), same);
        consistency::lemma_ends_ask(register::eligible(from, path), same);
        consistency::lemma_ends_bind(register::eligible(from, path), next, same, outcome);
    }
}

/// A cgroup that has been deleted is not registered again.
pub proof fn a_deleted_cgroup_is_given_up(state: PolicyModel, path: PathModel)
    ensures
        given(
            each::work(Work::Retry, state, path),
            |call: Call, answer: Answer|
                call == Call::XattrsSupported(path) ==> answer == Answer::Done(
                    Err(IoFailure::NotFound),
                ),
            |to: PolicyModel, done: bool| to == state,
        ),
{
    lemma_given(
        each::ask_exists(state, path),
        Call::XattrsSupported(path),
        |call: Call, answer: Answer|
            call == Call::XattrsSupported(path) ==> answer == Answer::Done(
                Err(IoFailure::NotFound),
            ),
        |to: PolicyModel, done: bool| to == state,
    );
}

/// How tries to register end where nothing fails: the cgroups are tracked, and so are those
/// that were before.
spec fn all_tracked(from: PolicyModel, all: Seq<PathModel>, next: nat) -> spec_fn(
    World,
    PolicyModel,
    bool,
) -> bool {
    |now: World, to: PolicyModel, done: bool|
        {
            &&& to.watching
            &&& from.pending_registration.len() == 0 ==> to.pending_registration.len() == 0
            &&& forall|path: PathModel| #[trigger]
                paths::lookup(from.paths, path) is Some ==> paths::lookup(to.paths, path) is Some
            &&& forall|path: PathModel| #[trigger]
                shutdown::among(all, next, path) ==> paths::lookup(to.paths, path) is Some
        }
}

/// At any moment.
spec fn whenever() -> spec_fn(World) -> bool {
    |now: World| true
}

proof fn lemma_register_tracks(state: PolicyModel, path: PathModel, now: World)
    requires
        state.watching,
        state.pending_registration.len() == 0,
    ensures
        world::always(
            each::work(Work::Retry, state, path),
            now,
            false,
            whenever(),
            all_tracked(state, seq![path], 0),
        ),
{
    let outcome = all_tracked(state, seq![path], 0);
    assert forall|other: PathModel| #[trigger] shutdown::among(seq![path], 0, other) implies other
        == path by {
        let i = choose|i: int| 0 <= i < 1 && #[trigger] seq![path][i] == other;
    }
    if paths::lookup(state.paths, path) is None {
        let from = register::registering(state, path);
        let yes = |w: World, to: PolicyModel, done: bool| to == from && done;
        let next = |s: PolicyModel, eligible: bool|
            if eligible && s.watching {
                register::ask_watch(s, path)
            } else {
                Program::Done(s, false)
            };
        assert(!state.pending_registration.contains(path));
        assert forall|w: World|
            #![trigger world::always(register::ask_writable(from, path), w, false, whenever(), yes)]
            world::always(register::ask_writable(from, path), w, false, whenever(), yes) by {
            let call = Call::Writable(restore::low_file(path));
            assert forall|answer: Answer| #[trigger]
                world::possible(w, call, answer, false) implies world::always(
                program::after_answer(register::ask_writable(from, path), answer),
                world::after(w, call, answer),
                false,
                whenever(),
                yes,
            ) by {
                assert(yes(world::after(w, call, answer), from, true));
            }
        }
        assert forall|w: World|
            #![trigger world::always(register::ask_support(from, path), w, false, whenever(), yes)]
            world::always(register::ask_support(from, path), w, false, whenever(), yes) by {
            let call = Call::XattrsSupported(path);
            assert forall|answer: Answer| #[trigger]
                world::possible(w, call, answer, false) implies world::always(
                program::after_answer(register::ask_support(from, path), answer),
                world::after(w, call, answer),
                false,
                whenever(),
                yes,
            ) by {
                assert(world::always(
                    register::ask_writable(from, path),
                    world::after(w, call, answer),
                    false,
                    whenever(),
                    yes,
                ));
            }
        }
        assert(world::always(register::eligible(from, path), now, false, whenever(), yes)) by {
            let call = Call::Read(restore::low_file(path));
            assert forall|answer: Answer| #[trigger]
                world::possible(now, call, answer, false) implies world::always(
                program::after_answer(register::eligible(from, path), answer),
                world::after(now, call, answer),
                false,
                whenever(),
                yes,
            ) by {
                assert(world::always(
                    register::ask_support(from, path),
                    world::after(now, call, answer),
                    false,
                    whenever(),
                    yes,
                ));
            }
        }
        assert forall|w: World, s: PolicyModel, r: bool|
            whenever()(w) && #[trigger] yes(w, s, r) implies world::always(
            next(s, r),
            w,
            false,
            whenever(),
            outcome,
        ) by {
            let asked = register::ask_watch(from, path);
            assert forall|answer: Answer| #[trigger]
                world::possible(w, Call::AddWatch(path), answer, false) implies world::always(
                program::after_answer(asked, answer),
                world::after(w, Call::AddWatch(path), answer),
                false,
                whenever(),
                outcome,
            ) by {
                if let Answer::Watch(Ok(watch)) = answer {
                    let to = register::followed(from, path, watch);
                    paths::lemma_filed(from.paths, path, watch);
                    assert(from.pending_registration =~= seq![path]);
                    assert(from.pending_registration.drop_last() =~= Seq::empty());
                    assert(paths::without(from.pending_registration.drop_last(), path)
                        =~= Seq::empty());
                    assert(to.pending_registration.len() == 0);
                    assert(outcome(world::after(w, Call::AddWatch(path), answer), to, true));
                }
            }
        }
        world::lemma_always_bind(
            register::eligible(from, path),
            next,
            now,
            false,
            whenever(),
            yes,
            outcome,
        );
        assert(register::register(state, path) == program::bind(
            register::eligible(from, path),
            next,
        ));
    } else {
        assert(outcome(now, state, true));
    }
    let program = each::ask_exists(state, path);
    assert forall|answer: Answer| #[trigger]
        world::possible(now, Call::XattrsSupported(path), answer, false) implies world::always(
        program::after_answer(program, answer),
        world::after(now, Call::XattrsSupported(path), answer),
        false,
        whenever(),
        outcome,
    ) by {
        assert(world::after(now, Call::XattrsSupported(path), answer) == now);
    }
}

proof fn lemma_retries_track(state: PolicyModel, all: Seq<PathModel>, next: nat, now: World)
    requires
        state.watching,
        state.pending_registration.len() == 0,
    ensures
        world::always(
            each::each(Work::Retry, state, all, next),
            now,
            false,
            whenever(),
            all_tracked(state, all, next),
        ),
    decreases all.len() - next,
{
    let outcome = all_tracked(state, all, next);
    if next < all.len() {
        let one = all[next as int];
        let between = all_tracked(state, seq![one], 0);
        let then = |s: PolicyModel, done: bool| each::each(Work::Retry, s, all, next + 1);
        let sequence = |p: Program| each::and_each(p, Work::Retry, all, next + 1);
        operations::lemma_each_goes_on(Work::Retry, all, next + 1);
        lemma_register_tracks(state, one, now);
        assert forall|w: World, s: PolicyModel, r: bool|
            whenever()(w) && #[trigger] between(w, s, r) implies world::always(
            then(s, r),
            w,
            false,
            whenever(),
            outcome,
        ) by {
            let rest = all_tracked(s, all, next + 1);
            lemma_retries_track(s, all, next + 1, w);
            assert(seq![one][0] == one);
            assert(shutdown::among(seq![one], 0, one));
            assert forall|w2: World, s2: PolicyModel, r2: bool|
                whenever()(w2) && #[trigger] rest(w2, s2, r2) implies outcome(w2, s2, r2) by {
                assert forall|path: PathModel| #[trigger]
                    shutdown::among(all, next, path) implies paths::lookup(s2.paths, path)
                    is Some by {
                    crate::laws::focus::lemma_among(all, next, path);
                    if path == one {
                        assert(paths::lookup(s.paths, path) is Some);
                    }
                }
                assert forall|path: PathModel| #[trigger]
                    paths::lookup(state.paths, path) is Some implies paths::lookup(s2.paths, path)
                    is Some by {
                    assert(paths::lookup(s.paths, path) is Some);
                }
            }
            world::lemma_always_weaken(
                then(s, r),
                w,
                false,
                whenever(),
                rest,
                whenever(),
                outcome,
            );
        }
        world::lemma_always_sequence(
            each::work(Work::Retry, state, one),
            sequence,
            then,
            now,
            false,
            whenever(),
            between,
            outcome,
        );
    } else {
        assert forall|path: PathModel| !(#[trigger] shutdown::among(all, next, path)) by {
            if shutdown::among(all, next, path) {
                let i = choose|i: int| next <= i < all.len() && #[trigger] all[i] == path;
            }
        }
        assert(outcome(now, state, true));
    }
}

/// After a round of maintenance without faults, every cgroup that waited for its
/// registration is tracked, and so is every one that was before. None waits any more.
pub proof fn maintenance_tracks_what_waits(state: PolicyModel, now: World)
    requires
        state.watching,
    ensures
        world::always(
            maintenance::maintenance(state),
            now,
            false,
            |w: World| true,
            |w: World, to: PolicyModel, done: bool|
                {
                    &&& to.pending_registration.len() == 0
                    &&& forall|path: PathModel| #[trigger]
                        tracking::followed(state, path) ==> paths::lookup(to.paths, path) is Some
                },
        ),
{
    let held = whenever();
    let outcome = |w: World, to: PolicyModel, done: bool|
        {
            &&& to.pending_registration.len() == 0
            &&& forall|path: PathModel| #[trigger]
                tracking::followed(state, path) ==> paths::lookup(to.paths, path) is Some
        };
    let from = PolicyModel { pending_registration: Seq::empty(), ..state };
    let all = state.pending_registration;
    let retry = each::each(Work::Retry, from, all, 0);
    let between = all_tracked(from, all, 0);
    let next = |s: PolicyModel, done: bool| maintenance::survey(s);
    lemma_retries_track(from, all, 0, now);
    assert forall|w: World, s: PolicyModel, r: bool|
        held(w) && #[trigger] between(w, s, r) implies world::always(
        next(s, r),
        w,
        false,
        held,
        outcome,
    ) by {
        let any = |w2: World, s2: PolicyModel, r2: bool| true;
        tracking::surveying_keeps_the_tracking(s);
        lemma_always_any(maintenance::survey(s), w);
        assert forall|w2: World, s2: PolicyModel, r2: bool|
            held(w2) && any(w2, s2, r2) && tracking::tracking_kept(s)(
                s2,
                r2,
            ) implies #[trigger] outcome(w2, s2, r2) by {
            assert forall|path: PathModel| #[trigger]
                tracking::followed(state, path) implies paths::lookup(s2.paths, path) is Some by {
                if paths::lookup(state.paths, path) is Some {
                    assert(paths::lookup(from.paths, path) is Some);
                } else {
                    let i = choose|i: int| 0 <= i < all.len() && all[i] == path;
                    assert(all[i] == path);
                    assert(shutdown::among(all, 0, path));
                }
            }
        }
        crate::laws::maintenance::lemma_both(
            maintenance::survey(s),
            w,
            false,
            held,
            any,
            tracking::tracking_kept(s),
            outcome,
        );
    }
    world::lemma_always_bind(retry, next, now, false, held, between, outcome);
    world::lemma_always_weaken(
        maintenance::maintenance(state),
        now,
        false,
        held,
        outcome,
        |w: World| true,
        outcome,
    );
}

proof fn lemma_always_any(program: Program, now: World)
    ensures
        world::always(
            program,
            now,
            false,
            whenever(),
            |w: World, s: PolicyModel, r: bool| true,
        ),
    decreases program,
{
    if let Program::Ask(call, next) = program {
        assert forall|answer: Answer| #[trigger]
            world::possible(now, call, answer, false) implies world::always(
            next(answer),
            world::after(now, call, answer),
            false,
            whenever(),
            |w: World, s: PolicyModel, r: bool| true,
        ) by {
            lemma_always_any(next(answer), world::after(now, call, answer));
        }
    }
}

/// What holds whatever is answered holds for some answers.
proof fn lemma_given_any(
    program: Program,
    allowed: spec_fn(Call, Answer) -> bool,
    outcome: spec_fn(PolicyModel, bool) -> bool,
)
    requires
        consistency::ends(program, outcome),
    ensures
        given(program, allowed, outcome),
    decreases program,
{
    if let Program::Ask(call, next) = program {
        assert forall|answer: Answer| #[trigger] allowed(call, answer) implies given(
            next(answer),
            allowed,
            outcome,
        ) by {
            assert(consistency::ends(next(answer), outcome));
            lemma_given_any(next(answer), allowed, outcome);
        }
    }
}

/// Any failure but the absence of the cgroup keeps the try to register it alive: it is
/// tracked, or waits.
pub proof fn an_existing_cgroup_is_not_given_up(state: PolicyModel, path: PathModel)
    ensures
        given(
            each::work(Work::Retry, state, path),
            |call: Call, answer: Answer|
                call == Call::XattrsSupported(path) ==> answer != Answer::Done(
                    Err(IoFailure::NotFound),
                ),
            |to: PolicyModel, done: bool| tracking::followed(to, path),
        ),
{
    let allowed = |call: Call, answer: Answer|
        call == Call::XattrsSupported(path) ==> answer != Answer::Done(Err(IoFailure::NotFound));
    let outcome = |to: PolicyModel, done: bool| tracking::followed(to, path);
    let registered = |to: PolicyModel, done: bool|
        if done {
            paths::lookup(to.paths, path) is Some
        } else {
            to.pending_registration.contains(path)
        };
    crate::laws::maintenance::a_registration_succeeds_or_waits(state, path);
    consistency::lemma_ends_weaken(register::register(state, path), registered, outcome);
    lemma_given_any(register::register(state, path), allowed, outcome);
    lemma_given(
        each::ask_exists(state, path),
        Call::XattrsSupported(path),
        allowed,
        outcome,
    );
}

/// Where there is no record, or no cgroup any more, nothing is left to restore. Where it
/// cannot be told whether there is a record, the restoration is outstanding. Either way the
/// cgroup is not boosted any more.
pub proof fn a_restoration_needs_a_record(state: PolicyModel, path: PathModel)
    ensures
        given(
            restore::restore(state, path),
            |call: Call, answer: Answer|
                call == Call::GetXattr(path, Xattr::State) ==> answer == Answer::Attribute(Ok(None))
                    || answer == Answer::Attribute(Err(IoFailure::NotFound)),
            |to: PolicyModel, done: bool|
                !to.pending_restore.contains(path) && !to.pending_apply.contains(path)
                    && to.foreground != Some(path),
        ),
        given(
            restore::restore(state, path),
            |call: Call, answer: Answer|
                call == Call::GetXattr(path, Xattr::State) ==> !(answer is Attribute) || (
                answer->Attribute_0 is Err && answer != Answer::Attribute(
                    Err(IoFailure::NotFound),
                )),
            |to: PolicyModel, done: bool|
                to.pending_restore.contains(path) && !to.pending_apply.contains(path)
                    && to.foreground != Some(path),
        ),
{
    let from = restore::releasing(state, path);
    let call = Call::GetXattr(path, Xattr::State);
    paths::lemma_with(state.pending_restore, path);
    paths::lemma_without(from.pending_restore, path);
    paths::lemma_without(state.pending_apply, path);
    lemma_given(
        restore::restore(state, path),
        call,
        |call: Call, answer: Answer|
            call == Call::GetXattr(path, Xattr::State) ==> answer == Answer::Attribute(Ok(None))
                || answer == Answer::Attribute(Err(IoFailure::NotFound)),
        |to: PolicyModel, done: bool|
            !to.pending_restore.contains(path) && !to.pending_apply.contains(path)
                && to.foreground != Some(path),
    );
    lemma_given(
        restore::restore(state, path),
        call,
        |call: Call, answer: Answer|
            call == Call::GetXattr(path, Xattr::State) ==> !(answer is Attribute) || (
            answer->Attribute_0 is Err && answer != Answer::Attribute(Err(IoFailure::NotFound))),
        |to: PolicyModel, done: bool|
            to.pending_restore.contains(path) && !to.pending_apply.contains(path)
                && to.foreground != Some(path),
    );
}

/// Nothing is boosted that was not, and no boost is outstanding that was not.
spec fn no_boost(from: PolicyModel) -> spec_fn(PolicyModel, bool) -> bool {
    |to: PolicyModel, done: bool|
        {
            &&& to.foreground is None || to.foreground == from.foreground
            &&& to.focus_values == from.focus_values
            &&& forall|path: PathModel| #[trigger]
                to.pending_apply.contains(path) ==> from.pending_apply.contains(path)
        }
}

proof fn lemma_restoring_boosts_nothing(state: PolicyModel, all: Seq<PathModel>, next: nat)
    ensures
        consistency::ends(each::each(Work::Restore, state, all, next), no_boost(state)),
    decreases all.len() - next,
{
    let outcome = no_boost(state);
    if next < all.len() {
        let one = all[next as int];
        let releasing = restore::releasing(state, one);
        let between = consistency::either(releasing, restore::released(releasing, one));
        let then = |s: PolicyModel, done: bool| each::each(Work::Restore, s, all, next + 1);
        let sequence = |p: Program| each::and_each(p, Work::Restore, all, next + 1);
        operations::lemma_each_goes_on(Work::Restore, all, next + 1);
        consistency::lemma_restore(state, one);
        paths::lemma_without(state.pending_apply, one);
        assert forall|s: PolicyModel, r: bool| #[trigger] between(s, r) implies consistency::ends(
            then(s, r),
            outcome,
        ) by {
            lemma_restoring_boosts_nothing(s, all, next + 1);
            assert forall|s2: PolicyModel, r2: bool| #[trigger]
                no_boost(s)(s2, r2) implies outcome(s2, r2) by {
                assert forall|path: PathModel| #[trigger]
                    s2.pending_apply.contains(path) implies state.pending_apply.contains(path) by {
                    assert(s.pending_apply.contains(path));
                }
            }
            consistency::lemma_ends_weaken(then(s, r), no_boost(s), outcome);
        }
        consistency::lemma_ends_sequence(
            each::work(Work::Restore, state, one),
            sequence,
            then,
            between,
            outcome,
        );
    }
}

/// Where the focus of a cgroup that is tracked or known cannot be read, a round of
/// maintenance boosts nothing, learns nothing of the focus and wants no boost that was not
/// wanted before.
pub proof fn an_incomplete_look_leads_to_no_boost(
    state: PolicyModel,
    path: PathModel,
    allowed: spec_fn(Call, Answer) -> bool,
)
    requires
        paths::lookup(state.paths, path) is Some || paths::lookup(state.focus_values, path)
            is Some,
        forall|value: Option<Seq<u8>>|
            !(#[trigger] allowed(
                Call::GetXattr(path, Xattr::Focus),
                Answer::Attribute(Ok(value)),
            )),
    ensures
        given(
            maintenance::maintenance(state),
            allowed,
            |to: PolicyModel, done: bool|
                {
                    &&& to.foreground is None || to.foreground == state.foreground
                    &&& to.focus_values == state.focus_values
                    &&& forall|other: PathModel| #[trigger]
                        to.pending_apply.contains(other) ==> state.pending_apply.contains(other)
                },
        ),
{
    let outcome = |to: PolicyModel, done: bool|
        {
            &&& to.foreground is None || to.foreground == state.foreground
            &&& to.focus_values == state.focus_values
            &&& forall|other: PathModel| #[trigger]
                to.pending_apply.contains(other) ==> state.pending_apply.contains(other)
        };
    let from = PolicyModel { pending_registration: Seq::empty(), ..state };
    let all = state.pending_registration;
    let retry = each::each(Work::Retry, from, all, 0);
    let between = steady(from, all);
    let next = |s: PolicyModel, done: bool| maintenance::survey(s);
    crate::laws::maintenance::lemma_retry(from, from, all, 0);
    lemma_given_any(retry, allowed, between);
    assert forall|s: PolicyModel, r: bool| #[trigger] between(s, r) implies given(
        next(s, r),
        allowed,
        outcome,
    ) by {
        let restore = s.pending_restore;
        let apply = s.pending_apply;
        let known = maintenance::known_paths(s);
        let look = reconcile::reconcile_paths(s, known);
        let unseen = undone(s);
        let after = |s2: PolicyModel, complete: bool|
            maintenance::and_apply(each::each(Work::Restore, s2, restore, 0), complete, apply);
        crate::laws::maintenance::maintenance_looks_at_what_is_known(s);
        if paths::lookup(state.paths, path) is Some {
            assert(paths::lookup(from.paths, path) is Some);
        }
        assert(known.contains(path));
        let i = choose|i: int| 0 <= i < known.len() && known[i] == path;
        an_incomplete_look_changes_nothing(s, known, i, allowed);
        assert forall|s2: PolicyModel, complete: bool| #[trigger]
            unseen(s2, complete) implies given(after(s2, complete), allowed, outcome) by {
            let then = |s3: PolicyModel, done: bool|
                if complete {
                    each::each(Work::Apply, maintenance::hopeful(s3), apply, 0)
                } else {
                    Program::Done(s3, true)
                };
            lemma_restoring_boosts_nothing(s, restore, 0);
            lemma_given_any(each::each(Work::Restore, s, restore, 0), allowed, no_boost(s));
            assert forall|s3: PolicyModel, done: bool| #[trigger]
                no_boost(s)(s3, done) implies given(then(s3, done), allowed, outcome) by {
                assert(outcome(s3, true));
            }
            lemma_given_bind(
                each::each(Work::Restore, s, restore, 0),
                then,
                allowed,
                no_boost(s),
                outcome,
            );
        }
        lemma_given_bind(look, after, allowed, unseen, outcome);
    }
    lemma_given_bind(retry, next, allowed, between, outcome);
}

/// Every watch of a tracked cgroup is a good one.
pub open spec fn well_watched(
    state: PolicyModel,
    good: spec_fn(i32) -> bool,
) -> bool {
    forall|path: PathModel|
        #[trigger] paths::lookup(state.paths, path) matches Some(watch) ==> good(watch)
}

/// Only good watches are given.
pub open spec fn giving(good: spec_fn(i32) -> bool) -> spec_fn(Call, Answer) -> bool {
    |call: Call, answer: Answer| answer matches Answer::Watch(Ok(watch)) ==> good(watch)
}

proof fn lemma_register_watches(state: PolicyModel, path: PathModel, good: spec_fn(i32) -> bool)
    requires
        well_watched(state, good),
        state.watching,
    ensures
        given(
            register::register(state, path),
            giving(good),
            |to: PolicyModel, done: bool| well_watched(to, good) && to.watching,
        ),
{
    let outcome = |to: PolicyModel, done: bool| well_watched(to, good) && to.watching;
    if paths::lookup(state.paths, path) is None && !state.pending_registration.contains(path) {
        let from = register::registering(state, path);
        let same = consistency::either(from, from);
        let next = |s: PolicyModel, eligible: bool|
            if eligible && s.watching {
                register::ask_watch(s, path)
            } else {
                Program::Done(s, false)
            };
        consistency::lemma_ends_ask(register::ask_writable(from, path), same);
        consistency::lemma_ends_ask(register::ask_support(from, path), same);
        consistency::lemma_ends_ask(register::eligible(from, path), same);
        lemma_given_any(register::eligible(from, path), giving(good), same);
        assert(outcome(from, false));
        assert forall|s: PolicyModel, r: bool| #[trigger] same(s, r) implies given(
            next(s, r),
            giving(good),
            outcome,
        ) by {
            let asked = register::ask_watch(from, path);
            assert forall|answer: Answer| giving(good)(Call::AddWatch(path), answer) implies given(
                #[trigger] program::after_answer(asked, answer),
                giving(good),
                outcome,
            ) by {
                if let Answer::Watch(Ok(watch)) = answer {
                    paths::lemma_filed(from.paths, path, watch);
                    assert(outcome(register::followed(from, path, watch), true));
                }
            }
            lemma_given(asked, Call::AddWatch(path), giving(good), outcome);
        }
        lemma_given_bind(register::eligible(from, path), next, giving(good), same, outcome);
    }
}

proof fn lemma_given_sequence(
    first: Program,
    sequence: spec_fn(Program) -> Program,
    next: spec_fn(PolicyModel, bool) -> Program,
    allowed: spec_fn(Call, Answer) -> bool,
    between: spec_fn(PolicyModel, bool) -> bool,
    outcome: spec_fn(PolicyModel, bool) -> bool,
)
    requires
        world::goes_on(sequence, next),
        given(first, allowed, between),
        forall|s: PolicyModel, r: bool| #[trigger]
            between(s, r) ==> given(next(s, r), allowed, outcome),
    ensures
        given(sequence(first), allowed, outcome),
    decreases first,
{
    match first {
        Program::Done(state, result) => {
            assert(between(state, result));
            assert(sequence(Program::Done(state, result)) == next(state, result));
        },
        Program::Ask(call, then) => {
            assert(program::asked(sequence(first)) == Some(call));
            assert forall|answer: Answer| allowed(call, answer) implies given(
                #[trigger] program::after_answer(sequence(first), answer),
                allowed,
                outcome,
            ) by {
                lemma_given_sequence(then(answer), sequence, next, allowed, between, outcome);
                assert(program::after_answer(first, answer) == then(answer));
            }
            lemma_given(sequence(first), call, allowed, outcome);
        },
    }
}

proof fn lemma_each_watches(
    state: PolicyModel,
    all: Seq<PathModel>,
    next: nat,
    good: spec_fn(i32) -> bool,
)
    requires
        well_watched(state, good),
        state.watching,
    ensures
        given(
            each::each(Work::Register, state, all, next),
            giving(good),
            |to: PolicyModel, done: bool| well_watched(to, good) && to.watching,
        ),
    decreases all.len() - next,
{
    let outcome = |to: PolicyModel, done: bool| well_watched(to, good) && to.watching;
    if next < all.len() {
        let one = all[next as int];
        let then = |s: PolicyModel, done: bool| each::each(Work::Register, s, all, next + 1);
        let sequence = |p: Program| each::and_each(p, Work::Register, all, next + 1);
        operations::lemma_each_goes_on(Work::Register, all, next + 1);
        lemma_register_watches(state, one, good);
        assert forall|s: PolicyModel, r: bool| #[trigger] outcome(s, r) implies given(
            then(s, r),
            giving(good),
            outcome,
        ) by {
            lemma_each_watches(s, all, next + 1, good);
        }
        lemma_given_sequence(
            each::work(Work::Register, state, one),
            sequence,
            then,
            giving(good),
            outcome,
            outcome,
        );
    } else {
        assert(outcome(state, true));
    }
}

/// When every watch is made anew, no cgroup keeps the watch that it had: whatever is tracked
/// afterwards has a watch that has just been given. Where the watches cannot be made anew
/// there are none from then on.
pub proof fn a_rebuild_makes_new_watches(state: PolicyModel, good: spec_fn(i32) -> bool)
    requires
        state.watching,
    ensures
        given(
            events::rebuild_watches(state),
            giving(good),
            |to: PolicyModel, done: bool| well_watched(to, good),
        ),
        given(
            events::rebuild_watches(state),
            |call: Call, answer: Answer| call == Call::ResetWatches ==> request::succeeded(answer),
            |to: PolicyModel, done: bool| to.watching,
        ),
        given(
            events::rebuild_watches(state),
            |call: Call, answer: Answer| call == Call::ResetWatches ==> !request::succeeded(answer),
            |to: PolicyModel, done: bool|
                !to.watching && to.watches.len() == 0 && to.paths.len() == 0 && to.foreground
                    == state.foreground && to.pending_restore == state.pending_restore
                    && to.pending_apply == state.pending_apply,
        ),
{
    let blank = events::checked(events::untied(state));
    let all = paths::keys(state.paths);
    let outcome = |to: PolicyModel, done: bool| well_watched(to, good);
    let both = |to: PolicyModel, done: bool| well_watched(to, good) && to.watching;
    let any = |watch: i32| true;
    let rebuild = events::rebuild_watches(state);
    let each = each::each(Work::Register, blank, all, 0);
    lemma_each_watches(blank, all, 0, good);
    lemma_given_weaken(each, giving(good), both, outcome);
    lemma_given(rebuild, Call::ResetWatches, giving(good), outcome);
    let reset = |call: Call, answer: Answer|
        call == Call::ResetWatches ==> request::succeeded(answer);
    let watching = |to: PolicyModel, done: bool| to.watching;
    let anyhow = |to: PolicyModel, done: bool| well_watched(to, any) && to.watching;
    lemma_each_watches(blank, all, 0, any);
    lemma_given_weaken(each, giving(any), anyhow, watching);
    lemma_given_ends(each, any, watching);
    lemma_given_any(each, reset, watching);
    lemma_given(rebuild, Call::ResetWatches, reset, watching);
    lemma_given(
        rebuild,
        Call::ResetWatches,
        |call: Call, answer: Answer| call == Call::ResetWatches ==> !request::succeeded(answer),
        |to: PolicyModel, done: bool|
            !to.watching && to.watches.len() == 0 && to.paths.len() == 0 && to.foreground
                == state.foreground && to.pending_restore == state.pending_restore
                && to.pending_apply == state.pending_apply,
    );
}

proof fn lemma_given_weaken(
    program: Program,
    allowed: spec_fn(Call, Answer) -> bool,
    outcome: spec_fn(PolicyModel, bool) -> bool,
    weaker: spec_fn(PolicyModel, bool) -> bool,
)
    requires
        given(program, allowed, outcome),
        forall|s: PolicyModel, r: bool| #[trigger] outcome(s, r) ==> weaker(s, r),
    ensures
        given(program, allowed, weaker),
    decreases program,
{
    match program {
        Program::Done(state, result) => {
            assert(outcome(state, result));
        },
        Program::Ask(call, next) => {
            assert forall|answer: Answer| #[trigger] allowed(call, answer) implies given(
                next(answer),
                allowed,
                weaker,
            ) by {
                lemma_given_weaken(next(answer), allowed, outcome, weaker);
            }
        },
    }
}

/// Where every watch is good, every answer is given.
proof fn lemma_given_ends(
    program: Program,
    any: spec_fn(i32) -> bool,
    outcome: spec_fn(PolicyModel, bool) -> bool,
)
    requires
        forall|watch: i32| #[trigger] any(watch),
        given(program, giving(any), outcome),
    ensures
        consistency::ends(program, outcome),
    decreases program,
{
    if let Program::Ask(call, next) = program {
        assert forall|answer: Answer|
            consistency::ends(#[trigger] program::after_answer(program, answer), outcome) by {
            assert(giving(any)(call, answer));
            lemma_given_ends(next(answer), any, outcome);
        }
        consistency::lemma_ends_ask(program, outcome);
    }
}

/// Whether a request has not brought what it was made for.
pub open spec fn in_vain(call: Call, answer: Answer) -> bool {
    match call {
        Call::Read(_) => restore::limits_in(answer) is None,
        Call::GetXattr(_, _) => !(answer is Attribute && answer->Attribute_0 is Ok),
        _ => !request::succeeded(answer),
    }
}

/// In every run of an operation, once one of the requests that count has been in vain, no
/// other one is made.
pub open spec fn stops(program: Program, counts: spec_fn(Call) -> bool) -> bool
    decreases program,
{
    match program {
        Program::Done(_, _) => true,
        Program::Ask(call, next) => forall|answer: Answer|
            #![trigger next(answer)]
            if counts(call) && in_vain(call, answer) {
                next(answer) is Done
            } else {
                stops(next(answer), counts)
            },
    }
}

proof fn lemma_stops(program: Program, call: Call, counts: spec_fn(Call) -> bool)
    requires
        program::asked(program) == Some(call),
        forall|answer: Answer|
            #![trigger program::after_answer(program, answer)]
            if counts(call) && in_vain(call, answer) {
                program::after_answer(program, answer) is Done
            } else {
                stops(program::after_answer(program, answer), counts)
            },
    ensures
        stops(program, counts),
{
    if let Program::Ask(_, next) = program {
        assert forall|answer: Answer|
            #![trigger next(answer)]
            if counts(call) && in_vain(call, answer) {
                next(answer) is Done
            } else {
                stops(next(answer), counts)
            } by {
            assert(program::after_answer(program, answer) == next(answer));
        }
    }
}

/// Every request.
pub open spec fn every() -> spec_fn(Call) -> bool {
    |call: Call| true
}

/// Every request but the writing of limits.
pub open spec fn but_writes() -> spec_fn(Call) -> bool {
    |call: Call| !(call is WriteDmem)
}

proof fn lemma_recover_writes_stop(
    state: PolicyModel,
    path: PathModel,
    waiting: RecordModel,
    next: nat,
)
    ensures
        stops(recover::recover_writes(state, path, waiting, next), every()),
    decreases waiting.len() - next,
{
    if next < waiting.len() {
        let (region, entry) = waiting[next as int];
        lemma_recover_writes_stop(state, path, waiting, next + 1);
        lemma_stops(
            recover::recover_writes(state, path, waiting, next),
            Call::WriteDmem(restore::low_file(path), region, entry.applied),
            every(),
        );
    }
}

/// A recovery ends with the first request that is in vain.
pub proof fn a_recovery_stops_at_the_first_failure(state: PolicyModel, path: PathModel)
    ensures
        stops(recover::recover(state, path), every()),
{
    let program = recover::recover(state, path);
    assert forall|answer: Answer|
        #![trigger program::after_answer(program, answer)]
        if every()(Call::GetXattr(path, Xattr::State)) && in_vain(
            Call::GetXattr(path, Xattr::State),
            answer,
        ) {
            program::after_answer(program, answer) is Done
        } else {
            stops(program::after_answer(program, answer), every())
        } by {
        if let Answer::Attribute(Ok(Some(bytes))) = answer {
            if let Ok(record) = recovery::record_of(bytes) {
                lemma_recover_limits_stop(state, path, bytes, record);
            }
        }
    }
    lemma_stops(program, Call::GetXattr(path, Xattr::State), every());
}

proof fn lemma_recover_limits_stop(
    state: PolicyModel,
    path: PathModel,
    bytes: Seq<u8>,
    record: RecordModel,
)
    ensures
        stops(recover::ask_limits(state, path, bytes, record), every()),
{
    let program = recover::ask_limits(state, path, bytes, record);
    let call = Call::Read(restore::low_file(path));
    assert forall|answer: Answer|
        #![trigger program::after_answer(program, answer)]
        if every()(call) && in_vain(call, answer) {
            program::after_answer(program, answer) is Done
        } else {
            stops(program::after_answer(program, answer), every())
        } by {
        if let Some(current) = restore::limits_in(answer) {
            let known = recovery::select(record, current, Standing::Known);
            let waiting = recovery::select(known, current, Standing::Baseline);
            lemma_recover_writes_stop(state, path, waiting, 0);
            lemma_stops(
                recover::ask_forget(state, path),
                Call::RemoveXattr(path, Xattr::State),
                every(),
            );
            lemma_stops(
                recover::ask_refresh(state, path, known, waiting),
                Call::SetXattr(path, Xattr::State, recovery::record_bytes(known)),
                every(),
            );
        }
    }
    lemma_stops(program, call, every());
}

proof fn lemma_restore_writes_stop(
    state: PolicyModel,
    path: PathModel,
    boosted: RecordModel,
    next: nat,
    failed: RecordModel,
)
    ensures
        stops(restore::restore_writes(state, path, boosted, next, failed), but_writes()),
    decreases boosted.len() - next,
{
    let program = restore::restore_writes(state, path, boosted, next, failed);
    if next < boosted.len() {
        let (region, entry) = boosted[next as int];
        let call = Call::WriteDmem(restore::low_file(path), region, entry.baseline);
        assert forall|answer: Answer|
            #![trigger program::after_answer(program, answer)]
            if but_writes()(call) && in_vain(call, answer) {
                program::after_answer(program, answer) is Done
            } else {
                stops(program::after_answer(program, answer), but_writes())
            } by {
            let more = if request::succeeded(answer) {
                failed
            } else {
                table::put(failed, region, entry)
            };
            lemma_restore_writes_stop(state, path, boosted, next + 1, more);
        }
        lemma_stops(program, call, but_writes());
    } else {
        lemma_stops(
            restore::ask_clear(state, path),
            Call::RemoveXattr(path, Xattr::State),
            but_writes(),
        );
        lemma_stops(
            restore::ask_keep(state, path, failed),
            Call::SetXattr(path, Xattr::State, recovery::record_bytes(failed)),
            but_writes(),
        );
    }
}

/// A restoration goes on where a limit fails to be written, but ends with any other request
/// that is in vain: nothing is written where the record or the limits cannot be read, or the
/// record cannot be stored.
pub proof fn a_restoration_stops_unless_a_write_fails(state: PolicyModel, path: PathModel)
    ensures
        stops(restore::restore(state, path), but_writes()),
{
    let from = restore::releasing(state, path);
    let program = restore::restore(state, path);
    let call = Call::GetXattr(path, Xattr::State);
    assert forall|answer: Answer|
        #![trigger program::after_answer(program, answer)]
        if but_writes()(call) && in_vain(call, answer) {
            program::after_answer(program, answer) is Done
        } else {
            stops(program::after_answer(program, answer), but_writes())
        } by {
        if let Answer::Attribute(Ok(Some(bytes))) = answer {
            if let Ok(record) = recovery::record_of(bytes) {
                lemma_restore_limits_stop(from, path, bytes, record);
            }
        }
    }
    lemma_stops(program, call, but_writes());
}

proof fn lemma_restore_limits_stop(
    state: PolicyModel,
    path: PathModel,
    bytes: Seq<u8>,
    record: RecordModel,
)
    ensures
        stops(restore::ask_limits(state, path, bytes, record), but_writes()),
{
    let program = restore::ask_limits(state, path, bytes, record);
    let call = Call::Read(restore::low_file(path));
    assert forall|answer: Answer|
        #![trigger program::after_answer(program, answer)]
        if but_writes()(call) && in_vain(call, answer) {
            program::after_answer(program, answer) is Done
        } else {
            stops(program::after_answer(program, answer), but_writes())
        } by {
        if let Some(current) = restore::limits_in(answer) {
            let boosted = recovery::select(record, current, Standing::Applied);
            lemma_restore_writes_stop(state, path, boosted, 0, Seq::empty());
            lemma_stops(
                restore::ask_clear(state, path),
                Call::RemoveXattr(path, Xattr::State),
                but_writes(),
            );
            lemma_stops(
                restore::ask_narrow(state, path, boosted),
                Call::SetXattr(path, Xattr::State, recovery::record_bytes(boosted)),
                but_writes(),
            );
        }
    }
    lemma_stops(program, call, but_writes());
}

proof fn lemma_roll_back_stops(
    state: PolicyModel,
    path: PathModel,
    record: RecordModel,
    written: nat,
    next: nat,
    clean: bool,
)
    ensures
        stops(activate::roll_back(state, path, record, written, next, clean), but_writes()),
    decreases written - next,
{
    let program = activate::roll_back(state, path, record, written, next, clean);
    if next < written {
        let (region, entry) = record[next as int];
        let call = Call::WriteDmem(restore::low_file(path), region, entry.baseline);
        assert forall|answer: Answer|
            #![trigger program::after_answer(program, answer)]
            if but_writes()(call) && in_vain(call, answer) {
                program::after_answer(program, answer) is Done
            } else {
                stops(program::after_answer(program, answer), but_writes())
            } by {
            let still = clean && request::succeeded(answer);
            lemma_roll_back_stops(state, path, record, written, next + 1, still);
        }
        lemma_stops(program, call, but_writes());
    } else {
        lemma_stops(
            activate::ask_discard(state, path),
            Call::RemoveXattr(path, Xattr::State),
            but_writes(),
        );
    }
}

proof fn lemma_boost_writes_stop(
    state: PolicyModel,
    path: PathModel,
    record: RecordModel,
    next: nat,
)
    ensures
        stops(activate::boost_writes(state, path, record, next), but_writes()),
    decreases record.len() - next,
{
    if next < record.len() {
        let (region, entry) = record[next as int];
        lemma_boost_writes_stop(state, path, record, next + 1);
        lemma_roll_back_stops(state, path, record, next, 0, true);
        lemma_stops(
            activate::boost_writes(state, path, record, next),
            Call::WriteDmem(restore::low_file(path), region, entry.applied),
            but_writes(),
        );
    }
}

/// A boost without a record to take up ends with any request that is in vain, but for a
/// limit that fails to be written: nothing is written where the capacities or the limits
/// cannot be read, or the record cannot be stored.
pub proof fn a_boost_stops_unless_a_write_fails(state: PolicyModel, path: PathModel)
    ensures
        stops(activate::ask_capacity(state, path), but_writes()),
{
    let program = activate::ask_capacity(state, path);
    let call = Call::Read(activate::capacity_file(state.root));
    assert forall|answer: Answer|
        #![trigger program::after_answer(program, answer)]
        if but_writes()(call) && in_vain(call, answer) {
            program::after_answer(program, answer) is Done
        } else {
            stops(program::after_answer(program, answer), but_writes())
        } by {
        if let Some(capacity) = restore::limits_in(answer) {
            let asked = activate::ask_limits(state, path, capacity);
            let read = Call::Read(restore::low_file(path));
            assert forall|content: Answer|
                #![trigger program::after_answer(asked, content)]
                if but_writes()(read) && in_vain(read, content) {
                    program::after_answer(asked, content) is Done
                } else {
                    stops(program::after_answer(asked, content), but_writes())
                } by {
                if let Some(current) = restore::limits_in(content) {
                    let record = recovery::boosts(capacity, current);
                    lemma_boost_writes_stop(state, path, record, 0);
                    lemma_stops(
                        activate::ask_persist(state, path, record),
                        Call::SetXattr(path, Xattr::State, recovery::record_bytes(record)),
                        but_writes(),
                    );
                }
            }
            lemma_stops(asked, read, but_writes());
        }
    }
    lemma_stops(program, call, but_writes());
}

}
