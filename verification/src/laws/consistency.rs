//! What the policy remembers makes sense, whatever the system answers.

use crate::activate;
use crate::each;
use crate::each::Work;
use crate::events;
use crate::focus;
use crate::laws::operations;
use crate::maintenance;
use crate::path::PathModel;
use crate::paths;
use crate::policy;
use crate::program;
use crate::program::Program;
use crate::reconcile;
use crate::recover;
use crate::recovery;
use crate::recovery::{RecordModel, Standing};
use crate::register;
use crate::request;
use crate::request::Answer;
use crate::restore;
use crate::state;
use crate::state::PolicyModel;
use crate::untrack;
use crate::watch::WatchEvent;
use crate::world;
use vstd::prelude::*;

verus! {

/// What may be asked of what the policy remembers. Each stands for itself: an operation
/// keeps it whether or not the others hold.
pub struct Aspects {
    /// The boosted cgroup's boost or restoration is not outstanding.
    pub foreground: bool,
    /// The rivals for the focus are the cgroups that are known to claim it, where there are
    /// two or more, and none otherwise.
    pub rivals: bool,
    /// A cgroup that is tracked does not wait for its registration.
    pub registrations: bool,
    /// Every watch watches a cgroup that is tracked with that watch.
    pub watches: bool,
}

/// The boosted cgroup's boost or restoration is not outstanding.
pub open spec fn foreground_is_settled(state: PolicyModel) -> bool {
    state.foreground matches Some(path) ==> !state.pending_apply.contains(path)
        && !state.pending_restore.contains(path)
}

/// The rivals for the focus are the cgroups that are known to claim it, where there are two
/// or more, and none otherwise.
pub open spec fn rivals_are_known(state: PolicyModel) -> bool {
    let claimants = focus::claimants(state.focus_values);
    &&& state.ambiguous_active.no_duplicates()
    &&& forall|path: PathModel| #[trigger]
        state.ambiguous_active.contains(path) <==> claimants.len() >= 2 && claimants.contains(path)
}

/// A cgroup that is tracked does not wait for its registration.
pub open spec fn registrations_are_open(state: PolicyModel) -> bool {
    forall|path: PathModel| #[trigger]
        state.pending_registration.contains(path) ==> paths::lookup(state.paths, path) is None
}

/// Every watch watches a cgroup that is tracked with that watch.
pub open spec fn watches_are_tied(state: PolicyModel) -> bool {
    forall|watch: i32| #[trigger]
        paths::watched(state.watches, watch) matches Some(path) ==> paths::lookup(state.paths, path)
            == Some(watch)
}

/// What the policy remembers makes sense in these aspects.
pub open spec fn sound(aspects: Aspects, state: PolicyModel) -> bool {
    &&& aspects.foreground ==> foreground_is_settled(state)
    &&& aspects.rivals ==> rivals_are_known(state)
    &&& aspects.registrations ==> registrations_are_open(state)
    &&& aspects.watches ==> watches_are_tied(state)
}

/// However the system answers, an operation ends like that.
pub open spec fn ends(program: Program, outcome: spec_fn(PolicyModel, bool) -> bool) -> bool
    decreases program,
{
    match program {
        Program::Done(state, result) => outcome(state, result),
        Program::Ask(_, next) => forall|answer: Answer| ends(#[trigger] next(answer), outcome),
    }
}

/// With a memory that makes sense in these aspects.
pub open spec fn soundly(aspects: Aspects) -> spec_fn(PolicyModel, bool) -> bool {
    |state: PolicyModel, result: bool| sound(aspects, state)
}

/// How an operation and the one that follows it end.
pub proof fn lemma_ends_sequence(
    first: Program,
    sequence: spec_fn(Program) -> Program,
    next: spec_fn(PolicyModel, bool) -> Program,
    between: spec_fn(PolicyModel, bool) -> bool,
    outcome: spec_fn(PolicyModel, bool) -> bool,
)
    requires
        world::goes_on(sequence, next),
        ends(first, between),
        forall|s: PolicyModel, r: bool| #[trigger] between(s, r) ==> ends(next(s, r), outcome),
    ensures
        ends(sequence(first), outcome),
    decreases first,
{
    match first {
        Program::Done(state, result) => {
            assert(between(state, result));
            assert(sequence(Program::Done(state, result)) == next(state, result));
        },
        Program::Ask(call, then) => {
            assert(program::asked(sequence(first)) == Some(call));
            assert forall|answer: Answer|
                ends(#[trigger] program::after_answer(sequence(first), answer), outcome) by {
                assert(ends(then(answer), between));
                lemma_ends_sequence(then(answer), sequence, next, between, outcome);
                assert(program::after_answer(first, answer) == then(answer));
            }
            lemma_ends_ask(sequence(first), outcome);
        },
    }
}

/// An operation ends like that if it does so after every answer.
pub proof fn lemma_ends_ask(program: Program, outcome: spec_fn(PolicyModel, bool) -> bool)
    requires
        program is Ask,
        forall|answer: Answer| ends(#[trigger] program::after_answer(program, answer), outcome),
    ensures
        ends(program, outcome),
{
    if let Program::Ask(call, next) = program {
        assert forall|answer: Answer| ends(#[trigger] next(answer), outcome) by {
            assert(ends(program::after_answer(program, answer), outcome));
        }
    }
}

/// How two operations in sequence end.
pub proof fn lemma_ends_bind(
    first: Program,
    next: spec_fn(PolicyModel, bool) -> Program,
    between: spec_fn(PolicyModel, bool) -> bool,
    outcome: spec_fn(PolicyModel, bool) -> bool,
)
    requires
        ends(first, between),
        forall|s: PolicyModel, r: bool| #[trigger] between(s, r) ==> ends(next(s, r), outcome),
    ensures
        ends(program::bind(first, next), outcome),
{
    let sequence = |p: Program| program::bind(p, next);
    assert(world::goes_on(sequence, next)) by {
        assert forall|p: Program, answer: Answer| p is Ask implies #[trigger] program::after_answer(
            sequence(p),
            answer,
        ) == sequence(program::after_answer(p, answer)) by {
            program::lemma_bind(p, next, answer);
        }
    }
    lemma_ends_sequence(first, sequence, next, between, outcome);
}

/// How an operation ends may be said less exactly.
pub proof fn lemma_ends_weaken(
    program: Program,
    outcome: spec_fn(PolicyModel, bool) -> bool,
    outcome_too: spec_fn(PolicyModel, bool) -> bool,
)
    requires
        ends(program, outcome),
        forall|s: PolicyModel, r: bool| #[trigger] outcome(s, r) ==> outcome_too(s, r),
    ensures
        ends(program, outcome_too),
    decreases program,
{
    if let Program::Ask(call, next) = program {
        assert forall|answer: Answer| ends(#[trigger] next(answer), outcome_too) by {
            assert(ends(next(answer), outcome));
            lemma_ends_weaken(next(answer), outcome, outcome_too);
        }
    }
}

/// With one of two memories.
pub open spec fn either(one: PolicyModel, other: PolicyModel) -> spec_fn(PolicyModel, bool) -> bool {
    |state: PolicyModel, result: bool| state == one || state == other
}

proof fn lemma_restore_writes(
    state: PolicyModel,
    path: PathModel,
    boosted: RecordModel,
    next: nat,
    failed: RecordModel,
)
    ensures
        ends(
            restore::restore_writes(state, path, boosted, next, failed),
            either(state, restore::released(state, path)),
        ),
    decreases boosted.len() - next,
{
    let program = restore::restore_writes(state, path, boosted, next, failed);
    let outcome = either(state, restore::released(state, path));
    if next < boosted.len() {
        let (region, entry) = boosted[next as int];
        assert forall|answer: Answer|
            ends(#[trigger] program::after_answer(program, answer), outcome) by {
            if request::succeeded(answer) {
                lemma_restore_writes(state, path, boosted, next + 1, failed);
            } else {
                lemma_restore_writes(
                    state,
                    path,
                    boosted,
                    next + 1,
                    crate::table::put(failed, region, entry),
                );
            }
        }
        lemma_ends_ask(program, outcome);
    } else if failed.len() == 0 {
        lemma_ends_ask(restore::ask_clear(state, path), outcome);
    } else if failed == boosted {
    } else {
        lemma_ends_ask(restore::ask_keep(state, path, failed), outcome);
    }
}

/// After a restoration it is outstanding or not; nothing else is remembered
/// differently.
pub proof fn lemma_restore(from: PolicyModel, path: PathModel)
    ensures
        ends(
            restore::restore(from, path),
            either(
                restore::releasing(from, path),
                restore::released(restore::releasing(from, path), path),
            ),
        ),
{
    let state = restore::releasing(from, path);
    let outcome = either(state, restore::released(state, path));
    assert forall|boosted: RecordModel, bytes: Seq<u8>| #[trigger]
        ends(restore::restore_boosted(state, path, bytes, boosted), outcome) by {
        lemma_restore_writes(state, path, boosted, 0, Seq::empty());
        lemma_ends_ask(restore::ask_clear(state, path), outcome);
        lemma_ends_ask(restore::ask_narrow(state, path, boosted), outcome);
    }
    assert forall|bytes: Seq<u8>, record: RecordModel| #[trigger]
        ends(restore::ask_limits(state, path, bytes, record), outcome) by {
        let program = restore::ask_limits(state, path, bytes, record);
        assert forall|answer: Answer|
            ends(#[trigger] program::after_answer(program, answer), outcome) by {
            if let Some(current) = restore::limits_in(answer) {
                assert(ends(
                    restore::restore_boosted(
                        state,
                        path,
                        bytes,
                        recovery::select(record, current, Standing::Applied),
                    ),
                    outcome,
                ));
            }
        }
        lemma_ends_ask(program, outcome);
    }
    let program = restore::restore(from, path);
    assert forall|answer: Answer| ends(#[trigger] program::after_answer(program, answer), outcome) by {
        if let Answer::Attribute(Ok(Some(bytes))) = answer {
            if let Ok(record) = recovery::record_of(bytes) {
                assert(ends(restore::ask_limits(state, path, bytes, record), outcome));
            }
        }
    }
    lemma_ends_ask(program, outcome);
}

/// With the cgroup boosted or nothing remembered differently; the latter if there was no
/// record.
pub open spec fn taken_up(state: PolicyModel, path: PathModel) -> spec_fn(PolicyModel, bool) -> bool {
    |s: PolicyModel, recovered: bool|
        s == state || recovered && s == recover::activated(state, path)
}

proof fn lemma_recover_writes(
    state: PolicyModel,
    path: PathModel,
    waiting: RecordModel,
    next: nat,
)
    ensures
        ends(
            recover::recover_writes(state, path, waiting, next),
            taken_up(state, path),
        ),
    decreases waiting.len() - next,
{
    if next < waiting.len() {
        lemma_recover_writes(state, path, waiting, next + 1);
        lemma_ends_ask(
            recover::recover_writes(state, path, waiting, next),
            taken_up(state, path),
        );
    }
}

/// After a recovery the cgroup is the boosted one, or nothing is remembered
/// differently.
proof fn lemma_recover(state: PolicyModel, path: PathModel)
    ensures
        ends(
            recover::recover(state, path),
            taken_up(state, path),
        ),
{
    let outcome = taken_up(state, path);
    assert forall|bytes: Seq<u8>, known: RecordModel, waiting: RecordModel| #[trigger]
        ends(recover::recover_known(state, path, bytes, known, waiting), outcome) by {
        lemma_recover_writes(state, path, waiting, 0);
        lemma_ends_ask(recover::ask_forget(state, path), outcome);
        lemma_ends_ask(recover::ask_refresh(state, path, known, waiting), outcome);
    }
    assert forall|bytes: Seq<u8>, record: RecordModel| #[trigger]
        ends(recover::ask_limits(state, path, bytes, record), outcome) by {
        let program = recover::ask_limits(state, path, bytes, record);
        assert forall|answer: Answer|
            ends(#[trigger] program::after_answer(program, answer), outcome) by {
            if let Some(current) = restore::limits_in(answer) {
                let known = recovery::select(record, current, Standing::Known);
                let waiting = recovery::select(known, current, Standing::Baseline);
                assert(ends(recover::recover_known(state, path, bytes, known, waiting), outcome));
            }
        }
        lemma_ends_ask(program, outcome);
    }
    let program = recover::recover(state, path);
    assert forall|answer: Answer| ends(#[trigger] program::after_answer(program, answer), outcome) by {
        if let Answer::Attribute(Ok(Some(bytes))) = answer {
            if let Ok(record) = recovery::record_of(bytes) {
                assert(ends(recover::ask_limits(state, path, bytes, record), outcome));
            }
        }
    }
    lemma_ends_ask(program, outcome);
}

proof fn lemma_roll_back(
    state: PolicyModel,
    path: PathModel,
    record: RecordModel,
    written: nat,
    next: nat,
    clean: bool,
)
    ensures
        ends(
            activate::roll_back(state, path, record, written, next, clean),
            either(state, recover::activated(state, path)),
        ),
    decreases written - next,
{
    let outcome = either(state, recover::activated(state, path));
    if next < written {
        lemma_roll_back(state, path, record, written, next + 1, clean);
        lemma_roll_back(state, path, record, written, next + 1, false);
        let program = activate::roll_back(state, path, record, written, next, clean);
        assert forall|answer: Answer|
            ends(#[trigger] program::after_answer(program, answer), outcome) by {
            if !(clean && request::succeeded(answer)) {
                assert(ends(
                    activate::roll_back(state, path, record, written, next + 1, false),
                    outcome,
                ));
            }
        }
        lemma_ends_ask(program, outcome);
    } else if clean {
        lemma_ends_ask(activate::ask_discard(state, path), outcome);
    }
}

proof fn lemma_boost_writes(
    state: PolicyModel,
    path: PathModel,
    record: RecordModel,
    next: nat,
)
    ensures
        ends(
            activate::boost_writes(state, path, record, next),
            either(state, recover::activated(state, path)),
        ),
    decreases record.len() - next,
{
    if next < record.len() {
        lemma_boost_writes(state, path, record, next + 1);
        lemma_roll_back(state, path, record, next, 0, true);
        lemma_ends_ask(
            activate::boost_writes(state, path, record, next),
            either(state, recover::activated(state, path)),
        );
    }
}

proof fn lemma_ask_capacity(state: PolicyModel, path: PathModel)
    ensures
        ends(
            activate::ask_capacity(state, path),
            either(state, recover::activated(state, path)),
        ),
{
    let outcome = either(state, recover::activated(state, path));
    assert forall|record: RecordModel| #[trigger]
        ends(activate::boost(state, path, record), outcome) by {
        lemma_boost_writes(state, path, record, 0);
        lemma_ends_ask(activate::ask_persist(state, path, record), outcome);
    }
    assert forall|capacity: crate::cgroup::ValuesModel| #[trigger]
        ends(activate::ask_limits(state, path, capacity), outcome) by {
        let program = activate::ask_limits(state, path, capacity);
        assert forall|answer: Answer|
            ends(#[trigger] program::after_answer(program, answer), outcome) by {
            if let Some(current) = restore::limits_in(answer) {
                assert(ends(
                    activate::boost(state, path, recovery::boosts(capacity, current)),
                    outcome,
                ));
            }
        }
        lemma_ends_ask(program, outcome);
    }
    let program = activate::ask_capacity(state, path);
    assert forall|answer: Answer| ends(#[trigger] program::after_answer(program, answer), outcome) by {
        if let Some(capacity) = restore::limits_in(answer) {
            assert(ends(activate::ask_limits(state, path, capacity), outcome));
        }
    }
    lemma_ends_ask(program, outcome);
}

/// After a boost the cgroup is the boosted one, or nothing is remembered differently.
pub proof fn lemma_and_boost(state: PolicyModel, path: PathModel)
    ensures
        ends(
            activate::and_boost(recover::recover(state, path), path),
            either(state, recover::activated(state, path)),
        ),
{
    let outcome = either(state, recover::activated(state, path));
    lemma_recover(state, path);
    let next = |s: PolicyModel, recovered: bool|
        if recovered {
            Program::Done(s, true)
        } else {
            activate::ask_capacity(s, path)
        };
    let between = taken_up(state, path);
    assert forall|s: PolicyModel, r: bool| #[trigger] between(s, r) implies ends(
        next(s, r),
        outcome,
    ) by {
        lemma_ask_capacity(state, path);
    }
    lemma_ends_bind(recover::recover(state, path), next, between, outcome);
}

/// A restoration keeps the memory sound.
pub proof fn restoring_stays_sound(aspects: Aspects, state: PolicyModel, path: PathModel)
    requires
        sound(aspects, state),
    ensures
        ends(restore::restore(state, path), soundly(aspects)),
{
    let from = restore::releasing(state, path);
    lemma_restore(state, path);
    lemma_restored(aspects, state, path);
    lemma_ends_weaken(
        restore::restore(state, path),
        either(from, restore::released(from, path)),
        soundly(aspects),
    );
}

proof fn lemma_restored(aspects: Aspects, state: PolicyModel, path: PathModel)
    requires
        sound(aspects, state),
    ensures
        sound(aspects, restore::releasing(state, path)),
        sound(aspects, restore::released(restore::releasing(state, path), path)),
{
    let from = restore::releasing(state, path);
    paths::lemma_without(state.pending_apply, path);
    paths::lemma_with(state.pending_restore, path);
    paths::lemma_without(from.pending_restore, path);
}

/// A boost keeps the memory sound.
pub proof fn boosting_stays_sound(aspects: Aspects, state: PolicyModel, path: PathModel)
    requires
        sound(aspects, state),
    ensures
        ends(activate::activate(state, path), soundly(aspects)),
{
    let applying = activate::applying(state, path);
    paths::lemma_with(state.pending_apply, path);
    if state.foreground == Some(path) {
    } else if state.pending_restore.contains(path) {
        assert(sound(aspects, applying));
    } else {
        match state.foreground {
            None => {
                lemma_and_boost(applying, path);
                lemma_activated(aspects, applying, path);
                lemma_ends_weaken(
                    activate::activate(state, path),
                    either(applying, recover::activated(applying, path)),
                    soundly(aspects),
                );
            },
            Some(previous) => {
                let from = restore::releasing(applying, previous);
                let released = restore::released(from, previous);
                let between = either(from, released);
                let next = |s: PolicyModel, done: bool|
                    activate::and_boost(recover::recover(s, path), path);
                lemma_restore(applying, previous);
                assert(sound(aspects, applying));
                lemma_restored(aspects, applying, previous);
                paths::lemma_with(applying.pending_restore, previous);
                paths::lemma_without(from.pending_restore, previous);
                assert forall|s: PolicyModel, r: bool| #[trigger] between(s, r) implies ends(
                    next(s, r),
                    soundly(aspects),
                ) by {
                    lemma_and_boost(s, path);
                    lemma_activated(aspects, s, path);
                    lemma_ends_weaken(
                        next(s, r),
                        either(s, recover::activated(s, path)),
                        soundly(aspects),
                    );
                }
                lemma_ends_bind(
                    restore::restore(applying, previous),
                    next,
                    between,
                    soundly(aspects),
                );
            },
        }
    }
}

proof fn lemma_activated(aspects: Aspects, state: PolicyModel, path: PathModel)
    requires
        sound(aspects, state),
        !state.pending_restore.contains(path),
    ensures
        sound(aspects, recover::activated(state, path)),
{
    paths::lemma_without(state.pending_apply, path);
}

/// A registration keeps the memory sound.
pub proof fn registering_stays_sound(aspects: Aspects, state: PolicyModel, path: PathModel)
    requires
        sound(aspects, state),
    ensures
        ends(register::register(state, path), soundly(aspects)),
{
    if paths::lookup(state.paths, path) is None && !state.pending_registration.contains(path) {
        let from = register::registering(state, path);
        paths::lemma_with(state.pending_registration, path);
        assert(sound(aspects, from));
        let same = either(from, from);
        lemma_ends_ask(register::ask_writable(from, path), same);
        lemma_ends_ask(register::ask_support(from, path), same);
        lemma_ends_ask(register::eligible(from, path), same);
        let next = |s: PolicyModel, eligible: bool|
            if eligible && s.watching {
                register::ask_watch(s, path)
            } else {
                Program::Done(s, false)
            };
        assert forall|s: PolicyModel, r: bool| #[trigger] same(s, r) implies ends(
            next(s, r),
            soundly(aspects),
        ) by {
            let program = register::ask_watch(from, path);
            assert forall|answer: Answer|
                ends(#[trigger] program::after_answer(program, answer), soundly(aspects)) by {
                if let Answer::Watch(Ok(watch)) = answer {
                    lemma_followed(aspects, from, path, watch);
                }
            }
            lemma_ends_ask(program, soundly(aspects));
        }
        lemma_ends_bind(register::eligible(from, path), next, same, soundly(aspects));
    }
}

/// What a table of watches has without a watch.
pub proof fn lemma_unwatched(watches: Seq<(i32, PathModel)>, watch: i32)
    ensures
        forall|other: i32| #[trigger]
            paths::watched(paths::unwatched(watches, watch), other) == if other == watch {
                None
            } else {
                paths::watched(watches, other)
            },
    decreases watches.len(),
{
    if watches.len() > 0 {
        lemma_unwatched(watches.drop_last(), watch);
        let rest = paths::unwatched(watches.drop_last(), watch);
        let result = paths::unwatched(watches, watch);
        assert forall|other: i32| #[trigger] paths::watched(result, other) == if other == watch {
            None
        } else {
            paths::watched(watches, other)
        } by {
            assert(paths::watched(rest, other) == if other == watch {
                None
            } else {
                paths::watched(watches.drop_last(), other)
            });
            if watches.last().0 != watch {
                assert(result.drop_last() =~= rest);
            }
        }
    }
}

proof fn lemma_followed(aspects: Aspects, state: PolicyModel, path: PathModel, watch: i32)
    requires
        sound(aspects, state),
        paths::lookup(state.paths, path) is None,
    ensures
        sound(aspects, register::followed(state, path, watch)),
{
    let now = register::followed(state, path, watch);
    paths::lemma_without(state.pending_registration, path);
    lemma_filed_lookup(state.paths, path, watch);
    lemma_unwatched(state.watches, watch);
    assert forall|w: i32|
        aspects.watches && (#[trigger] paths::watched(now.watches, w) is Some) implies paths::lookup(
        now.paths,
        paths::watched(now.watches, w)->0,
    ) == Some(w) by {
        let rest = paths::unwatched(state.watches, watch);
        assert(now.watches.drop_last() =~= rest);
        if w != watch {
            assert(paths::watched(rest, w) == paths::watched(state.watches, w));
            let p = paths::watched(state.watches, w)->0;
            assert(paths::lookup(state.paths, p) == Some(w));
        }
    }
}

/// What a table has for a path after something was filed under one.
pub proof fn lemma_filed_lookup<V>(entries: Seq<(PathModel, V)>, path: PathModel, value: V)
    ensures
        forall|other: PathModel| #[trigger]
            paths::lookup(paths::filed(entries, path, value), other) == if other == path {
                Some(value)
            } else {
                paths::lookup(entries, other)
            },
{
    lemma_dropped_lookup(entries, path);
    let rest = paths::dropped(entries, path);
    assert forall|other: PathModel| #[trigger]
        paths::lookup(paths::filed(entries, path, value), other) == if other == path {
            Some(value)
        } else {
            paths::lookup(entries, other)
        } by {
        assert(paths::filed(entries, path, value).drop_last() =~= rest);
        assert(paths::lookup(rest, other) == if other == path {
            None
        } else {
            paths::lookup(entries, other)
        });
    }
}

/// What a table has for a path after one was taken out.
pub proof fn lemma_dropped_lookup<V>(entries: Seq<(PathModel, V)>, path: PathModel)
    ensures
        forall|other: PathModel| #[trigger]
            paths::lookup(paths::dropped(entries, path), other) == if other == path {
                None
            } else {
                paths::lookup(entries, other)
            },
    decreases entries.len(),
{
    if entries.len() > 0 {
        lemma_dropped_lookup(entries.drop_last(), path);
        let rest = paths::dropped(entries.drop_last(), path);
        let result = paths::dropped(entries, path);
        assert forall|other: PathModel| #[trigger]
            paths::lookup(result, other) == if other == path {
                None
            } else {
                paths::lookup(entries, other)
            } by {
            assert(paths::lookup(rest, other) == if other == path {
                None
            } else {
                paths::lookup(entries.drop_last(), other)
            });
            if entries.last().0 != path {
                assert(result.drop_last() =~= rest);
            }
        }
    }
}

/// Without a cgroup, the cgroups that claim the focus are the others.
proof fn lemma_claimants_dropped(
    values: Seq<(PathModel, Option<Seq<u8>>)>,
    path: PathModel,
)
    ensures
        focus::claimants(paths::dropped(values, path)) == paths::without(
            focus::claimants(values),
            path,
        ),
    decreases values.len(),
{
    if values.len() > 0 {
        let front = values.drop_last();
        let (last, value) = values.last();
        let rest = focus::claimants(front);
        let kept = paths::dropped(front, path);
        lemma_claimants_dropped(front, path);
        paths::lemma_without(rest, path);
        if last != path {
            assert(paths::dropped(values, path).drop_last() =~= kept);
        }
        if focus::claims(value) && !rest.contains(last) {
            assert(rest.push(last).drop_last() =~= rest);
        }
    }
}

/// Two sets of the same paths have as many.
proof fn lemma_same_number(one: Seq<PathModel>, other: Seq<PathModel>)
    requires
        one.no_duplicates(),
        other.no_duplicates(),
        forall|path: PathModel| #[trigger] one.contains(path) <==> other.contains(path),
    ensures
        one.len() == other.len(),
{
    one.unique_seq_to_set();
    other.unique_seq_to_set();
    assert(one.to_set() =~= other.to_set()) by {
        assert forall|path: PathModel| #[trigger]
            one.to_set().contains(path) == other.to_set().contains(path) by {
            assert(one.contains(path) <==> other.contains(path));
        }
    }
}

/// There are as many rivals as claimants, where there are two or more, and none otherwise.
proof fn lemma_rivals_number(state: PolicyModel)
    requires
        rivals_are_known(state),
    ensures
        state.ambiguous_active.len() == untrack::rivals(
            focus::claimants(state.focus_values),
        ).len(),
{
    let claimants = focus::claimants(state.focus_values);
    crate::laws::focus::nobody_claims_twice(state.focus_values);
    if claimants.len() >= 2 {
        lemma_same_number(state.ambiguous_active, claimants);
    } else if state.ambiguous_active.len() > 0 {
        assert(state.ambiguous_active.contains(state.ambiguous_active[0]));
    }
}

/// Without a cgroup, the rivals are the others, as long as there are two.
proof fn lemma_rivals_forgotten(state: PolicyModel, path: PathModel)
    requires
        rivals_are_known(state),
    ensures
        rivals_are_known(untrack::forgotten(state, path)),
{
    let claimants = focus::claimants(state.focus_values);
    let fewer = paths::without(claimants, path);
    let left = paths::without(state.ambiguous_active, path);
    crate::laws::focus::nobody_claims_twice(state.focus_values);
    lemma_claimants_dropped(state.focus_values, path);
    paths::lemma_without(claimants, path);
    paths::lemma_without(state.ambiguous_active, path);
    lemma_rivals_number(state);
    if claimants.len() >= 2 {
        assert forall|other: PathModel| #[trigger]
            left.contains(other) <==> fewer.contains(other) by {
            assert(state.ambiguous_active.contains(other) <==> claimants.contains(other));
        }
        lemma_same_number(left, fewer);
    }
}

proof fn lemma_forgotten(aspects: Aspects, state: PolicyModel, path: PathModel)
    requires
        sound(aspects, state),
    ensures
        sound(aspects, untrack::forgotten(state, path)),
{
    paths::lemma_without(state.pending_apply, path);
    if aspects.rivals {
        lemma_rivals_forgotten(state, path);
    }
}

/// The rivals for the focus are exactly the cgroups whose known focus attributes say
/// that they are active, where there are two or more of those; so there is never one
/// alone.
pub proof fn rivals_are_the_claimants(state: PolicyModel, path: PathModel)
    requires
        rivals_are_known(state),
    ensures
        state.ambiguous_active.contains(path) <==> focus::claimants(state.focus_values).len() >= 2
            && exists|i: int|
            0 <= i < state.focus_values.len() && (#[trigger] state.focus_values[i]).0 == path
                && focus::claims(state.focus_values[i].1),
        state.ambiguous_active.len() != 1,
{
    crate::laws::focus::claimants_claim_the_focus(state.focus_values, path);
    lemma_rivals_number(state);
}

proof fn lemma_unattended(aspects: Aspects, state: PolicyModel, path: PathModel, watch: i32)
    requires
        sound(aspects, state),
        paths::lookup(state.paths, path) == Some(watch),
    ensures
        sound(aspects, untrack::unattended(state, path, watch)),
{
    let now = untrack::unattended(state, path, watch);
    lemma_dropped_lookup(state.paths, path);
    lemma_unwatched(state.watches, watch);
    assert forall|w: i32|
        aspects.watches && (#[trigger] paths::watched(now.watches, w) is Some) implies paths::lookup(
        now.paths,
        paths::watched(now.watches, w)->0,
    ) == Some(w) by {
        let p = paths::watched(now.watches, w)->0;
        assert(paths::watched(state.watches, w) == Some(p));
        assert(paths::lookup(state.paths, p) == Some(w));
    }
    assert forall|p: PathModel|
        aspects.registrations && #[trigger] now.pending_registration.contains(
            p,
        ) implies paths::lookup(now.paths, p) is None by {
        assert(state.pending_registration.contains(p));
    }
}

/// Letting a cgroup go keeps the memory sound.
pub proof fn untracking_stays_sound(aspects: Aspects, state: PolicyModel, path: PathModel)
    requires
        sound(aspects, state),
    ensures
        ends(untrack::untrack(state, path), soundly(aspects)),
{
    let from = untrack::unregistered(state, path);
    paths::lemma_without(state.pending_registration, path);
    assert(sound(aspects, from));
    restoring_stays_sound(aspects, from, path);
    let next = |s: PolicyModel, done: bool| untrack::unwatch(s, path);
    assert forall|s: PolicyModel, r: bool| #[trigger] soundly(aspects)(s, r) implies ends(
        next(s, r),
        soundly(aspects),
    ) by {
        match paths::lookup(s.paths, path) {
            Some(watch) => {
                let gone = untrack::unattended(s, path, watch);
                lemma_unattended(aspects, s, path, watch);
                lemma_forgotten(aspects, gone, path);
                lemma_ends_ask(untrack::ask_unwatch(gone, path, watch), soundly(aspects));
            },
            None => {
                lemma_forgotten(aspects, s, path);
            },
        }
    }
    lemma_ends_bind(restore::restore(from, path), next, soundly(aspects), soundly(aspects));
}

proof fn lemma_work(aspects: Aspects, kind: Work, state: PolicyModel, path: PathModel)
    requires
        sound(aspects, state),
    ensures
        ends(each::work(kind, state, path), soundly(aspects)),
{
    match kind {
        Work::Restore => restoring_stays_sound(aspects, state, path),
        Work::Untrack => untracking_stays_sound(aspects, state, path),
        Work::Register => registering_stays_sound(aspects, state, path),
        Work::Retry => {
            registering_stays_sound(aspects, state, path);
            lemma_ends_ask(each::ask_exists(state, path), soundly(aspects));
        },
        Work::Apply => boosting_stays_sound(aspects, state, path),
    }
}

proof fn lemma_each(
    aspects: Aspects,
    kind: Work,
    state: PolicyModel,
    all: Seq<PathModel>,
    next: nat,
)
    requires
        sound(aspects, state),
    ensures
        ends(each::each(kind, state, all, next), soundly(aspects)),
    decreases all.len() - next,
{
    if next < all.len() {
        lemma_work(aspects, kind, state, all[next as int]);
        let then = |s: PolicyModel, done: bool| each::each(kind, s, all, next + 1);
        let sequence = |p: Program| each::and_each(p, kind, all, next + 1);
        operations::lemma_each_goes_on(kind, all, next + 1);
        assert forall|s: PolicyModel, r: bool| #[trigger] soundly(aspects)(s, r) implies ends(
            then(s, r),
            soundly(aspects),
        ) by {
            lemma_each(aspects, kind, s, all, next + 1);
        }
        lemma_ends_sequence(
            each::work(kind, state, all[next as int]),
            sequence,
            then,
            soundly(aspects),
            soundly(aspects),
        );
    }
}

/// A new policy's memory is sound.
pub proof fn starting_sound(aspects: Aspects, root: PathModel, watching: bool)
    ensures
        sound(aspects, state::initial(root, watching)),
{
}

/// Letting go of the cgroups outside a root keeps the memory sound.
pub proof fn restricting_stays_sound(aspects: Aspects, state: PolicyModel, root: PathModel)
    requires
        sound(aspects, state),
    ensures
        ends(policy::restrict_to(state, root), soundly(aspects)),
{
    lemma_each(aspects, Work::Untrack, state, policy::outside(root, policy::involved(state)), 0);
}

/// A shutdown keeps the memory sound.
pub proof fn shutdown_stays_sound(aspects: Aspects, state: PolicyModel)
    requires
        sound(aspects, state),
    ensures
        ends(policy::shutdown(state), soundly(aspects)),
{
    let from = PolicyModel { pending_apply: Seq::empty(), ..state };
    assert(sound(aspects, from));
    lemma_each(aspects, Work::Restore, from, policy::unsettled(state), 0);
}

proof fn lemma_release(
    aspects: Aspects,
    state: PolicyModel,
    all: Seq<PathModel>,
    next: nat,
    selected: Option<PathModel>,
)
    requires
        sound(aspects, state),
    ensures
        ends(reconcile::release(state, all, next, selected), soundly(aspects)),
    decreases all.len() - next,
{
    if next < all.len() {
        let one = all[next as int];
        let unwanted = reconcile::unwanted(state, one);
        paths::lemma_without(state.pending_apply, one);
        assert(sound(aspects, unwanted));
        if selected == Some(one) {
            lemma_release(aspects, state, all, next + 1, selected);
        } else if unwanted.pending_restore.contains(one) {
            lemma_release(aspects, unwanted, all, next + 1, selected);
        } else {
            restoring_stays_sound(aspects, unwanted, one);
            let then = |s: PolicyModel, done: bool| reconcile::release(s, all, next + 1, selected);
            let sequence = |p: Program| reconcile::and_release(p, all, next + 1, selected);
            crate::laws::focus::lemma_release_goes_on(all, next + 1, selected);
            assert forall|s: PolicyModel, r: bool| #[trigger] soundly(aspects)(s, r) implies ends(
                then(s, r),
                soundly(aspects),
            ) by {
                lemma_release(aspects, s, all, next + 1, selected);
            }
            lemma_ends_sequence(
                restore::restore(unwanted, one),
                sequence,
                then,
                soundly(aspects),
                soundly(aspects),
            );
        }
    } else if let Some(path) = selected {
        boosting_stays_sound(aspects, state, path);
    }
}

proof fn lemma_look(
    aspects: Aspects,
    state: PolicyModel,
    all: Seq<PathModel>,
    values: Seq<Option<Seq<u8>>>,
)
    requires
        sound(aspects, state),
    ensures
        ends(reconcile::look(state, all, values), soundly(aspects)),
    decreases all.len() - values.len(),
{
    if values.len() < all.len() {
        let program = reconcile::look(state, all, values);
        assert forall|answer: Answer|
            ends(#[trigger] program::after_answer(program, answer), soundly(aspects)) by {
            if let Answer::Attribute(Ok(value)) = answer {
                lemma_look(aspects, state, all, values.push(value));
            }
        }
        lemma_ends_ask(program, soundly(aspects));
    } else {
        let known = reconcile::commit(state.focus_values, all, values).0;
        let informed = reconcile::informed(state, known);
        crate::laws::focus::nobody_claims_twice(known);
        assert(sound(aspects, informed));
        lemma_release(
            aspects,
            informed,
            paths::keys(known),
            0,
            reconcile::sole(focus::claimants(known)),
        );
    }
}

/// A look at the focus keeps the memory sound.
pub proof fn looking_stays_sound(aspects: Aspects, state: PolicyModel, all: Seq<PathModel>)
    requires
        sound(aspects, state),
    ensures
        ends(reconcile::reconcile_paths(state, all), soundly(aspects)),
{
    lemma_look(aspects, state, all, Seq::empty());
}

/// Looking at everything again keeps the memory sound.
pub proof fn reconciling_stays_sound(aspects: Aspects, state: PolicyModel)
    requires
        sound(aspects, state),
    ensures
        ends(events::reconcile(state), soundly(aspects)),
{
    assert(sound(aspects, events::restarted(state)));
    looking_stays_sound(aspects, events::restarted(state), paths::keys(state.paths));
}

/// Making every watch anew keeps the memory sound.
pub proof fn rebuilding_stays_sound(aspects: Aspects, state: PolicyModel)
    requires
        sound(aspects, state),
    ensures
        ends(events::rebuild_watches(state), soundly(aspects)),
{
    let blank = events::checked(events::untied(state));
    assert(sound(aspects, blank));
    lemma_each(aspects, Work::Register, blank, paths::keys(state.paths), 0);
    let rebuild = events::rebuild_watches(state);
    assert forall|answer: Answer|
        ends(#[trigger] program::after_answer(rebuild, answer), soundly(aspects)) by {
        assert(sound(aspects, PolicyModel { watching: false, ..events::untied(state) }));
    }
    lemma_ends_ask(rebuild, soundly(aspects));
}

/// Acting on events keeps the memory sound.
pub proof fn events_stay_sound(aspects: Aspects, state: PolicyModel, reported: Seq<WatchEvent>)
    requires
        sound(aspects, state),
    ensures
        ends(events::process_events(state, reported), soundly(aspects)),
{
    if state.watching && events::overflowed(reported) {
        let rebuild = events::rebuild_watches(state);
        rebuilding_stays_sound(aspects, state);
        let next = |s: PolicyModel, done: bool| events::reconcile(s);
        assert forall|s: PolicyModel, r: bool| #[trigger] soundly(aspects)(s, r) implies ends(
            next(s, r),
            soundly(aspects),
        ) by {
            reconciling_stays_sound(aspects, s);
        }
        lemma_ends_bind(rebuild, next, soundly(aspects), soundly(aspects));
    } else if state.watching {
        let gone = events::removed(state.watches, reported);
        let changed = events::changed(state.watches, reported);
        lemma_each(aspects, Work::Untrack, state, gone, 0);
        let next = |s: PolicyModel, done: bool| events::check(s, changed);
        assert forall|s: PolicyModel, r: bool| #[trigger] soundly(aspects)(s, r) implies ends(
            next(s, r),
            soundly(aspects),
        ) by {
            assert(sound(aspects, events::checked(s)));
            looking_stays_sound(aspects, events::checked(s), paths::keys(s.paths));
        }
        lemma_ends_bind(
            each::each(Work::Untrack, state, gone, 0),
            next,
            soundly(aspects),
            soundly(aspects),
        );
    }
}

proof fn lemma_and_apply(
    aspects: Aspects,
    state: PolicyModel,
    restore: Seq<PathModel>,
    complete: bool,
    apply: Seq<PathModel>,
)
    requires
        sound(aspects, state),
    ensures
        ends(
            maintenance::and_apply(
                each::each(Work::Restore, state, restore, 0),
                complete,
                apply,
            ),
            soundly(aspects),
        ),
{
    lemma_each(aspects, Work::Restore, state, restore, 0);
    let next = |s: PolicyModel, done: bool|
        if complete {
            each::each(Work::Apply, maintenance::hopeful(s), apply, 0)
        } else {
            Program::Done(s, true)
        };
    assert forall|s: PolicyModel, r: bool| #[trigger] soundly(aspects)(s, r) implies ends(
        next(s, r),
        soundly(aspects),
    ) by {
        assert(sound(aspects, maintenance::hopeful(s)));
        lemma_each(aspects, Work::Apply, maintenance::hopeful(s), apply, 0);
    }
    lemma_ends_bind(
        each::each(Work::Restore, state, restore, 0),
        next,
        soundly(aspects),
        soundly(aspects),
    );
}

/// A round of maintenance keeps the memory sound.
pub proof fn maintenance_stays_sound(aspects: Aspects, state: PolicyModel)
    requires
        sound(aspects, state),
    ensures
        ends(maintenance::maintenance(state), soundly(aspects)),
{
    let from = PolicyModel { pending_registration: Seq::empty(), ..state };
    let all = state.pending_registration;
    assert(sound(aspects, from));
    lemma_each(aspects, Work::Retry, from, all, 0);
    let next = |s: PolicyModel, done: bool| maintenance::survey(s);
    assert forall|s: PolicyModel, r: bool| #[trigger] soundly(aspects)(s, r) implies ends(
        next(s, r),
        soundly(aspects),
    ) by {
        let restore = s.pending_restore;
        let apply = s.pending_apply;
        let known = maintenance::known_paths(s);
        looking_stays_sound(aspects, s, known);
        let then = |s2: PolicyModel, complete: bool|
            maintenance::and_apply(each::each(Work::Restore, s2, restore, 0), complete, apply);
        assert forall|s2: PolicyModel, r2: bool| #[trigger] soundly(aspects)(s2, r2) implies ends(
            then(s2, r2),
            soundly(aspects),
        ) by {
            lemma_and_apply(aspects, s2, restore, r2, apply);
        }
        lemma_ends_bind(
            reconcile::reconcile_paths(s, known),
            then,
            soundly(aspects),
            soundly(aspects),
        );
    }
    lemma_ends_bind(each::each(Work::Retry, from, all, 0), next, soundly(aspects), soundly(aspects));
}

}
