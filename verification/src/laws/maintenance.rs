//! Maintenance: what is outstanding is tried again.

use crate::each;
use crate::each::Work;
use crate::focus;
use crate::laws;
use crate::laws::boost;
use crate::laws::consistency;
use crate::laws::operations;
use crate::laws::restoration;
use crate::laws::shutdown;
use crate::maintenance;
use crate::path::PathModel;
use crate::paths;
use crate::program;
use crate::program::Program;
use crate::reconcile;
use crate::register;
use crate::request::Answer;
use crate::state::PolicyModel;
use crate::world;
use crate::world::World;
use vstd::prelude::*;

verus! {

/// No restoration is outstanding, but for those of cgroups whose record could not be
/// understood at first.
pub open spec fn put_back(first: World) -> spec_fn(World, PolicyModel, bool) -> bool {
    |now: World, to: PolicyModel, done: bool|
        forall|path: PathModel| #[trigger]
            to.pending_restore.contains(path) ==> !world::readable(first, path)
}

/// Neither the boost nor anything outstanding has changed but registrations. Of the
/// cgroups, some of these may be tracked that were not.
pub open spec fn steady(from: PolicyModel, all: Seq<PathModel>) -> spec_fn(
    PolicyModel,
    bool,
) -> bool {
    |to: PolicyModel, done: bool|
        {
            &&& to.foreground == from.foreground
            &&& to.pending_restore == from.pending_restore
            &&& to.pending_apply == from.pending_apply
            &&& to.focus_values == from.focus_values
            &&& forall|path: PathModel|
                #[trigger] paths::lookup(to.paths, path) is Some ==> paths::lookup(from.paths, path)
                    is Some || all.contains(path)
            &&& forall|path: PathModel| #[trigger]
                paths::lookup(from.paths, path) is Some ==> paths::lookup(to.paths, path) is Some
        }
}

/// What holds of how an operation ends, whatever is answered, and of how it ends in a
/// world, holds together.
pub proof fn lemma_both(
    program: Program,
    now: World,
    faults: bool,
    held: spec_fn(World) -> bool,
    outcome: spec_fn(World, PolicyModel, bool) -> bool,
    ending: spec_fn(PolicyModel, bool) -> bool,
    both: spec_fn(World, PolicyModel, bool) -> bool,
)
    requires
        world::always(program, now, faults, held, outcome),
        consistency::ends(program, ending),
        forall|w: World, s: PolicyModel, r: bool|
            held(w) && outcome(w, s, r) && ending(s, r) ==> #[trigger] both(w, s, r),
    ensures
        world::always(program, now, faults, held, both),
    decreases program,
{
    match program {
        Program::Done(state, result) => {
            assert(both(now, state, result));
        },
        Program::Ask(call, next) => {
            assert forall|answer: Answer| #[trigger]
                world::possible(now, call, answer, faults) implies world::always(
                next(answer),
                world::after(now, call, answer),
                faults,
                held,
                both,
            ) by {
                assert(consistency::ends(next(answer), ending));
                lemma_both(
                    next(answer),
                    world::after(now, call, answer),
                    faults,
                    held,
                    outcome,
                    ending,
                    both,
                );
            }
        },
    }
}

/// A registration changes neither the boost nor anything outstanding but registrations.
pub proof fn lemma_register(state: PolicyModel, path: PathModel, all: Seq<PathModel>)
    requires
        all.contains(path),
    ensures
        consistency::ends(register::register(state, path), steady(state, all)),
{
    let outcome = steady(state, all);
    if paths::lookup(state.paths, path) is None && !state.pending_registration.contains(path) {
        let from = register::registering(state, path);
        let same = consistency::either(from, from);
        consistency::lemma_ends_ask(register::ask_writable(from, path), same);
        consistency::lemma_ends_ask(register::ask_support(from, path), same);
        consistency::lemma_ends_ask(register::eligible(from, path), same);
        let next = |s: PolicyModel, eligible: bool|
            if eligible && s.watching {
                register::ask_watch(s, path)
            } else {
                Program::Done(s, false)
            };
        assert forall|s: PolicyModel, r: bool| #[trigger] same(s, r) implies consistency::ends(
            next(s, r),
            outcome,
        ) by {
            let program = register::ask_watch(from, path);
            assert forall|answer: Answer|
                consistency::ends(#[trigger] program::after_answer(program, answer), outcome) by {
                if let Answer::Watch(Ok(watch)) = answer {
                    paths::lemma_filed(from.paths, path, watch);
                }
            }
            consistency::lemma_ends_ask(program, outcome);
        }
        consistency::lemma_ends_bind(register::eligible(from, path), next, same, outcome);
    }
}

/// Whatever the system answers, a cgroup is tracked after its registration if that says
/// so, and otherwise waits for its next try.
pub proof fn a_registration_succeeds_or_waits(state: PolicyModel, path: PathModel)
    ensures
        consistency::ends(
            register::register(state, path),
            |to: PolicyModel, done: bool|
                if done {
                    paths::lookup(to.paths, path) is Some
                } else {
                    to.pending_registration.contains(path)
                },
        ),
{
    let outcome = |to: PolicyModel, done: bool|
        if done {
            paths::lookup(to.paths, path) is Some
        } else {
            to.pending_registration.contains(path)
        };
    if paths::lookup(state.paths, path) is None && !state.pending_registration.contains(path) {
        let from = register::registering(state, path);
        let same = consistency::either(from, from);
        paths::lemma_with(state.pending_registration, path);
        consistency::lemma_ends_ask(register::ask_writable(from, path), same);
        consistency::lemma_ends_ask(register::ask_support(from, path), same);
        consistency::lemma_ends_ask(register::eligible(from, path), same);
        let next = |s: PolicyModel, eligible: bool|
            if eligible && s.watching {
                register::ask_watch(s, path)
            } else {
                Program::Done(s, false)
            };
        assert forall|s: PolicyModel, r: bool| #[trigger] same(s, r) implies consistency::ends(
            next(s, r),
            outcome,
        ) by {
            let program = register::ask_watch(from, path);
            assert forall|answer: Answer|
                consistency::ends(#[trigger] program::after_answer(program, answer), outcome) by {
                if let Answer::Watch(Ok(watch)) = answer {
                    consistency::lemma_filed_lookup(from.paths, path, watch);
                    let now = register::followed(from, path, watch);
                    assert(paths::lookup(now.paths, path) == Some(watch));
                }
            }
            consistency::lemma_ends_ask(program, outcome);
        }
        consistency::lemma_ends_bind(register::eligible(from, path), next, same, outcome);
    }
}

pub proof fn lemma_retry(from: PolicyModel, state: PolicyModel, all: Seq<PathModel>, next: nat)
    requires
        steady(from, all)(state, true),
    ensures
        consistency::ends(each::each(Work::Retry, state, all, next), steady(from, all)),
    decreases all.len() - next,
{
    let outcome = steady(from, all);
    if next < all.len() {
        let one = all[next as int];
        lemma_register(state, one, all);
        consistency::lemma_ends_weaken(
            register::register(state, one),
            steady(state, all),
            outcome,
        );
        consistency::lemma_ends_ask(each::ask_exists(state, one), outcome);
        let then = |s: PolicyModel, done: bool| each::each(Work::Retry, s, all, next + 1);
        let sequence = |p: Program| each::and_each(p, Work::Retry, all, next + 1);
        operations::lemma_each_goes_on(Work::Retry, all, next + 1);
        assert forall|s: PolicyModel, r: bool| #[trigger] outcome(s, r) implies consistency::ends(
            then(s, r),
            outcome,
        ) by {
            lemma_retry(from, s, all, next + 1);
        }
        consistency::lemma_ends_sequence(
            each::work(Work::Retry, state, one),
            sequence,
            then,
            outcome,
            outcome,
        );
    }
}

/// Boosting without faults makes no restoration outstanding.
proof fn lemma_apply(
    state: PolicyModel,
    all: Seq<PathModel>,
    next: nat,
    first: World,
    now: World,
)
    requires
        restoration::keeps(first, false)(now),
        put_back(first)(now, state, true),
    ensures
        world::always(
            each::each(Work::Apply, state, all, next),
            now,
            false,
            restoration::keeps(first, false),
            put_back(first),
        ),
    decreases all.len() - next,
{
    let held = restoration::keeps(first, false);
    if next < all.len() {
        let one = all[next as int];
        let program = each::work(Work::Apply, state, one);
        if state.pending_apply.contains(one) {
            boost::boosting_keeps_originals(state, one, first, now, false);
            let between = boost::settlement(now, state, one, false);
            assert forall|w: World, s: PolicyModel, r: bool|
                held(w) && #[trigger] between(w, s, r) implies put_back(first)(w, s, r) by {
                assert forall|path: PathModel| #[trigger]
                    s.pending_restore.contains(path) implies !world::readable(first, path) by {
                    if world::readable(first, path) {
                        assert(world::readable(now, path));
                        assert(state.pending_restore.contains(path));
                    }
                }
            }
            world::lemma_always_weaken(program, now, false, held, between, held, put_back(first));
        }
        let then = |s: PolicyModel, done: bool| each::each(Work::Apply, s, all, next + 1);
        let sequence = |p: Program| each::and_each(p, Work::Apply, all, next + 1);
        operations::lemma_each_goes_on(Work::Apply, all, next + 1);
        assert forall|w: World, s: PolicyModel, r: bool|
            held(w) && #[trigger] put_back(first)(w, s, r) implies world::always(
            then(s, r),
            w,
            false,
            held,
            put_back(first),
        ) by {
            lemma_apply(s, all, next + 1, first, w);
        }
        world::lemma_always_sequence(
            program,
            sequence,
            then,
            now,
            false,
            held,
            put_back(first),
            put_back(first),
        );
    }
}

/// Trying the restorations that are outstanding, without faults, leaves none.
proof fn lemma_restore_and_apply(
    state: PolicyModel,
    restore: Seq<PathModel>,
    complete: bool,
    apply: Seq<PathModel>,
    first: World,
    now: World,
)
    requires
        restoration::keeps(first, false)(now),
        forall|path: PathModel| #[trigger]
            state.pending_restore.contains(path) && world::readable(first, path)
                ==> restore.contains(path),
    ensures
        world::always(
            maintenance::and_apply(
                each::each(Work::Restore, state, restore, 0),
                complete,
                apply,
            ),
            now,
            false,
            restoration::keeps(first, false),
            put_back(first),
        ),
{
    let held = restoration::keeps(first, false);
    let between = shutdown::all_restored_outcome(now, state, restore, 0, false);
    shutdown::lemma_each_restores(state, restore, 0, first, false, now, false);
    let next = |s: PolicyModel, done: bool|
        if complete {
            each::each(Work::Apply, maintenance::hopeful(s), apply, 0)
        } else {
            Program::Done(s, true)
        };
    assert forall|w: World, s: PolicyModel, r: bool|
        held(w) && #[trigger] between(w, s, r) implies world::always(
        next(s, r),
        w,
        false,
        held,
        put_back(first),
    ) by {
        assert forall|path: PathModel| #[trigger] s.pending_restore.contains(path) implies !world::readable(
            first,
            path,
        ) by {
            if world::readable(first, path) {
                assert(world::readable(now, path));
                if !shutdown::among(restore, 0, path) {
                    assert(state.pending_restore.contains(path));
                    let i = choose|i: int| 0 <= i < restore.len() && restore[i] == path;
                    assert(restore[i] == path);
                }
            }
        }
        lemma_apply(maintenance::hopeful(s), apply, 0, first, w);
    }
    world::lemma_always_bind(
        each::each(Work::Restore, state, restore, 0),
        next,
        now,
        false,
        held,
        between,
        put_back(first),
    );
}

proof fn lemma_survey(state: PolicyModel, first: World, now: World)
    requires
        restoration::keeps(first, false)(now),
        laws::focus::undisputed(state),
    ensures
        world::always(
            maintenance::survey(state),
            now,
            false,
            restoration::keeps(first, false),
            put_back(first),
        ),
{
    let held = restoration::keeps(first, false);
    let restore = state.pending_restore;
    let apply = state.pending_apply;
    let known = maintenance::known_paths(state);
    let between = laws::focus::follow_outcome(now, state, known, false);
    laws::focus::following_the_focus(state, known, first, false, now, false);
    let next = |s: PolicyModel, complete: bool|
        maintenance::and_apply(each::each(Work::Restore, s, restore, 0), complete, apply);
    assert forall|w: World, s: PolicyModel, r: bool|
        held(w) && #[trigger] between(w, s, r) implies world::always(
        next(s, r),
        w,
        false,
        held,
        put_back(first),
    ) by {
        assert forall|path: PathModel| #[trigger]
            s.pending_restore.contains(path) && world::readable(
                first,
                path,
            ) implies restore.contains(path) by {
            assert(world::readable(now, path));
        }
        lemma_restore_and_apply(s, restore, r, apply, first, w);
    }
    world::lemma_always_bind(
        reconcile::reconcile_paths(state, known),
        next,
        now,
        false,
        held,
        between,
        put_back(first),
    );
}

/// How the retries of registrations end: nothing has been written, and nothing else has
/// been remembered or forgotten but what is tracked.
spec fn retried(now: World, state: PolicyModel) -> spec_fn(World, PolicyModel, bool) -> bool {
    |w: World, to: PolicyModel, done: bool|
        w == now && steady(state, state.pending_registration)(to, done)
}

proof fn lemma_retried(state: PolicyModel, first: World, calm: bool, now: World, faults: bool)
    requires
        restoration::keeps(first, calm)(now),
    ensures
        world::always(
            each::each(
                Work::Retry,
                PolicyModel { pending_registration: Seq::empty(), ..state },
                state.pending_registration,
                0,
            ),
            now,
            faults,
            restoration::keeps(first, calm),
            retried(now, state),
        ),
{
    let held = restoration::keeps(first, calm);
    let from = PolicyModel { pending_registration: Seq::empty(), ..state };
    let all = state.pending_registration;
    let retry = each::each(Work::Retry, from, all, 0);
    operations::registering_all_touches_nothing(
        Work::Retry,
        from,
        all,
        0,
        first,
        calm,
        now,
        faults,
    );
    lemma_retry(from, from, all, 0);
    lemma_both(
        retry,
        now,
        faults,
        held,
        operations::untouched(now),
        steady(from, all),
        retried(now, state),
    );
}

/// After a round of maintenance without faults no restoration is outstanding any more,
/// except that of a cgroup whose record cannot be understood.
pub proof fn maintenance_restores_what_is_outstanding(state: PolicyModel, now: World)
    requires
        laws::focus::undisputed(state),
    ensures
        world::always(
            maintenance::maintenance(state),
            now,
            false,
            restoration::keeps(now, false),
            put_back(now),
        ),
{
    let held = restoration::keeps(now, false);
    let from = PolicyModel { pending_registration: Seq::empty(), ..state };
    let retry = each::each(Work::Retry, from, state.pending_registration, 0);
    let between = retried(now, state);
    lemma_retried(state, now, false, now, false);
    let next = |s: PolicyModel, done: bool| maintenance::survey(s);
    assert forall|w: World, s: PolicyModel, r: bool|
        held(w) && #[trigger] between(w, s, r) implies world::always(
        next(s, r),
        w,
        false,
        held,
        put_back(now),
    ) by {
        lemma_survey(s, now, w);
    }
    world::lemma_always_bind(retry, next, now, false, held, between, put_back(now));
}

/// The cgroups that are looked at are those that are tracked or known by their focus, each
/// once.
pub proof fn maintenance_looks_at_what_is_known(state: PolicyModel)
    ensures
        maintenance::known_paths(state).no_duplicates(),
        forall|path: PathModel| #[trigger]
            maintenance::known_paths(state).contains(path) <==> paths::lookup(state.paths, path)
                is Some || paths::lookup(state.focus_values, path) is Some,
{
    let none = Seq::<PathModel>::empty();
    let followed = paths::with_all(none, paths::keys(state.paths));
    paths::lemma_with_all(none, paths::keys(state.paths));
    paths::lemma_with_all(followed, paths::keys(state.focus_values));
    assert forall|path: PathModel| #[trigger] maintenance::known_paths(state).contains(path) <==> (
    paths::lookup(state.paths, path) is Some || paths::lookup(state.focus_values, path)
        is Some) by {
        paths::lemma_lookup_keys(state.paths, path);
        paths::lemma_lookup_keys(state.focus_values, path);
    }
}

/// What a look makes known is of the cgroups that were known or looked at, and of each once.
pub proof fn lemma_commit(
    known: Seq<(PathModel, Option<Seq<u8>>)>,
    all: Seq<PathModel>,
    values: Seq<Option<Seq<u8>>>,
)
    requires
        paths::keys(known).no_duplicates(),
        values.len() <= all.len(),
    ensures
        ({
            let (now, new) = reconcile::commit(known, all, values);
            &&& paths::keys(now).no_duplicates()
            &&& !new ==> now == known
            &&& forall|path: PathModel| #[trigger]
                paths::lookup(now, path) is Some ==> paths::lookup(known, path) is Some
                    || all.contains(path)
        }),
    decreases values.len(),
{
    if values.len() > 0 {
        let front = values.drop_last();
        let last = all[values.len() - 1];
        lemma_commit(known, all, front);
        let before = reconcile::commit(known, all, front).0;
        paths::lemma_filed(before, last, values.last());
        assert(all.contains(last));
    }
}

/// What a look shows of cgroups, all of which are known already.
proof fn lemma_nothing_new(
    known: Seq<(PathModel, Option<Seq<u8>>)>,
    all: Seq<PathModel>,
    values: Seq<Option<Seq<u8>>>,
)
    requires
        values.len() <= all.len(),
        forall|i: int|
            0 <= i < values.len() ==> paths::lookup(known, #[trigger] all[i]) == Some(values[i]),
    ensures
        reconcile::commit(known, all, values) == (known, false),
    decreases values.len(),
{
    if values.len() > 0 {
        let front = values.drop_last();
        assert forall|i: int| 0 <= i < front.len() implies paths::lookup(known, #[trigger] all[i])
            == Some(front[i]) by {
            assert(front[i] == values[i]);
        }
        lemma_nothing_new(known, all, front);
        assert(paths::lookup(known, all[values.len() - 1]) == Some(values.last()));
    }
}

/// The value filed under a path that occurs once.
pub proof fn lemma_lookup_entry<V>(table: Seq<(PathModel, V)>, i: int)
    requires
        paths::keys(table).no_duplicates(),
        0 <= i < table.len(),
    ensures
        paths::lookup(table, table[i].0) == Some(table[i].1),
    decreases table.len(),
{
    if i < table.len() - 1 {
        let front = table.drop_last();
        assert(paths::keys(front) =~= paths::keys(table).drop_last());
        assert(paths::keys(table)[i] == table[i].0);
        assert(paths::keys(table)[table.len() - 1] == table.last().0);
        lemma_lookup_entry(front, i);
    }
}

/// The index of a path that has a value.
pub proof fn lemma_lookup_index<V>(table: Seq<(PathModel, V)>, path: PathModel) -> (i: int)
    requires
        paths::lookup(table, path) is Some,
    ensures
        0 <= i < table.len(),
        table[i].0 == path,
        paths::lookup(table, path) == Some(table[i].1),
    decreases table.len(),
{
    if table.last().0 == path {
        table.len() - 1
    } else {
        lemma_lookup_index(table.drop_last(), path)
    }
}

/// Whether a look at everything that is known would show something new.
pub open spec fn news(world: World, state: PolicyModel) -> bool {
    laws::focus::learned(world, state, maintenance::known_paths(state)).1
}

/// What a complete look at everything that is known shows: those claim the focus whose
/// attribute says so now, and something is new exactly if an attribute is not the one that
/// was last seen.
pub proof fn a_survey_learns_who_claims_the_focus(world: World, state: PolicyModel)
    requires
        paths::keys(state.focus_values).no_duplicates(),
    ensures
        ({
            let all = maintenance::known_paths(state);
            let values = laws::focus::learned(world, state, all).0;
            &&& focus::claimants(values).no_duplicates()
            &&& forall|path: PathModel| #[trigger]
                focus::claimants(values).contains(path) <==> all.contains(path) && focus::claims(
                    world.focus.get(path),
                )
            &&& forall|path: PathModel| #[trigger]
                paths::keys(values).contains(path) <==> all.contains(path)
            &&& news(world, state) <==> exists|path: PathModel| #[trigger]
                all.contains(path) && paths::lookup(state.focus_values, path) != Some(
                    world.focus.get(path),
                )
            &&& !news(world, state) ==> values == state.focus_values
        }),
{
    let all = maintenance::known_paths(state);
    let seen = laws::focus::seen(world, all);
    let (values, new) = laws::focus::learned(world, state, all);
    maintenance_looks_at_what_is_known(state);
    lemma_commit(state.focus_values, all, seen);
    laws::focus::nobody_claims_twice(values);
    assert forall|path: PathModel| all.contains(path) implies #[trigger] paths::lookup(values, path)
        == Some(world.focus.get(path)) by {
        let i = choose|i: int| 0 <= i < all.len() && all[i] == path;
        laws::focus::a_look_is_remembered(state.focus_values, all, seen, i);
    }
    assert forall|path: PathModel| #[trigger] focus::claimants(values).contains(path) <==> (
    all.contains(path) && focus::claims(world.focus.get(path))) by {
        laws::focus::claimants_claim_the_focus(values, path);
        if focus::claimants(values).contains(path) {
            let i = choose|i: int|
                0 <= i < values.len() && (#[trigger] values[i]).0 == path && focus::claims(
                    values[i].1,
                );
            lemma_lookup_entry(values, i);
            assert(paths::lookup(values, path) == Some(values[i].1));
            assert(all.contains(path));
        }
        if all.contains(path) && focus::claims(world.focus.get(path)) {
            assert(paths::lookup(values, path) == Some(world.focus.get(path)));
            let i = lemma_lookup_index(values, path);
            assert(values[i].0 == path);
        }
    }
    assert forall|path: PathModel| #[trigger] paths::keys(values).contains(path) <==> all.contains(
        path,
    ) by {
        paths::lemma_lookup_keys(values, path);
        if all.contains(path) {
            assert(paths::lookup(values, path) == Some(world.focus.get(path)));
        }
    }
    if !(exists|path: PathModel| #[trigger]
        all.contains(path) && paths::lookup(state.focus_values, path) != Some(
            world.focus.get(path),
        )) {
        assert forall|i: int| 0 <= i < seen.len() implies paths::lookup(
            state.focus_values,
            #[trigger] all[i],
        ) == Some(seen[i]) by {
            assert(all.contains(all[i]));
        }
        lemma_nothing_new(state.focus_values, all, seen);
    }
    if !new {
        assert forall|path: PathModel| #[trigger] all.contains(path) implies paths::lookup(
            state.focus_values,
            path,
        ) == Some(world.focus.get(path)) by {
            assert(paths::lookup(values, path) == Some(world.focus.get(path)));
        }
    }
}

/// Whether a round of maintenance may look at a cgroup: it is tracked, known by its focus or
/// waits for its registration.
pub open spec fn in_view(state: PolicyModel, path: PathModel) -> bool {
    maintenance::known_paths(state).contains(path) || state.pending_registration.contains(path)
}

/// No cgroup that a round of maintenance may look at can turn out to be the only one that
/// claims the focus: beside each that does there is another, which is tracked or known.
pub open spec fn unclear(world: World, state: PolicyModel) -> bool {
    forall|path: PathModel| #[trigger]
        in_view(state, path) && focus::claims(world.focus.get(path)) ==> exists|other: PathModel|
            other != path && #[trigger] maintenance::known_paths(state).contains(other)
                && focus::claims(world.focus.get(other))
}

/// A cgroup claims the focus, and no other one does that a round of maintenance may look at.
pub open spec fn alone(world: World, state: PolicyModel, path: PathModel) -> bool {
    &&& maintenance::known_paths(state).contains(path)
    &&& focus::claims(world.focus.get(path))
    &&& forall|other: PathModel| #[trigger]
        in_view(state, other) && other != path ==> !focus::claims(world.focus.get(other))
}

/// After the retries a look is taken at what was tracked or known before, and maybe at what
/// waited.
proof fn lemma_looked_at(now: World, state: PolicyModel, to: PolicyModel)
    requires
        retried(now, state)(now, to, true),
    ensures
        forall|path: PathModel| #[trigger]
            maintenance::known_paths(state).contains(path) ==> maintenance::known_paths(
                to,
            ).contains(path),
        forall|path: PathModel| #[trigger]
            maintenance::known_paths(to).contains(path) ==> in_view(state, path),
{
    maintenance_looks_at_what_is_known(state);
    maintenance_looks_at_what_is_known(to);
    assert forall|path: PathModel| #[trigger]
        maintenance::known_paths(state).contains(path) implies maintenance::known_paths(
        to,
    ).contains(path) by {
        if paths::lookup(state.paths, path) is Some {
            assert(paths::lookup(to.paths, path) is Some);
        }
    }
    assert forall|path: PathModel| #[trigger]
        maintenance::known_paths(to).contains(path) implies in_view(state, path) by {
        if paths::lookup(to.paths, path) is Some && paths::lookup(state.paths, path) is None {
            assert(state.pending_registration.contains(path));
        } else {
            assert(maintenance::known_paths(state).contains(path));
        }
    }
}

/// Nothing is boosted that was not.
pub open spec fn unboosted(from: PolicyModel) -> spec_fn(World, PolicyModel, bool) -> bool {
    |now: World, to: PolicyModel, done: bool|
        to.foreground is None || to.foreground == from.foreground
}

/// Where none of the boosts is outstanding any more, none is tried.
proof fn lemma_no_tries(
    state: PolicyModel,
    all: Seq<PathModel>,
    next: nat,
    now: World,
    faults: bool,
    held: spec_fn(World) -> bool,
    outcome: spec_fn(World, PolicyModel, bool) -> bool,
)
    requires
        held(now),
        outcome(now, state, true),
        forall|i: int| next <= i < all.len() ==> !state.pending_apply.contains(#[trigger] all[i]),
    ensures
        world::always(each::each(Work::Apply, state, all, next), now, faults, held, outcome),
    decreases all.len() - next,
{
    if next < all.len() {
        assert(!state.pending_apply.contains(all[next as int]));
        lemma_no_tries(state, all, next + 1, now, faults, held, outcome);
        let then = |s: PolicyModel, done: bool| each::each(Work::Apply, s, all, next + 1);
        let sequence = |p: Program| each::and_each(p, Work::Apply, all, next + 1);
        let between = |w: World, s: PolicyModel, r: bool| w == now && s == state;
        operations::lemma_each_goes_on(Work::Apply, all, next + 1);
        world::lemma_always_sequence(
            each::work(Work::Apply, state, all[next as int]),
            sequence,
            then,
            now,
            faults,
            held,
            between,
            outcome,
        );
    }
}

proof fn lemma_calm_survey(state: PolicyModel, now: World, faults: bool)
    requires
        laws::focus::undisputed(state),
        paths::keys(state.focus_values).no_duplicates(),
        focus::claimants(
            laws::focus::learned(now, state, maintenance::known_paths(state)).0,
        ).len() != 1,
        state.pending_apply.len() == 0 || news(now, state) && forall|path: PathModel| #[trigger]
            state.pending_apply.contains(path) ==> maintenance::known_paths(state).contains(path),
    ensures
        world::always(
            maintenance::survey(state),
            now,
            faults,
            restoration::keeps(now, true),
            unboosted(state),
        ),
{
    let held = restoration::keeps(now, true);
    let outcome = unboosted(state);
    let restore = state.pending_restore;
    let apply = state.pending_apply;
    let known = maintenance::known_paths(state);
    let values = laws::focus::learned(now, state, known).0;
    let between = laws::focus::follow_outcome(now, state, known, faults);
    a_survey_learns_who_claims_the_focus(now, state);
    laws::focus::following_the_focus(state, known, now, true, now, faults);
    let next = |s: PolicyModel, complete: bool|
        maintenance::and_apply(each::each(Work::Restore, s, restore, 0), complete, apply);
    assert forall|w: World, s: PolicyModel, r: bool|
        held(w) && #[trigger] between(w, s, r) implies world::always(
        next(s, r),
        w,
        faults,
        held,
        outcome,
    ) by {
        let restored = shutdown::all_restored_outcome(w, s, restore, 0, faults);
        shutdown::lemma_each_restores(s, restore, 0, now, true, w, faults);
        let then = |s2: PolicyModel, done: bool|
            if r {
                each::each(Work::Apply, maintenance::hopeful(s2), apply, 0)
            } else {
                Program::Done(s2, true)
            };
        assert forall|w2: World, s2: PolicyModel, r2: bool|
            held(w2) && #[trigger] restored(w2, s2, r2) implies world::always(
            then(s2, r2),
            w2,
            faults,
            held,
            outcome,
        ) by {
            if r && apply.len() > 0 {
                let all = paths::keys(values);
                assert(s2.focus_values == values);
                assert(s2.ambiguous_active == s.ambiguous_active);
                paths::lemma_with_all(s2.pending_apply, focus::claimants(values));
                assert forall|i: int| 0 <= i < apply.len() implies !maintenance::hopeful(
                    s2,
                ).pending_apply.contains(#[trigger] apply[i]) by {
                    let path = apply[i];
                    assert(state.pending_apply.contains(path));
                    assert(all.contains(path));
                    let k = choose|k: int| 0 <= k < all.len() && all[k] == path;
                    assert(all[k] == path);
                    assert(shutdown::among(all, 0, path));
                    assert(laws::focus::at_rest(w, s, path));
                    assert(!s2.pending_apply.contains(path));
                    if focus::claimants(values).contains(path) {
                        assert(focus::claimants(values).len() > 1);
                    }
                }
                lemma_no_tries(
                    maintenance::hopeful(s2),
                    apply,
                    0,
                    w2,
                    faults,
                    held,
                    outcome,
                );
            }
        }
        world::lemma_always_bind(
            each::each(Work::Restore, s, restore, 0),
            then,
            w,
            faults,
            held,
            restored,
            outcome,
        );
    }
    world::lemma_always_bind(
        reconcile::reconcile_paths(state, known),
        next,
        now,
        faults,
        held,
        between,
        outcome,
    );
}

/// Missing or ambiguous focus information does not cause a boost: where it cannot turn out
/// that only one cgroup claims the focus, a round of maintenance raises no limit at any
/// moment, and nothing is boosted afterwards that was not before. No boost may be
/// outstanding, unless the look shows something new: a boost that is outstanding for a
/// cgroup that is looked at is then not wanted any more.
pub proof fn maintenance_without_clear_focus_boosts_nothing(
    state: PolicyModel,
    now: World,
    faults: bool,
)
    requires
        laws::focus::undisputed(state),
        paths::keys(state.focus_values).no_duplicates(),
        unclear(now, state),
        state.pending_apply.len() == 0 || news(now, state) && forall|path: PathModel| #[trigger]
            state.pending_apply.contains(path) ==> maintenance::known_paths(state).contains(path),
    ensures
        world::always(
            maintenance::maintenance(state),
            now,
            faults,
            restoration::keeps(now, true),
            unboosted(state),
        ),
{
    let held = restoration::keeps(now, true);
    let outcome = unboosted(state);
    let from = PolicyModel { pending_registration: Seq::empty(), ..state };
    let retry = each::each(Work::Retry, from, state.pending_registration, 0);
    let between = retried(now, state);
    lemma_retried(state, now, true, now, faults);
    a_survey_learns_who_claims_the_focus(now, state);
    let next = |s: PolicyModel, done: bool| maintenance::survey(s);
    assert forall|w: World, s: PolicyModel, r: bool|
        held(w) && #[trigger] between(w, s, r) implies world::always(
        next(s, r),
        w,
        faults,
        held,
        outcome,
    ) by {
        let values = laws::focus::learned(now, s, maintenance::known_paths(s)).0;
        let active = focus::claimants(values);
        lemma_looked_at(now, state, s);
        a_survey_learns_who_claims_the_focus(now, s);
        if active.len() == 1 {
            let path = active[0];
            assert(active.contains(path));
            assert(maintenance::known_paths(s).contains(path));
            assert(in_view(state, path));
            let other = choose|other: PathModel|
                other != path && #[trigger] maintenance::known_paths(state).contains(other)
                    && focus::claims(now.focus.get(other));
            assert(maintenance::known_paths(s).contains(other));
            assert(active.contains(other));
        }
        if news(now, state) {
            let path = choose|path: PathModel| #[trigger]
                maintenance::known_paths(state).contains(path) && paths::lookup(
                    state.focus_values,
                    path,
                ) != Some(now.focus.get(path));
            assert(maintenance::known_paths(s).contains(path));
            assert(news(now, s));
        }
        lemma_calm_survey(s, now, faults);
    }
    world::lemma_always_bind(retry, next, now, faults, held, between, outcome);
}

/// The cgroup is the boosted one, with the limits that its record lists.
pub open spec fn boosting(path: PathModel) -> spec_fn(World, PolicyModel, bool) -> bool {
    |now: World, to: PolicyModel, done: bool|
        to.foreground == Some(path) && boost::in_force(now, path)
}

/// Nothing stands in the way of a boost that is outstanding.
spec fn awaits(state: PolicyModel, path: PathModel) -> bool {
    &&& state.pending_apply.contains(path)
    &&& !state.pending_restore.contains(path)
    &&& state.foreground != Some(path)
}

/// None of the boosts after a place is outstanding.
spec fn none_after(state: PolicyModel, all: Seq<PathModel>, place: int) -> bool {
    forall|i: int| place < i < all.len() ==> !state.pending_apply.contains(#[trigger] all[i])
}

/// Of the boosts that are tried the last one stays.
proof fn lemma_last_try(
    state: PolicyModel,
    all: Seq<PathModel>,
    next: nat,
    place: int,
    first: World,
    now: World,
)
    requires
        restoration::keeps(first, false)(now),
        all.no_duplicates(),
        next <= place < all.len(),
        world::readable(first, all[place]),
        awaits(state, all[place]),
        none_after(state, all, place),
    ensures
        world::always(
            each::each(Work::Apply, state, all, next),
            now,
            false,
            restoration::keeps(first, false),
            boosting(all[place]),
        ),
    decreases all.len() - next,
{
    let held = restoration::keeps(first, false);
    let path = all[place];
    let outcome = boosting(path);
    let one = all[next as int];
    let program = each::work(Work::Apply, state, one);
    let then = |s: PolicyModel, done: bool| each::each(Work::Apply, s, all, next + 1);
    let sequence = |p: Program| each::and_each(p, Work::Apply, all, next + 1);
    operations::lemma_each_goes_on(Work::Apply, all, next + 1);
    assert(world::readable(now, path));
    let between = |w: World, s: PolicyModel, r: bool|
        none_after(s, all, place) && if next == place {
            outcome(w, s, true)
        } else {
            awaits(s, path)
        };
    assert(next < place ==> one != path);
    if state.pending_apply.contains(one) && !state.pending_restore.contains(one) {
        boost::boosting_keeps_originals(state, one, first, now, false);
        let settled = boost::settlement(now, state, one, false);
        assert forall|w: World, s: PolicyModel, r: bool|
            held(w) && #[trigger] settled(w, s, r) implies between(w, s, r) by {
            assert(boost::settled(now, w, state, s, one, false));
            assert forall|i: int| place < i < all.len() implies !s.pending_apply.contains(
                #[trigger] all[i],
            ) by {
                assert(all[i] != one);
                assert(!state.pending_apply.contains(all[i]));
            }
            if next < place {
                assert(state.pending_apply.contains(path));
                assert(!s.pending_restore.contains(path));
            }
        }
        world::lemma_always_weaken(program, now, false, held, settled, held, between);
    } else {
        assert(between(now, state, true));
    }
    assert forall|w: World, s: PolicyModel, r: bool|
        held(w) && #[trigger] between(w, s, r) implies world::always(
        then(s, r),
        w,
        false,
        held,
        outcome,
    ) by {
        if next < place {
            lemma_last_try(s, all, next + 1, place, first, w);
        } else {
            lemma_no_tries(s, all, next + 1, w, false, held, outcome);
        }
    }
    world::lemma_always_sequence(
        program,
        sequence,
        then,
        now,
        false,
        held,
        between,
        outcome,
    );
}

proof fn lemma_boosting_survey(state: PolicyModel, place: int, now: World)
    requires
        laws::focus::undisputed(state),
        paths::keys(state.focus_values).no_duplicates(),
        state.pending_apply.no_duplicates(),
        0 <= place < state.pending_apply.len(),
        awaits(state, state.pending_apply[place]),
        world::readable(now, state.pending_apply[place]),
        news(now, state) ==> focus::claimants(
            laws::focus::learned(now, state, maintenance::known_paths(state)).0,
        ) == seq![state.pending_apply[place]],
        place + 1 == state.pending_apply.len() || news(now, state) && forall|path: PathModel|
            #[trigger]
            state.pending_apply.contains(path) ==> maintenance::known_paths(state).contains(path),
    ensures
        world::always(
            maintenance::survey(state),
            now,
            false,
            restoration::keeps(now, false),
            boosting(state.pending_apply[place]),
        ),
{
    let held = restoration::keeps(now, false);
    let restore = state.pending_restore;
    let apply = state.pending_apply;
    let path = apply[place];
    let outcome = boosting(path);
    let known = maintenance::known_paths(state);
    let values = laws::focus::learned(now, state, known).0;
    let between = laws::focus::follow_outcome(now, state, known, false);
    a_survey_learns_who_claims_the_focus(now, state);
    laws::focus::following_the_focus(state, known, now, false, now, false);
    let next = |s: PolicyModel, complete: bool|
        maintenance::and_apply(each::each(Work::Restore, s, restore, 0), complete, apply);
    assert forall|w: World, s: PolicyModel, r: bool|
        held(w) && #[trigger] between(w, s, r) implies world::always(
        next(s, r),
        w,
        false,
        held,
        outcome,
    ) by {
        assert(r);
        assert(awaits(s, path));
        assert forall|i: int| place < i < apply.len() implies !s.pending_apply.contains(
            #[trigger] apply[i],
        ) && s.focus_values == values by {
            let all = paths::keys(values);
            let other = apply[i];
            assert(state.pending_apply.contains(other));
            assert(all.contains(other));
            let k = choose|k: int| 0 <= k < all.len() && all[k] == other;
            assert(all[k] == other);
            assert(shutdown::among(all, 0, other));
            assert(other != path);
            assert(laws::focus::at_rest(w, s, other));
        }
        let restored = shutdown::all_restored_outcome(w, s, restore, 0, false);
        shutdown::lemma_each_restores(s, restore, 0, now, false, w, false);
        let then = |s2: PolicyModel, done: bool|
            if r {
                each::each(Work::Apply, maintenance::hopeful(s2), apply, 0)
            } else {
                Program::Done(s2, true)
            };
        assert forall|w2: World, s2: PolicyModel, r2: bool|
            held(w2) && #[trigger] restored(w2, s2, r2) implies world::always(
            then(s2, r2),
            w2,
            false,
            held,
            outcome,
        ) by {
            let hopeful = maintenance::hopeful(s2);
            let active = focus::claimants(s2.focus_values);
            assert(!shutdown::among(restore, 0, path)) by {
                if shutdown::among(restore, 0, path) {
                    let i = choose|i: int| 0 <= i < restore.len() && #[trigger] restore[i] == path;
                    assert(restore.contains(path));
                }
            }
            paths::lemma_with_all(s2.pending_apply, active);
            assert(awaits(hopeful, path));
            assert forall|i: int| place < i < apply.len() implies !hopeful.pending_apply.contains(
                #[trigger] apply[i],
            ) by {
                assert(!s.pending_apply.contains(apply[i]) && s.focus_values == values);
                assert(!s2.pending_apply.contains(apply[i]));
                assert(apply[i] != path);
                assert(active == seq![path]);
                assert(!active.contains(apply[i]));
            }
            lemma_last_try(hopeful, apply, 0, place, now, w2);
        }
        world::lemma_always_bind(
            each::each(Work::Restore, s, restore, 0),
            then,
            w,
            false,
            held,
            restored,
            outcome,
        );
    }
    world::lemma_always_bind(
        reconcile::reconcile_paths(state, known),
        next,
        now,
        false,
        held,
        between,
        outcome,
    );
}

/// An outstanding boost is tried again: a round of maintenance without faults leaves the
/// cgroup boosted, if its restoration is not outstanding and its record can be understood.
///
/// The cgroup must be the only one to claim the focus, or there must be nothing new to see.
/// Other boosts and restorations may be outstanding. The boosts are tried in turn, and the
/// last one stays; so it must be the last, unless the look shows something new, by which
/// the boosts of all other cgroups that are looked at are not wanted any more.
pub proof fn maintenance_boosts_what_is_outstanding(
    state: PolicyModel,
    path: PathModel,
    now: World,
)
    requires
        laws::focus::undisputed(state),
        state.foreground != Some(path),
        paths::keys(state.focus_values).no_duplicates(),
        state.pending_apply.no_duplicates(),
        state.pending_apply.contains(path),
        !state.pending_restore.contains(path),
        world::readable(now, path),
        alone(now, state, path) || state.pending_registration.len() == 0 && !news(now, state),
        state.pending_apply.last() == path || alone(now, state, path) && news(now, state)
            && forall|other: PathModel| #[trigger]
            state.pending_apply.contains(other) ==> maintenance::known_paths(state).contains(other),
    ensures
        world::always(
            maintenance::maintenance(state),
            now,
            false,
            restoration::keeps(now, false),
            boosting(path),
        ),
{
    let held = restoration::keeps(now, false);
    let outcome = boosting(path);
    let from = PolicyModel { pending_registration: Seq::empty(), ..state };
    let all = state.pending_registration;
    let retry = each::each(Work::Retry, from, all, 0);
    let between = retried(now, state);
    let exactly = |w: World, s: PolicyModel, r: bool|
        between(w, s, r) && (all.len() == 0 ==> s == from);
    lemma_retried(state, now, false, now, false);
    if all.len() > 0 {
        world::lemma_always_weaken(retry, now, false, held, between, held, exactly);
    } else {
        assert(retry == Program::Done(from, true));
        assert(exactly(now, from, true));
    }
    let place = choose|place: int|
        0 <= place < state.pending_apply.len() && state.pending_apply[place] == path;
    assert(state.pending_apply.last() == path ==> place + 1 == state.pending_apply.len());
    assert(awaits(state, path));
    a_survey_learns_who_claims_the_focus(now, state);
    let next = |s: PolicyModel, done: bool| maintenance::survey(s);
    assert forall|w: World, s: PolicyModel, r: bool|
        held(w) && #[trigger] exactly(w, s, r) implies world::always(
        next(s, r),
        w,
        false,
        held,
        outcome,
    ) by {
        let values = laws::focus::learned(now, s, maintenance::known_paths(s)).0;
        let active = focus::claimants(values);
        lemma_looked_at(now, state, s);
        a_survey_learns_who_claims_the_focus(now, s);
        if alone(now, state, path) {
            assert(maintenance::known_paths(s).contains(path));
            assert(active.contains(path));
            if active.len() > 1 {
                let other = if active[0] == path {
                    active[1]
                } else {
                    active[0]
                };
                assert(active.contains(other));
                assert(other != path);
                assert(maintenance::known_paths(s).contains(other));
                assert(in_view(state, other));
            }
            assert(active =~= seq![path]);
            if news(now, state) {
                let changed = choose|changed: PathModel| #[trigger]
                    maintenance::known_paths(state).contains(changed) && paths::lookup(
                        state.focus_values,
                        changed,
                    ) != Some(now.focus.get(changed));
                assert(maintenance::known_paths(s).contains(changed));
                assert(news(now, s));
            }
        } else {
            assert(maintenance::known_paths(from) == maintenance::known_paths(state));
        }
        lemma_boosting_survey(s, place, now);
    }
    world::lemma_always_bind(retry, next, now, false, held, exactly, outcome);
}

/// The boost of every cgroup that is known to claim the focus is outstanding, where none is
/// boosted and it is clear which claims it. Where several claim it no boost is outstanding,
/// but maybe that of the cgroup that was boosted before.
pub open spec fn hopes(before: Option<PathModel>, state: PolicyModel) -> bool {
    &&& state.foreground is None && state.ambiguous_active.len() == 0 ==> forall|path: PathModel|
        #[trigger]
        paths::lookup(state.focus_values, path) is Some && focus::claims(
            paths::lookup(state.focus_values, path)->0,
        ) ==> state.pending_apply.contains(path)
    &&& state.ambiguous_active.len() > 0 ==> forall|path: PathModel|
        before != Some(path) ==> !(#[trigger] state.pending_apply.contains(path))
}

proof fn lemma_hopes(state: PolicyModel, first: World, now: World)
    requires
        restoration::keeps(first, false)(now),
        laws::focus::undisputed(state),
        state.pending_apply.len() == 0,
    ensures
        world::always(
            maintenance::survey(state),
            now,
            false,
            restoration::keeps(first, false),
            |w: World, to: PolicyModel, done: bool| hopes(state.foreground, to),
        ),
{
    let held = restoration::keeps(first, false);
    let outcome = |w: World, to: PolicyModel, done: bool| hopes(state.foreground, to);
    let restore = state.pending_restore;
    let apply = state.pending_apply;
    let known = maintenance::known_paths(state);
    let between = laws::focus::follow_outcome(now, state, known, false);
    laws::focus::following_the_focus(state, known, first, false, now, false);
    let next = |s: PolicyModel, complete: bool|
        maintenance::and_apply(each::each(Work::Restore, s, restore, 0), complete, apply);
    assert forall|w: World, s: PolicyModel, r: bool|
        held(w) && #[trigger] between(w, s, r) implies world::always(
        next(s, r),
        w,
        false,
        held,
        outcome,
    ) by {
        assert(r);
        if s.ambiguous_active.len() > 0 {
            let values = laws::focus::learned(now, state, known).0;
            let all = paths::keys(values);
            assert forall|path: PathModel| state.foreground != Some(path) implies !(
            #[trigger] s.pending_apply.contains(path)) by {
                if laws::focus::learned(now, state, known).1 {
                    assert(reconcile::sole(focus::claimants(values)) is None);
                    if shutdown::among(all, 0, path) {
                        assert(laws::focus::at_rest(w, s, path));
                    } else {
                        assert(!state.pending_apply.contains(path));
                    }
                }
            }
        }
        let restored = shutdown::all_restored_outcome(w, s, restore, 0, false);
        shutdown::lemma_each_restores(s, restore, 0, first, false, w, false);
        let then = |s2: PolicyModel, done: bool|
            if r {
                each::each(Work::Apply, maintenance::hopeful(s2), apply, 0)
            } else {
                Program::Done(s2, true)
            };
        assert forall|w2: World, s2: PolicyModel, r2: bool|
            held(w2) && #[trigger] restored(w2, s2, r2) implies world::always(
            then(s2, r2),
            w2,
            false,
            held,
            outcome,
        ) by {
            let hopeful = maintenance::hopeful(s2);
            let active = focus::claimants(s2.focus_values);
            paths::lemma_with_all(s2.pending_apply, active);
            assert(hopes(state.foreground, hopeful)) by {
                assert forall|path: PathModel| #[trigger]
                    paths::lookup(hopeful.focus_values, path) is Some && focus::claims(
                        paths::lookup(hopeful.focus_values, path)->0,
                    ) implies active.contains(path) by {
                    laws::focus::claimants_claim_the_focus(s2.focus_values, path);
                    let i = lemma_lookup_index(s2.focus_values, path);
                    assert(s2.focus_values[i].0 == path);
                }
            }
            assert(outcome(w2, hopeful, true));
        }
        world::lemma_always_bind(
            each::each(Work::Restore, s, restore, 0),
            then,
            w,
            false,
            held,
            restored,
            outcome,
        );
    }
    world::lemma_always_bind(
        reconcile::reconcile_paths(state, known),
        next,
        now,
        false,
        held,
        between,
        outcome,
    );
}

/// After a round of maintenance without faults that begins without outstanding boosts, the
/// cgroup that is known to claim the focus, if it is clear which one does, is not passed
/// over: where none is boosted, its boost is outstanding. Where it is not clear no boost is
/// outstanding, but maybe that of the cgroup that was boosted before.
pub proof fn maintenance_passes_over_no_claimant(state: PolicyModel, now: World)
    requires
        laws::focus::undisputed(state),
        state.pending_apply.len() == 0,
    ensures
        world::always(
            maintenance::maintenance(state),
            now,
            false,
            restoration::keeps(now, false),
            |w: World, to: PolicyModel, done: bool| hopes(state.foreground, to),
        ),
{
    let held = restoration::keeps(now, false);
    let outcome = |w: World, to: PolicyModel, done: bool| hopes(state.foreground, to);
    let from = PolicyModel { pending_registration: Seq::empty(), ..state };
    let retry = each::each(Work::Retry, from, state.pending_registration, 0);
    let between = retried(now, state);
    lemma_retried(state, now, false, now, false);
    let next = |s: PolicyModel, done: bool| maintenance::survey(s);
    assert forall|w: World, s: PolicyModel, r: bool|
        held(w) && #[trigger] between(w, s, r) implies world::always(
        next(s, r),
        w,
        false,
        held,
        outcome,
    ) by {
        lemma_hopes(s, now, w);
    }
    world::lemma_always_bind(retry, next, now, false, held, between, outcome);
}

}
