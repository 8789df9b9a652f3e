//! Whole runs: operations one after another, and a stop at the end.

use crate::activate;
use crate::each;
use crate::each::Work;
use crate::events;
use crate::laws;
use crate::laws::accounting;
use crate::laws::boost;
use crate::laws::consistency;
use crate::laws::consistency::Aspects;
use crate::laws::operations;
use crate::laws::restoration;
use crate::laws::shutdown;
use crate::maintenance;
use crate::path::PathModel;
use crate::policy;
use crate::program::Program;
use crate::reconcile;
use crate::register;
use crate::request::Answer;
use crate::restore;
use crate::state::PolicyModel;
use crate::untrack;
use crate::watch::WatchEvent;
use crate::world;
use crate::world::World;
use vstd::prelude::*;

verus! {

/// An operation of the policy.
pub enum Operation {
    Restore(PathModel),
    Activate(PathModel),
    Eligible(PathModel),
    Register(PathModel),
    Untrack(PathModel),
    RestrictTo(PathModel),
    Events(Seq<WatchEvent>),
    RebuildWatches,
    Reconcile,
    ReconcilePaths(Seq<PathModel>),
    Maintenance,
    Shutdown,
}

/// What an operation does.
pub open spec fn program(operation: Operation, state: PolicyModel) -> Program {
    match operation {
        Operation::Restore(path) => restore::restore(state, path),
        Operation::Activate(path) => activate::activate(state, path),
        Operation::Eligible(path) => register::eligible(state, path),
        Operation::Register(path) => register::register(state, path),
        Operation::Untrack(path) => untrack::untrack(state, path),
        Operation::RestrictTo(root) => policy::restrict_to(state, root),
        Operation::Events(reported) => events::process_events(state, reported),
        Operation::RebuildWatches => events::rebuild_watches(state),
        Operation::Reconcile => events::reconcile(state),
        Operation::ReconcilePaths(all) => reconcile::reconcile_paths(state, all),
        Operation::Maintenance => maintenance::maintenance(state),
        Operation::Shutdown => policy::shutdown(state),
    }
}

/// Boosting leaves no record astray.
proof fn lemma_activate(
    state: PolicyModel,
    path: PathModel,
    first: World,
    now: World,
    faults: bool,
)
    requires
        restoration::keeps(first, false)(now),
    ensures
        world::always(
            activate::activate(state, path),
            now,
            faults,
            restoration::keeps(first, false),
            accounting::accounts(now, state),
        ),
{
    let held = restoration::keeps(first, false);
    let outcome = accounting::accounts(now, state);
    let between = boost::settlement(now, state, path, faults);
    boost::boosting_keeps_originals(state, path, first, now, faults);
    assert forall|w: World, s: PolicyModel, r: bool|
        held(w) && #[trigger] between(w, s, r) implies outcome(w, s, r) by {
        accounting::lemma_settled(now, w, state, s, path, faults);
    }
    world::lemma_always_weaken(
        activate::activate(state, path),
        now,
        faults,
        held,
        between,
        held,
        outcome,
    );
}

/// Examining a cgroup changes nothing that the policy remembers.
proof fn lemma_eligible_ends(state: PolicyModel, path: PathModel)
    ensures
        consistency::ends(register::eligible(state, path), consistency::either(state, state)),
{
    let same = consistency::either(state, state);
    consistency::lemma_ends_ask(register::ask_writable(state, path), same);
    consistency::lemma_ends_ask(register::ask_support(state, path), same);
    consistency::lemma_ends_ask(register::eligible(state, path), same);
}

/// Examining a cgroup leaves no record astray.
proof fn lemma_eligible(
    state: PolicyModel,
    path: PathModel,
    first: World,
    now: World,
    faults: bool,
)
    requires
        restoration::keeps(first, false)(now),
    ensures
        world::always(
            register::eligible(state, path),
            now,
            faults,
            restoration::keeps(first, false),
            accounting::accounts(now, state),
        ),
{
    let same = consistency::either(state, state);
    operations::lemma_eligible(state, path, first, false, now, faults);
    lemma_eligible_ends(state, path);
    laws::maintenance::lemma_both(
        register::eligible(state, path),
        now,
        faults,
        restoration::keeps(first, false),
        operations::untouched(now),
        same,
        accounting::accounts(now, state),
    );
}

/// Shutting down leaves no record astray.
proof fn lemma_shutdown(state: PolicyModel, first: World, now: World, faults: bool)
    requires
        restoration::keeps(first, false)(now),
    ensures
        world::always(
            policy::shutdown(state),
            now,
            faults,
            restoration::keeps(first, false),
            accounting::accounts(now, state),
        ),
{
    let held = restoration::keeps(first, false);
    let outcome = accounting::accounts(now, state);
    let between = shutdown::shutdown_outcome(now, state, faults);
    shutdown::shutdown_restores_everything(state, first, false, now, faults);
    assert forall|w: World, s: PolicyModel, r: bool|
        held(w) && #[trigger] between(w, s, r) implies outcome(w, s, r) by {
        assert forall|path: PathModel| #[trigger]
            accounting::stray(w, s, path) implies accounting::stray(now, state, path) by {
            assert(!policy::unsettled(state).contains(path));
            accounting::stray_records_are_not_unsettled(now, state, path);
        }
    }
    world::lemma_always_weaken(
        policy::shutdown(state),
        now,
        faults,
        held,
        between,
        held,
        outcome,
    );
}

/// Whatever fails in an operation, no original limit is lost at any moment, and no record
/// goes astray: once it has ended, every cgroup that has a record and had none before is
/// boosted, or its boost or its restoration is outstanding.
pub proof fn every_operation_accounts_for_its_records(
    operation: Operation,
    state: PolicyModel,
    first: World,
    now: World,
    faults: bool,
)
    requires
        restoration::keeps(first, false)(now),
    ensures
        world::always(
            program(operation, state),
            now,
            faults,
            restoration::keeps(first, false),
            accounting::accounts(now, state),
        ),
{
    match operation {
        Operation::Restore(path) => {
            operations::lemma_work(Work::Restore, state, path, first, false, now, faults);
        },
        Operation::Activate(path) => {
            lemma_activate(state, path, first, now, faults);
        },
        Operation::Eligible(path) => {
            lemma_eligible(state, path, first, now, faults);
        },
        Operation::Register(path) => {
            operations::lemma_work(Work::Register, state, path, first, false, now, faults);
        },
        Operation::Untrack(path) => {
            operations::lemma_work(Work::Untrack, state, path, first, false, now, faults);
        },
        Operation::RestrictTo(root) => {
            operations::restricting_keeps_originals(state, root, first, false, now, faults);
        },
        Operation::Events(reported) => {
            operations::events_keep_originals(state, reported, first, now, faults);
        },
        Operation::RebuildWatches => {
            operations::rebuilding_keeps_originals(state, first, now, faults);
        },
        Operation::Reconcile => {
            operations::reconciling_keeps_originals(state, first, now, faults);
        },
        Operation::ReconcilePaths(all) => {
            laws::focus::looking_keeps_originals(state, all, first, now, faults);
        },
        Operation::Maintenance => {
            operations::maintenance_keeps_originals(state, first, now, faults);
        },
        Operation::Shutdown => {
            lemma_shutdown(state, first, now, faults);
        },
    }
}

/// Whatever the system answers, an operation that begins with a memory that makes sense in
/// some aspects ends with one that makes sense in these.
pub proof fn every_operation_stays_sound(
    aspects: Aspects,
    operation: Operation,
    state: PolicyModel,
)
    requires
        consistency::sound(aspects, state),
    ensures
        consistency::ends(program(operation, state), consistency::soundly(aspects)),
{
    match operation {
        Operation::Restore(path) => {
            consistency::restoring_stays_sound(aspects, state, path);
        },
        Operation::Activate(path) => {
            consistency::boosting_stays_sound(aspects, state, path);
        },
        Operation::Eligible(path) => {
            lemma_eligible_ends(state, path);
            consistency::lemma_ends_weaken(
                register::eligible(state, path),
                consistency::either(state, state),
                consistency::soundly(aspects),
            );
        },
        Operation::Register(path) => {
            consistency::registering_stays_sound(aspects, state, path);
        },
        Operation::Untrack(path) => {
            consistency::untracking_stays_sound(aspects, state, path);
        },
        Operation::RestrictTo(root) => {
            consistency::restricting_stays_sound(aspects, state, root);
        },
        Operation::Events(reported) => {
            consistency::events_stay_sound(aspects, state, reported);
        },
        Operation::RebuildWatches => {
            consistency::rebuilding_stays_sound(aspects, state);
        },
        Operation::Reconcile => {
            consistency::reconciling_stays_sound(aspects, state);
        },
        Operation::ReconcilePaths(all) => {
            consistency::looking_stays_sound(aspects, state, all);
        },
        Operation::Maintenance => {
            consistency::maintenance_stays_sound(aspects, state);
        },
        Operation::Shutdown => {
            consistency::shutdown_stays_sound(aspects, state);
        },
    }
}

/// Whatever the system answers, an operation keeps the rivals for the focus: if they are the
/// cgroups that are known to claim it, where there are two or more, and none otherwise, then
/// they still are at the end, so that there is never one alone. Nothing else need hold of
/// what the policy remembers.
pub proof fn every_operation_keeps_the_rivals(operation: Operation, state: PolicyModel)
    requires
        consistency::rivals_are_known(state),
    ensures
        consistency::ends(
            program(operation, state),
            |to: PolicyModel, result: bool|
                consistency::rivals_are_known(to) && to.ambiguous_active.len() != 1,
        ),
{
    let aspects = Aspects { foreground: false, rivals: true, registrations: false, watches: false };
    let outcome = |to: PolicyModel, result: bool|
        consistency::rivals_are_known(to) && to.ambiguous_active.len() != 1;
    every_operation_stays_sound(aspects, operation, state);
    assert forall|to: PolicyModel, result: bool| #[trigger]
        consistency::soundly(aspects)(to, result) implies outcome(to, result) by {
        consistency::rivals_are_the_claimants(to, Seq::empty());
    }
    consistency::lemma_ends_weaken(
        program(operation, state),
        consistency::soundly(aspects),
        outcome,
    );
}

/// Whether an operation can end like that.
pub open spec fn leads(
    program: Program,
    world: World,
    faults: bool,
    now: World,
    to: PolicyModel,
    result: bool,
) -> bool
    decreases program,
{
    match program {
        Program::Done(state, outcome) => now == world && to == state && result == outcome,
        Program::Ask(call, next) => exists|answer: Answer| #[trigger]
            world::possible(world, call, answer, faults) && leads(
                next(answer),
                world::after(world, call, answer),
                faults,
                now,
                to,
                result,
            ),
    }
}

/// What always holds of how an operation ends, holds wherever it can end.
proof fn lemma_leads(
    program: Program,
    world: World,
    faults: bool,
    held: spec_fn(World) -> bool,
    outcome: spec_fn(World, PolicyModel, bool) -> bool,
    now: World,
    to: PolicyModel,
    result: bool,
)
    requires
        world::always(program, world, faults, held, outcome),
        leads(program, world, faults, now, to, result),
    ensures
        held(now),
        outcome(now, to, result),
    decreases program,
{
    if let Program::Ask(call, next) = program {
        let answer = choose|answer: Answer| #[trigger]
            world::possible(world, call, answer, faults) && leads(
                next(answer),
                world::after(world, call, answer),
                faults,
                now,
                to,
                result,
            );
        lemma_leads(
            next(answer),
            world::after(world, call, answer),
            faults,
            held,
            outcome,
            now,
            to,
            result,
        );
    }
}

/// How an operation ends, whatever is answered, is how it ends wherever it can end.
proof fn lemma_leads_ends(
    program: Program,
    world: World,
    faults: bool,
    outcome: spec_fn(PolicyModel, bool) -> bool,
    now: World,
    to: PolicyModel,
    result: bool,
)
    requires
        consistency::ends(program, outcome),
        leads(program, world, faults, now, to, result),
    ensures
        outcome(to, result),
    decreases program,
{
    if let Program::Ask(call, next) = program {
        let answer = choose|answer: Answer| #[trigger]
            world::possible(world, call, answer, faults) && leads(
                next(answer),
                world::after(world, call, answer),
                faults,
                now,
                to,
                result,
            );
        assert(consistency::ends(next(answer), outcome));
        lemma_leads_ends(
            next(answer),
            world::after(world, call, answer),
            faults,
            outcome,
            now,
            to,
            result,
        );
    }
}

/// An operation within a run, and the system as it finds it.
pub struct Act {
    pub found: World,
    pub operation: Operation,
}

/// Between operations nobody else writes a record. One may disappear, as it does with its
/// cgroup. Of the cgroups where it is `quiet`, neither the record nor a limit changes.
/// Anything else may change, such as the focus.
pub open spec fn undisturbed(left: World, found: World, quiet: Set<PathModel>) -> bool {
    &&& forall|path: PathModel|
        #[trigger] found.records.get(path) == left.records.get(path) || found.records.get(path)
            is None
    &&& forall|path: PathModel| #[trigger]
        quiet.contains(path) ==> found.records.get(path) == left.records.get(path)
    &&& forall|path: PathModel, region: Seq<char>|
        quiet.contains(path) ==> #[trigger] world::limit(found, path, region) == world::limit(
            left,
            path,
            region,
        )
}

/// Whether a run can lead from one system and memory to another: operations one after
/// another, in each of which anything may fail.
pub open spec fn runs(
    first: World,
    from: PolicyModel,
    acts: Seq<Act>,
    quiet: Set<PathModel>,
    now: World,
    to: PolicyModel,
) -> bool
    decreases acts.len(),
{
    if acts.len() == 0 {
        now == first && to == from
    } else {
        let last = acts.last();
        exists|left: World, state: PolicyModel, result: bool|
            runs(first, from, acts.drop_last(), quiet, left, state) && #[trigger] undisturbed(
                left,
                last.found,
                quiet,
            ) && #[trigger] leads(
                program(last.operation, state),
                last.found,
                true,
                now,
                to,
                result,
            )
    }
}

/// What a run keeps.
spec fn kept(
    first: World,
    from: PolicyModel,
    quiet: Set<PathModel>,
    now: World,
    to: PolicyModel,
) -> bool {
    &&& accounting::accounted(first, from, now, to)
    &&& forall|path: PathModel|
        world::readable(first, path) ==> #[trigger] world::readable(now, path)
    &&& forall|path: PathModel, region: Seq<char>|
        quiet.contains(path) ==> #[trigger] world::original(now, path, region) == world::original(
            first,
            path,
            region,
        )
}

/// What a run keeps is kept as long as nobody disturbs it.
proof fn lemma_undisturbed(left: World, found: World, quiet: Set<PathModel>)
    requires
        undisturbed(left, found, quiet),
    ensures
        forall|path: PathModel|
            world::readable(left, path) ==> #[trigger] world::readable(found, path),
        forall|path: PathModel, region: Seq<char>|
            quiet.contains(path) ==> #[trigger] world::original(found, path, region)
                == world::original(left, path, region),
{
    assert forall|path: PathModel| world::readable(left, path) implies #[trigger] world::readable(
        found,
        path,
    ) by {
        assert(found.records.get(path) == left.records.get(path) || found.records.get(path)
            is None);
    }
    assert forall|path: PathModel, region: Seq<char>|
        quiet.contains(path) implies #[trigger] world::original(found, path, region)
        == world::original(left, path, region) by {
        assert(world::limit(found, path, region) == world::limit(left, path, region));
    }
}

proof fn lemma_kept(
    first: World,
    from: PolicyModel,
    acts: Seq<Act>,
    quiet: Set<PathModel>,
    now: World,
    to: PolicyModel,
)
    requires
        runs(first, from, acts, quiet, now, to),
    ensures
        kept(first, from, quiet, now, to),
    decreases acts.len(),
{
    if acts.len() > 0 {
        let last = acts.last();
        let (left, state, result) = choose|left: World, state: PolicyModel, result: bool|
            runs(first, from, acts.drop_last(), quiet, left, state) && #[trigger] undisturbed(
                left,
                last.found,
                quiet,
            ) && #[trigger] leads(
                program(last.operation, state),
                last.found,
                true,
                now,
                to,
                result,
            );
        lemma_kept(first, from, acts.drop_last(), quiet, left, state);
        lemma_undisturbed(left, last.found, quiet);
        every_operation_accounts_for_its_records(
            last.operation,
            state,
            last.found,
            last.found,
            true,
        );
        lemma_leads(
            program(last.operation, state),
            last.found,
            true,
            restoration::keeps(last.found, false),
            accounting::accounts(last.found, state),
            now,
            to,
            result,
        );
        assert forall|path: PathModel| #[trigger] accounting::stray(
            now,
            to,
            path,
        ) implies accounting::stray(first, from, path) by {
            assert(accounting::stray(last.found, state, path));
            assert(last.found.records.get(path) == left.records.get(path));
            assert(accounting::stray(left, state, path));
        }
        assert forall|path: PathModel| world::readable(
            first,
            path,
        ) implies #[trigger] world::readable(now, path) by {
            assert(world::readable(left, path));
            assert(world::readable(last.found, path));
        }
        assert forall|path: PathModel, region: Seq<char>|
            quiet.contains(path) implies #[trigger] world::original(now, path, region)
            == world::original(first, path, region) by {
            assert(world::original(now, path, region) == world::original(
                last.found,
                path,
                region,
            ));
            assert(world::original(last.found, path, region) == world::original(
                left,
                path,
                region,
            ));
            assert(world::original(left, path, region) == world::original(first, path, region));
        }
    }
}

/// What the policy remembers keeps making sense throughout a run, in every aspect in which
/// it did at first.
pub proof fn a_run_stays_sound(
    aspects: Aspects,
    first: World,
    from: PolicyModel,
    acts: Seq<Act>,
    quiet: Set<PathModel>,
    now: World,
    to: PolicyModel,
)
    requires
        consistency::sound(aspects, from),
        runs(first, from, acts, quiet, now, to),
    ensures
        consistency::sound(aspects, to),
    decreases acts.len(),
{
    if acts.len() > 0 {
        let last = acts.last();
        let (left, state, result) = choose|left: World, state: PolicyModel, result: bool|
            runs(first, from, acts.drop_last(), quiet, left, state) && #[trigger] undisturbed(
                left,
                last.found,
                quiet,
            ) && #[trigger] leads(
                program(last.operation, state),
                last.found,
                true,
                now,
                to,
                result,
            );
        a_run_stays_sound(aspects, first, from, acts.drop_last(), quiet, left, state);
        every_operation_stays_sound(aspects, last.operation, state);
        lemma_leads_ends(
            program(last.operation, state),
            last.found,
            true,
            consistency::soundly(aspects),
            now,
            to,
            result,
        );
    }
}

/// After any run, whatever failed in it, every cgroup that has a record and had none at
/// first is boosted, or its boost or its restoration is outstanding: a shutdown would
/// restore it. No record has become unreadable, and no original limit is lost of a cgroup
/// that nobody else has disturbed.
pub proof fn a_run_accounts_for_its_records(
    first: World,
    from: PolicyModel,
    acts: Seq<Act>,
    quiet: Set<PathModel>,
    now: World,
    to: PolicyModel,
)
    requires
        runs(first, from, acts, quiet, now, to),
    ensures
        forall|path: PathModel| #[trigger]
            now.records.get(path) is Some && first.records.get(path) is None ==> policy::unsettled(
                to,
            ).contains(path),
        forall|path: PathModel|
            world::readable(first, path) ==> #[trigger] world::readable(now, path),
        forall|path: PathModel, region: Seq<char>|
            quiet.contains(path) ==> #[trigger] world::original(now, path, region)
                == world::original(first, path, region),
{
    lemma_kept(first, from, acts, quiet, now, to);
    assert forall|path: PathModel| #[trigger]
        now.records.get(path) is Some && first.records.get(path) is None implies policy::unsettled(
        to,
    ).contains(path) by {
        accounting::stray_records_are_not_unsettled(now, to, path);
        if accounting::stray(now, to, path) {
            assert(accounting::stray(first, from, path));
        }
    }
}

/// Nothing is left behind: nothing is boosted, no boost is outstanding, and no cgroup that
/// had no record at first has one, or a restoration outstanding. Those of them where it is
/// `quiet` have the limits that they had at first.
pub open spec fn left_nothing(first: World, quiet: Set<PathModel>) -> spec_fn(
    World,
    PolicyModel,
    bool,
) -> bool {
    |now: World, to: PolicyModel, done: bool|
        {
            &&& to.foreground is None
            &&& to.pending_apply.len() == 0
            &&& forall|path: PathModel| #[trigger]
                first.records.get(path) is None ==> {
                    &&& now.records.get(path) is None
                    &&& !to.pending_restore.contains(path)
                    &&& quiet.contains(path) ==> forall|region: Seq<char>| #[trigger]
                        world::limit(now, path, region) == world::limit(first, path, region)
                }
        }
}

/// A run, whatever failed in it, and a shutdown without faults after it leave nothing
/// behind, though cgroups may have disappeared with their records between operations.
pub proof fn a_run_and_a_shutdown_leave_nothing_behind(
    first: World,
    from: PolicyModel,
    acts: Seq<Act>,
    quiet: Set<PathModel>,
    left: World,
    to: PolicyModel,
    found: World,
)
    requires
        runs(first, from, acts, quiet, left, to),
        undisturbed(left, found, quiet),
    ensures
        world::always(
            policy::shutdown(to),
            found,
            false,
            restoration::keeps(found, false),
            left_nothing(first, quiet),
        ),
{
    let held = restoration::keeps(found, false);
    let outcome = left_nothing(first, quiet);
    let between = shutdown::shutdown_outcome(found, to, false);
    lemma_kept(first, from, acts, quiet, left, to);
    lemma_undisturbed(left, found, quiet);
    a_run_accounts_for_its_records(first, from, acts, quiet, left, to);
    shutdown::shutdown_restores_everything(to, found, false, found, false);
    assert forall|w: World, s: PolicyModel, r: bool|
        held(w) && #[trigger] between(w, s, r) implies outcome(w, s, r) by {
        assert forall|path: PathModel| #[trigger] first.records.get(path) is None implies {
            &&& w.records.get(path) is None
            &&& !s.pending_restore.contains(path)
            &&& quiet.contains(path) ==> forall|region: Seq<char>| #[trigger]
                world::limit(w, path, region) == world::limit(first, path, region)
        } by {
            assert(world::readable(first, path));
            assert(world::readable(left, path));
            assert(world::readable(found, path));
            if !policy::unsettled(to).contains(path) {
                assert(left.records.get(path) is None);
                assert(found.records.get(path) is None);
                assert(w.records.get(path) == found.records.get(path));
            }
            if quiet.contains(path) {
                assert forall|region: Seq<char>| #[trigger]
                    world::limit(w, path, region) == world::limit(first, path, region) by {
                    assert(world::original(w, path, region) == world::original(
                        found,
                        path,
                        region,
                    ));
                    assert(world::original(found, path, region) == world::original(
                        left,
                        path,
                        region,
                    ));
                    assert(world::original(left, path, region) == world::original(
                        first,
                        path,
                        region,
                    ));
                }
            }
        }
    }
    world::lemma_always_weaken(
        policy::shutdown(to),
        found,
        false,
        held,
        between,
        held,
        outcome,
    );
}

}
