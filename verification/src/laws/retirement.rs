//! Moving on: nothing outside a new root is left to follow.

use crate::each;
use crate::each::Work;
use crate::laws::consistency;
use crate::laws::operations;
use crate::path;
use crate::path::PathModel;
use crate::paths;
use crate::policy;
use crate::program::Program;
use crate::restore;
use crate::state::PolicyModel;
use crate::untrack;
use vstd::prelude::*;

verus! {

/// Whether a cgroup is tracked, waits for its registration, is known by its focus, waits
/// for its boost or is boosted.
pub open spec fn concerned(state: PolicyModel, path: PathModel) -> bool {
    ||| paths::lookup(state.paths, path) is Some
    ||| state.pending_registration.contains(path)
    ||| paths::lookup(state.focus_values, path) is Some
    ||| state.pending_apply.contains(path)
    ||| state.foreground == Some(path)
}

/// No cgroup is concerned that was not before, and those from a place on are not.
pub open spec fn retired(from: PolicyModel, to: PolicyModel, all: Seq<PathModel>, next: nat) -> bool {
    &&& forall|path: PathModel| #[trigger] concerned(to, path) ==> concerned(from, path)
    &&& forall|i: int| next <= i < all.len() ==> !concerned(to, #[trigger] all[i])
}

/// The same, as an outcome.
pub open spec fn retirement(from: PolicyModel, all: Seq<PathModel>, next: nat) -> spec_fn(
    PolicyModel,
    bool,
) -> bool {
    |to: PolicyModel, done: bool| retired(from, to, all, next)
}

/// A cgroup that is forgotten is concerned no more than by its watch, its registration or
/// its boost.
proof fn lemma_forgotten(state: PolicyModel, path: PathModel)
    ensures
        ({
            let now = untrack::forgotten(state, path);
            &&& forall|p: PathModel| #[trigger] concerned(now, p) ==> concerned(state, p)
            &&& concerned(now, path) ==> paths::lookup(state.paths, path) is Some
                || state.pending_registration.contains(path) || state.foreground == Some(path)
        }),
{
    paths::lemma_without(state.pending_apply, path);
    consistency::lemma_dropped_lookup(state.focus_values, path);
}

/// After a cgroup was let go it is not concerned any more, and no other is anew.
proof fn lemma_untrack(from: PolicyModel, path: PathModel)
    ensures
        consistency::ends(untrack::untrack(from, path), retirement(from, seq![path], 0)),
{
    let start = untrack::unregistered(from, path);
    let releasing = restore::releasing(start, path);
    let released = restore::released(releasing, path);
    let between = consistency::either(releasing, released);
    let outcome = retirement(from, seq![path], 0);
    paths::lemma_without(from.pending_registration, path);
    paths::lemma_without(from.pending_apply, path);
    consistency::lemma_restore(start, path);
    let next = |s: PolicyModel, done: bool| untrack::unwatch(s, path);
    assert forall|s: PolicyModel, r: bool| #[trigger] between(s, r) implies consistency::ends(
        next(s, r),
        outcome,
    ) by {
        assert(forall|p: PathModel| #[trigger] concerned(s, p) ==> concerned(from, p));
        match paths::lookup(s.paths, path) {
            Some(watch) => {
                let gone = untrack::unattended(s, path, watch);
                consistency::lemma_dropped_lookup(s.paths, path);
                assert(forall|p: PathModel| #[trigger] concerned(gone, p) ==> concerned(s, p));
                lemma_forgotten(gone, path);
                let end = untrack::forgotten(gone, path);
                assert(retired(from, end, seq![path], 0));
                consistency::lemma_ends_ask(untrack::ask_unwatch(gone, path, watch), outcome);
            },
            None => {
                lemma_forgotten(s, path);
                let end = untrack::forgotten(s, path);
                assert(retired(from, end, seq![path], 0));
            },
        }
    }
    consistency::lemma_ends_bind(restore::restore(start, path), next, between, outcome);
}

proof fn lemma_each(from: PolicyModel, all: Seq<PathModel>, next: nat)
    ensures
        consistency::ends(each::each(Work::Untrack, from, all, next), retirement(from, all, next)),
    decreases all.len() - next,
{
    let outcome = retirement(from, all, next);
    if next < all.len() {
        let one = all[next as int];
        let between = retirement(from, seq![one], 0);
        lemma_untrack(from, one);
        let then = |s: PolicyModel, done: bool| each::each(Work::Untrack, s, all, next + 1);
        let sequence = |p: Program| each::and_each(p, Work::Untrack, all, next + 1);
        operations::lemma_each_goes_on(Work::Untrack, all, next + 1);
        assert forall|s: PolicyModel, r: bool| #[trigger] between(s, r) implies consistency::ends(
            then(s, r),
            outcome,
        ) by {
            lemma_each(s, all, next + 1);
            let rest = retirement(s, all, next + 1);
            assert forall|s2: PolicyModel, r2: bool| #[trigger] rest(s2, r2) implies outcome(
                s2,
                r2,
            ) by {
                assert(!concerned(s, seq![one][0]));
                assert forall|i: int| next <= i < all.len() implies !concerned(
                    s2,
                    #[trigger] all[i],
                ) by {
                    if i == next {
                        assert(concerned(s2, one) ==> concerned(s, one));
                    }
                }
            }
            consistency::lemma_ends_weaken(then(s, r), rest, outcome);
        }
        consistency::lemma_ends_sequence(
            each::work(Work::Untrack, from, one),
            sequence,
            then,
            between,
            outcome,
        );
    }
}

/// The cgroups that have to do with the policy are those that are concerned.
proof fn lemma_involved(state: PolicyModel)
    ensures
        forall|path: PathModel| #[trigger]
            policy::involved(state).contains(path) <==> concerned(state, path),
{
    let none = Seq::<PathModel>::empty();
    let followed = paths::with_all(none, paths::keys(state.paths));
    let waiting = paths::with_all(followed, state.pending_registration);
    let known = paths::with_all(waiting, paths::keys(state.focus_values));
    let wanted = paths::with_all(known, state.pending_apply);
    paths::lemma_with_all(none, paths::keys(state.paths));
    paths::lemma_with_all(followed, state.pending_registration);
    paths::lemma_with_all(waiting, paths::keys(state.focus_values));
    paths::lemma_with_all(known, state.pending_apply);
    if let Some(foreground) = state.foreground {
        paths::lemma_with(wanted, foreground);
    }
    assert forall|path: PathModel| #[trigger] policy::involved(state).contains(path) <==> concerned(
        state,
        path,
    ) by {
        paths::lemma_lookup_keys(state.paths, path);
        paths::lemma_lookup_keys(state.focus_values, path);
    }
}

proof fn lemma_outside(root: PathModel, all: Seq<PathModel>, path: PathModel)
    requires
        all.contains(path),
        !path::application_cgroup(root, path),
    ensures
        policy::outside(root, all).contains(path),
    decreases all.len(),
{
    let front = all.drop_last();
    let rest = policy::outside(root, front);
    let result = policy::outside(root, all);
    if all.last() == path {
        assert(result[rest.len() as int] == path);
    } else {
        let k = choose|k: int| 0 <= k < all.len() && all[k] == path;
        assert(front[k] == path);
        lemma_outside(root, front, path);
        let m = choose|m: int| 0 <= m < rest.len() && rest[m] == path;
        assert(result[m] == path);
    }
}

/// Once the policy is restricted to a root, only application cgroups beneath it are
/// tracked, wait for anything but a restoration, are known by their focus or are
/// boosted, whatever the system answers.
pub proof fn only_applications_remain(state: PolicyModel, root: PathModel)
    ensures
        consistency::ends(
            policy::restrict_to(state, root),
            |to: PolicyModel, done: bool|
                forall|path: PathModel| #[trigger]
                    concerned(to, path) ==> path::application_cgroup(root, path),
        ),
{
    let all = policy::outside(root, policy::involved(state));
    let between = retirement(state, all, 0);
    let outcome = |to: PolicyModel, done: bool|
        forall|path: PathModel| #[trigger]
            concerned(to, path) ==> path::application_cgroup(root, path);
    lemma_each(state, all, 0);
    lemma_involved(state);
    assert forall|s: PolicyModel, r: bool| #[trigger] between(s, r) implies outcome(s, r) by {
        assert forall|path: PathModel| #[trigger]
            concerned(s, path) implies path::application_cgroup(root, path) by {
            assert(concerned(state, path));
            assert(policy::involved(state).contains(path));
            if !path::application_cgroup(root, path) {
                lemma_outside(root, policy::involved(state), path);
                let i = choose|i: int| 0 <= i < all.len() && all[i] == path;
                assert(!concerned(s, all[i]));
            }
        }
    }
    consistency::lemma_ends_weaken(policy::restrict_to(state, root), between, outcome);
}

}
