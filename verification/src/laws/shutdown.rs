//! Shutting down: everything is restored, or remembered as outstanding.

use crate::each;
use crate::each::Work;
use crate::laws::boost;
use crate::laws::operations;
use crate::laws::restoration;
use crate::path::PathModel;
use crate::paths;
use crate::policy;
use crate::program::Program;
use crate::restore;
use crate::state::PolicyModel;
use crate::world;
use crate::world::World;
use vstd::prelude::*;

verus! {

/// Whether a path stands at a place or after it.
pub open spec fn among(all: Seq<PathModel>, next: nat, path: PathModel) -> bool {
    exists|i: int| next <= i < all.len() && #[trigger] all[i] == path
}

/// How the restoration of all cgroups from a place on ends: each is outstanding or has
/// no record any more, and is outstanding only for a reason. All others are as they
/// were.
pub open spec fn all_restored(
    before: World,
    now: World,
    from: PolicyModel,
    to: PolicyModel,
    all: Seq<PathModel>,
    next: nat,
    faults: bool,
) -> bool {
    &&& forall|path: PathModel| #[trigger]
        among(all, next, path) ==> {
            &&& to.foreground != Some(path)
            &&& to.pending_restore.contains(path) || now.records.get(path) is None
            &&& !faults && world::readable(before, path) ==> !to.pending_restore.contains(path)
                && now.records.get(path) is None
        }
    &&& forall|path: PathModel|
        !#[trigger] among(all, next, path) ==> {
            &&& now.records.get(path) == before.records.get(path)
            &&& to.pending_restore.contains(path) == from.pending_restore.contains(path)
            &&& to.pending_apply.contains(path) == from.pending_apply.contains(path)
            &&& to.foreground == Some(path) <==> from.foreground == Some(path)
        }
    &&& forall|path: PathModel| #[trigger]
        to.pending_apply.contains(path) ==> from.pending_apply.contains(path)
    &&& to.foreground is None || to.foreground == from.foreground
    &&& boost::otherwise_same(from, to)
}

/// How the restoration of all cgroups from a place on ends, as an outcome.
pub open spec fn all_restored_outcome(
    before: World,
    from: PolicyModel,
    all: Seq<PathModel>,
    next: nat,
    faults: bool,
) -> spec_fn(World, PolicyModel, bool) -> bool {
    |now: World, to: PolicyModel, done: bool| all_restored(before, now, from, to, all, next, faults)
}

/// One cgroup is restored, and then all that follow.
proof fn lemma_one_more(
    before: World,
    between: World,
    now: World,
    from: PolicyModel,
    mid: PolicyModel,
    to: PolicyModel,
    all: Seq<PathModel>,
    next: nat,
    faults: bool,
)
    requires
        next < all.len(),
        restoration::restored(before, between, from, mid, all[next as int], faults),
        all_restored(between, now, mid, to, all, next + 1, faults),
    ensures
        all_restored(before, now, from, to, all, next, faults),
{
    let one = all[next as int];
    let releasing = restore::releasing(from, one);
    paths::lemma_with(from.pending_restore, one);
    paths::lemma_without(releasing.pending_restore, one);
    paths::lemma_without(from.pending_apply, one);
    assert forall|path: PathModel| #[trigger] among(all, next, path) implies {
        &&& to.foreground != Some(path)
        &&& to.pending_restore.contains(path) || now.records.get(path) is None
        &&& !faults && world::readable(before, path) ==> !to.pending_restore.contains(path)
            && now.records.get(path) is None
    } by {
        if path != one {
            let i = choose|i: int| next <= i < all.len() && #[trigger] all[i] == path;
            assert(all[i] == path);
            assert(among(all, next + 1, path));
            assert(between.records.get(path) == before.records.get(path));
        } else if among(all, next + 1, path) {
        }
    }
    assert forall|path: PathModel| !#[trigger] among(all, next, path) implies {
        &&& now.records.get(path) == before.records.get(path)
        &&& to.pending_restore.contains(path) == from.pending_restore.contains(path)
        &&& to.pending_apply.contains(path) == from.pending_apply.contains(path)
        &&& to.foreground == Some(path) <==> from.foreground == Some(path)
    } by {
        assert(path != one) by {
            if path == one {
                assert(all[next as int] == path);
            }
        }
        if among(all, next + 1, path) {
            let i = choose|i: int| next + 1 <= i < all.len() && #[trigger] all[i] == path;
            assert(all[i] == path);
        }
        assert(between.records.get(path) == before.records.get(path));
        assert(mid.pending_apply == paths::without(from.pending_apply, one));
    }
    assert forall|path: PathModel| #[trigger]
        to.pending_apply.contains(path) implies from.pending_apply.contains(path) by {
        assert(mid.pending_apply.contains(path));
        assert(mid.pending_apply == paths::without(from.pending_apply, one));
    }
}

/// Restoring one cgroup after another.
pub proof fn lemma_each_restores(
    from: PolicyModel,
    all: Seq<PathModel>,
    next: nat,
    first: World,
    calm: bool,
    now: World,
    faults: bool,
)
    requires
        restoration::keeps(first, calm)(now),
    ensures
        world::always(
            each::each(Work::Restore, from, all, next),
            now,
            faults,
            restoration::keeps(first, calm),
            all_restored_outcome(now, from, all, next, faults),
        ),
    decreases all.len() - next,
{
    let held = restoration::keeps(first, calm);
    let outcome = all_restored_outcome(now, from, all, next, faults);
    if next < all.len() {
        let one = all[next as int];
        let between = restoration::restoration(now, from, one, faults);
        restoration::restoring_keeps_originals(from, one, first, calm, now, faults);
        let then = |s: PolicyModel, done: bool| each::each(Work::Restore, s, all, next + 1);
        let sequence = |p: Program| each::and_each(p, Work::Restore, all, next + 1);
        operations::lemma_each_goes_on(Work::Restore, all, next + 1);
        assert forall|w: World, s: PolicyModel, r: bool|
            held(w) && #[trigger] between(w, s, r) implies world::always(
            then(s, r),
            w,
            faults,
            held,
            outcome,
        ) by {
            lemma_each_restores(s, all, next + 1, first, calm, w, faults);
            let rest = all_restored_outcome(w, s, all, next + 1, faults);
            assert forall|w2: World, s2: PolicyModel, r2: bool|
                held(w2) && #[trigger] rest(w2, s2, r2) implies outcome(w2, s2, r2) by {
                lemma_one_more(now, w, w2, from, s, s2, all, next, faults);
            }
            world::lemma_always_weaken(then(s, r), w, faults, held, rest, held, outcome);
        }
        world::lemma_always_sequence(
            each::work(Work::Restore, from, one),
            sequence,
            then,
            now,
            faults,
            held,
            between,
            outcome,
        );
    } else {
        assert(all_restored(now, now, from, from, all, next, faults));
    }
}

/// How a shutdown ends.
///
/// Nothing is boosted, and no boost is outstanding. Each cgroup that was boosted, or
/// may have been, has its original limits back or its restoration is outstanding;
/// without faults, none whose record can be understood is outstanding. The records of all
/// other cgroups are as they were.
pub open spec fn shut_down(
    before: World,
    now: World,
    from: PolicyModel,
    to: PolicyModel,
    faults: bool,
) -> bool {
    &&& to.foreground is None
    &&& to.pending_apply.len() == 0
    &&& forall|path: PathModel| #[trigger]
        policy::unsettled(from).contains(path) ==> {
            &&& to.pending_restore.contains(path) || now.records.get(path) is None && forall|
                region: Seq<char>,
            | #[trigger]
                world::limit(now, path, region) == world::original(before, path, region)
            &&& !faults && world::readable(before, path) ==> !to.pending_restore.contains(path)
        }
    &&& forall|path: PathModel| #[trigger]
        to.pending_restore.contains(path) ==> policy::unsettled(from).contains(path)
    &&& forall|path: PathModel|
        !(#[trigger] policy::unsettled(from).contains(path)) ==> now.records.get(path)
            == before.records.get(path)
}

/// How a shutdown ends, as an outcome.
pub open spec fn shutdown_outcome(
    before: World,
    from: PolicyModel,
    faults: bool,
) -> spec_fn(World, PolicyModel, bool) -> bool {
    |now: World, to: PolicyModel, done: bool| shut_down(before, now, from, to, faults)
}

/// The cgroups that may be boosted are those that are, and those with something
/// outstanding.
pub proof fn lemma_unsettled(state: PolicyModel)
    ensures
        forall|path: PathModel| #[trigger]
            policy::unsettled(state).contains(path) <==> state.pending_restore.contains(path)
                || state.pending_apply.contains(path) || state.foreground == Some(path),
{
    let both = paths::with_all(state.pending_restore, state.pending_apply);
    paths::lemma_with_all(state.pending_restore, state.pending_apply);
    match state.foreground {
        Some(foreground) => {
            paths::lemma_with(both, foreground);
        },
        None => {},
    }
}

/// A shutdown restores whatever is boosted or may be, as far as nothing fails, and
/// raises no limit.
pub proof fn shutdown_restores_everything(
    state: PolicyModel,
    first: World,
    calm: bool,
    now: World,
    faults: bool,
)
    requires
        restoration::keeps(first, calm)(now),
    ensures
        world::always(
            policy::shutdown(state),
            now,
            faults,
            restoration::keeps(first, calm),
            shutdown_outcome(now, state, faults),
        ),
{
    let held = restoration::keeps(first, calm);
    let all = policy::unsettled(state);
    let from = PolicyModel { pending_apply: Seq::empty(), ..state };
    let between = all_restored_outcome(now, from, all, 0, faults);
    let outcome = shutdown_outcome(now, state, faults);
    lemma_each_restores(from, all, 0, first, calm, now, faults);
    lemma_unsettled(state);
    assert forall|w: World, s: PolicyModel, r: bool|
        held(w) && #[trigger] between(w, s, r) implies outcome(w, s, r) by {
        assert forall|path: PathModel| #[trigger] all.contains(path) implies {
            &&& s.pending_restore.contains(path) || w.records.get(path) is None && forall|
                region: Seq<char>,
            | #[trigger]
                world::limit(w, path, region) == world::original(now, path, region)
            &&& !faults && world::readable(now, path) ==> !s.pending_restore.contains(path)
        } by {
            let i = choose|i: int| 0 <= i < all.len() && all[i] == path;
            assert(all[i] == path);
            assert(among(all, 0, path));
            if w.records.get(path) is None {
                assert forall|region: Seq<char>| #[trigger]
                    world::limit(w, path, region) == world::original(now, path, region) by {
                    assert(world::original(w, path, region) == world::original(
                        first,
                        path,
                        region,
                    ));
                    assert(world::original(now, path, region) == world::original(
                        first,
                        path,
                        region,
                    ));
                }
            }
        }
        assert forall|path: PathModel| #[trigger] s.pending_restore.contains(path) implies all.contains(
            path,
        ) by {
            if among(all, 0, path) {
                let i = choose|i: int| 0 <= i < all.len() && #[trigger] all[i] == path;
                assert(all.contains(path));
            }
        }
        assert forall|path: PathModel| !(#[trigger] all.contains(path)) implies w.records.get(path)
            == now.records.get(path) by {
            if among(all, 0, path) {
                let i = choose|i: int| 0 <= i < all.len() && #[trigger] all[i] == path;
                assert(all.contains(path));
            }
        }
        if s.pending_apply.len() > 0 {
            assert(s.pending_apply.contains(s.pending_apply[0]));
        }
        if let Some(path) = s.foreground {
            assert(state.foreground == Some(path));
            assert(all.contains(path));
            let i = choose|i: int| 0 <= i < all.len() && all[i] == path;
            assert(all[i] == path);
            assert(among(all, 0, path));
        }
    }
    world::lemma_always_weaken(
        policy::shutdown(state),
        now,
        faults,
        held,
        between,
        held,
        outcome,
    );
}

}
