//! Accounting for records: no record is stored that the policy does not remember.

use crate::activate;
use crate::laws::boost;
use crate::laws::restoration;
use crate::laws::shutdown;
use crate::path::PathModel;
use crate::paths;
use crate::policy;
use crate::reconcile;
use crate::restore;
use crate::state::PolicyModel;
use crate::world::World;
use vstd::prelude::*;

verus! {

/// Whether a cgroup has a record though it is neither boosted nor has a boost or a
/// restoration outstanding.
pub open spec fn stray(world: World, state: PolicyModel, path: PathModel) -> bool {
    &&& world.records.get(path) is Some
    &&& !state.pending_restore.contains(path)
    &&& !state.pending_apply.contains(path)
    &&& state.foreground != Some(path)
}

/// No record has gone astray that had not before.
pub open spec fn accounted(
    before: World,
    from: PolicyModel,
    now: World,
    to: PolicyModel,
) -> bool {
    forall|path: PathModel| #[trigger] stray(now, to, path) ==> stray(before, from, path)
}

/// The same, as an outcome.
pub open spec fn accounts(before: World, from: PolicyModel) -> spec_fn(
    World,
    PolicyModel,
    bool,
) -> bool {
    |now: World, to: PolicyModel, result: bool| accounted(before, from, now, to)
}

/// A stray record is one of a cgroup that a shutdown would not restore.
pub proof fn stray_records_are_not_unsettled(world: World, state: PolicyModel, path: PathModel)
    ensures
        stray(world, state, path) <==> world.records.get(path) is Some && !policy::unsettled(
            state,
        ).contains(path),
{
    shutdown::lemma_unsettled(state);
}

/// A restoration leaves no record astray.
pub proof fn lemma_restored(
    before: World,
    now: World,
    from: PolicyModel,
    to: PolicyModel,
    path: PathModel,
    faults: bool,
)
    requires
        restoration::restored(before, now, from, to, path, faults),
    ensures
        accounted(before, from, now, to),
        to.pending_restore.contains(path) || now.records.get(path) is None,
{
    let releasing = restore::releasing(from, path);
    paths::lemma_with(from.pending_restore, path);
    paths::lemma_without(from.pending_apply, path);
    paths::lemma_without(releasing.pending_restore, path);
    assert forall|other: PathModel| #[trigger] stray(now, to, other) implies stray(
        before,
        from,
        other,
    ) by {
        if other != path {
            assert(now.records.get(other) == before.records.get(other));
        }
    }
}

/// That a boost is not wanted any more leaves no record astray, if the cgroup is restored.
pub proof fn lemma_unwanted_restored(
    before: World,
    now: World,
    from: PolicyModel,
    to: PolicyModel,
    path: PathModel,
    faults: bool,
)
    requires
        restoration::restored(before, now, reconcile::unwanted(from, path), to, path, faults),
    ensures
        accounted(before, from, now, to),
{
    let unwanted = reconcile::unwanted(from, path);
    lemma_restored(before, now, unwanted, to, path, faults);
    paths::lemma_without(from.pending_apply, path);
    assert forall|other: PathModel| #[trigger] stray(now, to, other) implies stray(
        before,
        from,
        other,
    ) by {
        assert(stray(before, unwanted, other));
        assert(other != path);
    }
}

/// That a boost is not wanted any more leaves no record astray, if the cgroup's restoration
/// is outstanding.
pub proof fn lemma_unwanted(world: World, from: PolicyModel, path: PathModel)
    requires
        from.pending_restore.contains(path),
    ensures
        accounted(world, from, world, reconcile::unwanted(from, path)),
{
    paths::lemma_without(from.pending_apply, path);
}

/// A boost leaves no record astray.
pub proof fn lemma_settled(
    before: World,
    now: World,
    from: PolicyModel,
    to: PolicyModel,
    path: PathModel,
    faults: bool,
)
    requires
        boost::settled(before, now, from, to, path, faults),
    ensures
        accounted(before, from, now, to),
{
    if from.foreground != Some(path) {
        paths::lemma_with(from.pending_apply, path);
        assert forall|other: PathModel| #[trigger] stray(now, to, other) implies stray(
            before,
            from,
            other,
        ) by {
            assert(other != path);
            if from.pending_restore.contains(path) {
                assert(to == activate::applying(from, path));
            } else {
                assert(from.foreground != Some(other));
                assert(now.records.get(other) == before.records.get(other));
                assert(!to.pending_restore.contains(other));
            }
        }
    }
}

}
