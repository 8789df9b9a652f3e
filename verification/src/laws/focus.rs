//! Following the focus: the focused application is boosted, and nothing else is.

use crate::activate;
use crate::focus;
use crate::laws::accounting;
use crate::laws::boost;
use crate::laws::consistency;
use crate::laws::restoration;
use crate::laws::shutdown;
use crate::path::PathModel;
use crate::paths;
use crate::program;
use crate::program::Program;
use crate::reconcile;
use crate::request::{Answer, Call, Xattr};
use crate::restore;
use crate::state::PolicyModel;
use crate::world;
use crate::world::World;
use vstd::prelude::*;

verus! {

/// The boosted cgroup's restoration is not outstanding.
pub open spec fn undisputed(state: PolicyModel) -> bool {
    state.foreground matches Some(path) ==> !state.pending_restore.contains(path)
}

/// A cgroup is not boosted, its boost is not outstanding, and its limits are the
/// original ones unless its restoration is outstanding.
pub open spec fn at_rest(now: World, state: PolicyModel, path: PathModel) -> bool {
    &&& state.foreground != Some(path)
    &&& !state.pending_apply.contains(path)
    &&& state.pending_restore.contains(path) || now.records.get(path) is None
}

/// How the release of cgroups from a place on, and the boost of the selected one, end.
pub open spec fn released_rest(
    before: World,
    now: World,
    from: PolicyModel,
    to: PolicyModel,
    all: Seq<PathModel>,
    next: nat,
    selected: Option<PathModel>,
    faults: bool,
) -> bool {
    &&& boost::otherwise_same(from, to)
    &&& !faults ==> boost::nothing_new_outstanding(before, from, to)
    &&& forall|path: PathModel| #[trigger]
        shutdown::among(all, next, path) && selected != Some(path) ==> {
            &&& at_rest(now, to, path)
            &&& !faults && world::readable(before, path) && !from.pending_restore.contains(path)
                ==> !to.pending_restore.contains(path)
        }
    &&& forall|path: PathModel|
        !(#[trigger] shutdown::among(all, next, path)) && selected != Some(path)
            && from.foreground != Some(path) ==> {
            &&& to.foreground != Some(path)
            &&& to.pending_apply.contains(path) ==> from.pending_apply.contains(path)
            &&& to.pending_restore.contains(path) == from.pending_restore.contains(path)
            &&& now.records.get(path) == before.records.get(path)
        }
    &&& match selected {
        Some(path) => {
            &&& to.foreground == Some(path) || to.pending_apply.contains(path)
                || to.pending_restore.contains(path)
            &&& from.pending_apply.contains(path) ==> to.pending_apply.contains(path)
            &&& from.pending_apply.contains(path) && to.foreground == Some(path)
                ==> from.foreground == Some(path)
            &&& !faults && world::readable(before, path) && !from.pending_restore.contains(path)
                && !from.pending_apply.contains(path) ==> to.foreground == Some(path)
            &&& !faults && before.records.get(path) is None && !from.pending_restore.contains(path)
                && !from.pending_apply.contains(path) && from.foreground != Some(path)
                ==> forall|region: Seq<char>| #[trigger]
                world::limit(now, path, region) == boost::raised(before, from.root, path, region)
        },
        None => to.foreground is None || to.foreground == from.foreground,
    }
}

/// The same, as an outcome: where it is undisputed at first which cgroup is boosted. In any
/// case no record goes astray.
pub open spec fn release_outcome(
    before: World,
    from: PolicyModel,
    all: Seq<PathModel>,
    next: nat,
    selected: Option<PathModel>,
    faults: bool,
) -> spec_fn(World, PolicyModel, bool) -> bool {
    |now: World, to: PolicyModel, done: bool|
        done && (undisputed(from) ==> released_rest(
            before,
            now,
            from,
            to,
            all,
            next,
            selected,
            faults,
        )) && accounting::accounted(before, from, now, to)
}

/// The selected cgroup is boosted once all others are released.
proof fn lemma_favour(
    from: PolicyModel,
    all: Seq<PathModel>,
    selected: Option<PathModel>,
    first: World,
    calm: bool,
    now: World,
    faults: bool,
)
    requires
        restoration::keeps(first, calm)(now),
        calm ==> selected is None,
    ensures
        world::always(
            reconcile::favour(from, selected),
            now,
            faults,
            restoration::keeps(first, calm),
            release_outcome(now, from, all, all.len(), selected, faults),
        ),
{
    let held = restoration::keeps(first, calm);
    let outcome = release_outcome(now, from, all, all.len(), selected, faults);
    assert forall|path: PathModel| !(#[trigger] shutdown::among(all, all.len(), path)) by {
        if shutdown::among(all, all.len(), path) {
            let i = choose|i: int| all.len() <= i < all.len() && #[trigger] all[i] == path;
        }
    }
    match selected {
        None => {
            assert(released_rest(now, now, from, from, all, all.len(), selected, faults));
        },
        Some(path) => {
            if from.pending_apply.contains(path) || from.pending_restore.contains(path) {
                assert(released_rest(now, now, from, from, all, all.len(), selected, faults));
            } else {
                boost::boosting_keeps_originals(from, path, first, now, faults);
                let between = boost::settlement(now, from, path, faults);
                assert forall|w: World, s: PolicyModel, r: bool|
                    held(w) && #[trigger] between(w, s, r) implies outcome(w, s, r) by {
                    assert(boost::settled(now, w, from, s, path, faults));
                    accounting::lemma_settled(now, w, from, s, path, faults);
                    assert(released_rest(now, w, from, s, all, all.len(), selected, faults));
                }
                world::lemma_always_weaken(
                    reconcile::favour(from, selected),
                    now,
                    faults,
                    held,
                    between,
                    held,
                    outcome,
                );
            }
        },
    }
}

/// The selected cgroup needs no release.
proof fn lemma_skip_selected(
    before: World,
    now: World,
    from: PolicyModel,
    to: PolicyModel,
    all: Seq<PathModel>,
    next: nat,
    selected: Option<PathModel>,
    faults: bool,
)
    requires
        next < all.len(),
        selected == Some(all[next as int]),
        released_rest(before, now, from, to, all, next + 1, selected, faults),
    ensures
        released_rest(before, now, from, to, all, next, selected, faults),
{
    assert forall|path: PathModel| selected != Some(path) implies #[trigger] shutdown::among(
        all,
        next,
        path,
    ) == shutdown::among(all, next + 1, path) by {
        lemma_among(all, next, path);
    }
}

/// A path stands at a place or after it, or it does not.
pub proof fn lemma_among(all: Seq<PathModel>, next: nat, path: PathModel)
    requires
        next < all.len(),
    ensures
        shutdown::among(all, next, path) <==> all[next as int] == path || shutdown::among(
            all,
            next + 1,
            path,
        ),
{
    if shutdown::among(all, next, path) {
        let i = choose|i: int| next <= i < all.len() && #[trigger] all[i] == path;
        assert(all[i] == path);
    }
    if shutdown::among(all, next + 1, path) {
        let i = choose|i: int| next + 1 <= i < all.len() && #[trigger] all[i] == path;
        assert(all[i] == path);
    }
    if all[next as int] == path {
        assert(shutdown::among(all, next, path));
    }
}

/// A cgroup whose restoration is outstanding is left for later.
proof fn lemma_skip_pending(
    before: World,
    now: World,
    from: PolicyModel,
    to: PolicyModel,
    all: Seq<PathModel>,
    next: nat,
    selected: Option<PathModel>,
    faults: bool,
)
    requires
        undisputed(from),
        next < all.len(),
        selected != Some(all[next as int]),
        from.pending_restore.contains(all[next as int]),
        released_rest(
            before,
            now,
            reconcile::unwanted(from, all[next as int]),
            to,
            all,
            next + 1,
            selected,
            faults,
        ),
    ensures
        released_rest(before, now, from, to, all, next, selected, faults),
{
    let one = all[next as int];
    paths::lemma_without(from.pending_apply, one);
    assert forall|path: PathModel| #[trigger] shutdown::among(all, next, path) == (path == one
        || shutdown::among(all, next + 1, path)) by {
        lemma_among(all, next, path);
    }
    assert forall|path: PathModel| #[trigger]
        shutdown::among(all, next, path) && selected != Some(path) implies {
        &&& at_rest(now, to, path)
        &&& !faults && world::readable(before, path) && !from.pending_restore.contains(path)
            ==> !to.pending_restore.contains(path)
    } by {
        if !shutdown::among(all, next + 1, path) {
            assert(path == one);
            assert(!paths::without(from.pending_apply, one).contains(one));
        }
    }
    assert forall|path: PathModel|
        !(#[trigger] shutdown::among(all, next, path)) && selected != Some(path)
            && from.foreground != Some(path) implies {
        &&& to.foreground != Some(path)
        &&& to.pending_apply.contains(path) ==> from.pending_apply.contains(path)
        &&& to.pending_restore.contains(path) == from.pending_restore.contains(path)
        &&& now.records.get(path) == before.records.get(path)
    } by {
        assert(!shutdown::among(all, next + 1, path));
        assert(paths::without(from.pending_apply, one).contains(path)
            ==> from.pending_apply.contains(path));
    }
    if let Some(path) = selected {
        assert(paths::without(from.pending_apply, one).contains(path)
            <==> from.pending_apply.contains(path));
    }
}

/// A cgroup is restored, and then the release goes on.
proof fn lemma_release_one(
    before: World,
    between: World,
    now: World,
    from: PolicyModel,
    mid: PolicyModel,
    to: PolicyModel,
    all: Seq<PathModel>,
    next: nat,
    selected: Option<PathModel>,
    faults: bool,
)
    requires
        next < all.len(),
        selected != Some(all[next as int]),
        !from.pending_restore.contains(all[next as int]),
        restoration::restored(
            before,
            between,
            reconcile::unwanted(from, all[next as int]),
            mid,
            all[next as int],
            faults,
        ),
        released_rest(between, now, mid, to, all, next + 1, selected, faults),
    ensures
        released_rest(before, now, from, to, all, next, selected, faults),
{
    let one = all[next as int];
    let unwanted = reconcile::unwanted(from, one);
    let releasing = restore::releasing(unwanted, one);
    paths::lemma_without(from.pending_apply, one);
    paths::lemma_without(unwanted.pending_apply, one);
    paths::lemma_with(from.pending_restore, one);
    paths::lemma_without(releasing.pending_restore, one);
    assert forall|path: PathModel| #[trigger] shutdown::among(all, next, path) == (path == one
        || shutdown::among(all, next + 1, path)) by {
        lemma_among(all, next, path);
    }
    assert forall|path: PathModel| path != one implies #[trigger] between.records.get(path)
        == before.records.get(path) by {}
    assert forall|path: PathModel|
        path != one implies #[trigger] mid.pending_restore.contains(path)
        == from.pending_restore.contains(path) by {}
    assert forall|path: PathModel| path != one implies #[trigger] mid.pending_apply.contains(path)
        == from.pending_apply.contains(path) by {
        assert(mid.pending_apply == releasing.pending_apply);
    }
    if !faults {
        assert forall|path: PathModel| #[trigger]
            to.pending_restore.contains(path) && world::readable(
                before,
                path,
            ) implies from.pending_restore.contains(path) by {
            if path != one {
                assert(between.records.get(path) == before.records.get(path));
            }
            assert(world::readable(between, path));
            assert(mid.pending_restore.contains(path));
        }
    }
    assert forall|path: PathModel| #[trigger]
        shutdown::among(all, next, path) && selected != Some(path) implies {
        &&& at_rest(now, to, path)
        &&& !faults && world::readable(before, path) && !from.pending_restore.contains(path)
            ==> !to.pending_restore.contains(path)
    } by {
        if shutdown::among(all, next + 1, path) {
            if path != one {
                assert(between.records.get(path) == before.records.get(path));
                assert(mid.pending_restore.contains(path) == from.pending_restore.contains(path));
            }
        } else {
            assert(path == one);
            assert(mid.foreground != Some(path));
        }
    }
    if let Some(path) = selected {
        assert(between.records.get(path) == before.records.get(path));
        assert(mid.pending_restore.contains(path) == from.pending_restore.contains(path));
        assert(mid.pending_apply.contains(path) == from.pending_apply.contains(path));
        assert forall|region: Seq<char>| #[trigger]
            boost::raised(between, mid.root, path, region) == boost::raised(
                before,
                from.root,
                path,
                region,
            ) by {
            boost::lemma_capacity_file(from.root, one);
            if restore::low_file(path) == restore::low_file(one) {
                restoration::lemma_low_file(path, one);
            }
            assert(between.values.get((restore::low_file(path), region)) == before.values.get(
                (restore::low_file(path), region),
            ));
            assert(between.values.get((activate::capacity_file(from.root), region))
                == before.values.get((activate::capacity_file(from.root), region)));
        }
    }
}

/// A restoration leaves it undisputed which cgroup is boosted.
proof fn lemma_undisputed(
    before: World,
    now: World,
    from: PolicyModel,
    to: PolicyModel,
    path: PathModel,
    faults: bool,
)
    requires
        undisputed(from),
        restoration::restored(before, now, from, to, path, faults),
    ensures
        undisputed(to),
{
    paths::lemma_with(from.pending_restore, path);
    paths::lemma_without(paths::with(from.pending_restore, path), path);
}

/// After one cgroup is released come the next ones.
pub proof fn lemma_release_goes_on(
    all: Seq<PathModel>,
    next: nat,
    selected: Option<PathModel>,
)
    ensures
        world::goes_on(
            |p: Program| reconcile::and_release(p, all, next, selected),
            |s: PolicyModel, done: bool| reconcile::release(s, all, next, selected),
        ),
{
    assert forall|first: Program| first is Ask implies program::asked(
        #[trigger] reconcile::and_release(first, all, next, selected),
    ) == program::asked(first) by {
        reconcile::lemma_and_release(first, all, next, selected, Answer::Done(Ok(())));
    }
    assert forall|first: Program, answer: Answer| first is Ask implies #[trigger] program::after_answer(
        reconcile::and_release(first, all, next, selected),
        answer,
    ) == reconcile::and_release(program::after_answer(first, answer), all, next, selected) by {
        reconcile::lemma_and_release(first, all, next, selected, answer);
    }
}

proof fn lemma_release(
    from: PolicyModel,
    all: Seq<PathModel>,
    next: nat,
    selected: Option<PathModel>,
    first: World,
    calm: bool,
    now: World,
    faults: bool,
)
    requires
        restoration::keeps(first, calm)(now),
        calm ==> selected is None,
        next <= all.len(),
    ensures
        world::always(
            reconcile::release(from, all, next, selected),
            now,
            faults,
            restoration::keeps(first, calm),
            release_outcome(now, from, all, next, selected, faults),
        ),
    decreases all.len() - next,
{
    let held = restoration::keeps(first, calm);
    let outcome = release_outcome(now, from, all, next, selected, faults);
    if next < all.len() {
        let one = all[next as int];
        let unwanted = reconcile::unwanted(from, one);
        if selected == Some(one) {
            let rest = release_outcome(now, from, all, next + 1, selected, faults);
            lemma_release(from, all, next + 1, selected, first, calm, now, faults);
            assert forall|w: World, s: PolicyModel, r: bool|
                held(w) && #[trigger] rest(w, s, r) implies outcome(w, s, r) by {
                if undisputed(from) {
                    lemma_skip_selected(now, w, from, s, all, next, selected, faults);
                }
            }
            world::lemma_always_weaken(
                reconcile::release(from, all, next + 1, selected),
                now,
                faults,
                held,
                rest,
                held,
                outcome,
            );
        } else if from.pending_restore.contains(one) {
            let rest = release_outcome(now, unwanted, all, next + 1, selected, faults);
            lemma_release(unwanted, all, next + 1, selected, first, calm, now, faults);
            accounting::lemma_unwanted(now, from, one);
            assert forall|w: World, s: PolicyModel, r: bool|
                held(w) && #[trigger] rest(w, s, r) implies outcome(w, s, r) by {
                if undisputed(from) {
                    lemma_skip_pending(now, w, from, s, all, next, selected, faults);
                }
            }
            world::lemma_always_weaken(
                reconcile::release(unwanted, all, next + 1, selected),
                now,
                faults,
                held,
                rest,
                held,
                outcome,
            );
        } else {
            let between = restoration::restoration(now, unwanted, one, faults);
            restoration::restoring_keeps_originals(unwanted, one, first, calm, now, faults);
            let then = |s: PolicyModel, done: bool| reconcile::release(s, all, next + 1, selected);
            let sequence = |p: Program| reconcile::and_release(p, all, next + 1, selected);
            lemma_release_goes_on(all, next + 1, selected);
            assert forall|w: World, s: PolicyModel, r: bool|
                held(w) && #[trigger] between(w, s, r) implies world::always(
                then(s, r),
                w,
                faults,
                held,
                outcome,
            ) by {
                if undisputed(from) {
                    lemma_undisputed(now, w, unwanted, s, one, faults);
                }
                accounting::lemma_unwanted_restored(now, w, from, s, one, faults);
                lemma_release(s, all, next + 1, selected, first, calm, w, faults);
                let rest = release_outcome(w, s, all, next + 1, selected, faults);
                assert forall|w2: World, s2: PolicyModel, r2: bool|
                    held(w2) && #[trigger] rest(w2, s2, r2) implies outcome(w2, s2, r2) by {
                    if undisputed(from) {
                        lemma_release_one(now, w, w2, from, s, s2, all, next, selected, faults);
                    }
                }
                world::lemma_always_weaken(then(s, r), w, faults, held, rest, held, outcome);
            }
            world::lemma_always_sequence(
                restore::restore(unwanted, one),
                sequence,
                then,
                now,
                faults,
                held,
                between,
                outcome,
            );
        }
    } else {
        lemma_favour(from, all, selected, first, calm, now, faults);
    }
}

/// The focus attributes of cgroups.
pub open spec fn seen(world: World, all: Seq<PathModel>) -> Seq<Option<Seq<u8>>> {
    Seq::new(all.len(), |i: int| world.focus.get(all[i]))
}

/// What a complete look at cgroups makes known, and whether any of it is new.
pub open spec fn learned(world: World, state: PolicyModel, all: Seq<PathModel>) -> (
    Seq<(PathModel, Option<Seq<u8>>)>,
    bool,
) {
    reconcile::commit(state.focus_values, all, seen(world, all))
}

/// How a look at the focus ends.
///
/// An incomplete look changes nothing; nor does one that shows nothing new. Otherwise
/// every cgroup that is known is released, but for the only one that claims the focus,
/// if there is one; that one is boosted.
pub open spec fn followed(
    before: World,
    now: World,
    from: PolicyModel,
    to: PolicyModel,
    all: Seq<PathModel>,
    faults: bool,
    complete: bool,
) -> bool {
    let (values, new) = learned(before, from, all);
    if complete && new {
        &&& to.focus_values == values
        &&& released_rest(
            before,
            now,
            reconcile::informed(from, values),
            to,
            paths::keys(values),
            0,
            reconcile::sole(focus::claimants(values)),
            faults,
        )
    } else {
        now == before && to == from && (complete || faults)
    }
}

/// How a look at the focus ends, as an outcome.
pub open spec fn follow_outcome(
    before: World,
    from: PolicyModel,
    all: Seq<PathModel>,
    faults: bool,
) -> spec_fn(World, PolicyModel, bool) -> bool {
    |now: World, to: PolicyModel, complete: bool|
        followed(before, now, from, to, all, faults, complete)
}

/// How a look at the focus ends, where it is undisputed at first which cgroup is
/// boosted.
spec fn look_outcome(
    before: World,
    from: PolicyModel,
    all: Seq<PathModel>,
    faults: bool,
) -> spec_fn(World, PolicyModel, bool) -> bool {
    |now: World, to: PolicyModel, complete: bool|
        (undisputed(from) ==> followed(before, now, from, to, all, faults, complete))
            && accounting::accounted(before, from, now, to)
}

proof fn lemma_look(
    from: PolicyModel,
    all: Seq<PathModel>,
    values: Seq<Option<Seq<u8>>>,
    first: World,
    calm: bool,
    now: World,
    faults: bool,
)
    requires
        restoration::keeps(first, calm)(now),
        values.len() <= all.len(),
        values == seen(now, all).take(values.len() as int),
        calm && learned(now, from, all).1 ==> reconcile::sole(
            focus::claimants(learned(now, from, all).0),
        ) is None,
    ensures
        world::always(
            reconcile::look(from, all, values),
            now,
            faults,
            restoration::keeps(first, calm),
            look_outcome(now, from, all, faults),
        ),
    decreases all.len() - values.len(),
{
    let held = restoration::keeps(first, calm);
    let outcome = look_outcome(now, from, all, faults);
    let program = reconcile::look(from, all, values);
    if values.len() < all.len() {
        let path = all[values.len() as int];
        let call = Call::GetXattr(path, Xattr::Focus);
        assert forall|answer: Answer| #[trigger]
            world::possible(now, call, answer, faults) implies world::always(
            program::after_answer(program, answer),
            world::after(now, call, answer),
            faults,
            held,
            outcome,
        ) by {
            assert(world::after(now, call, answer) == now);
            match answer {
                Answer::Attribute(Ok(value)) => {
                    assert(values.push(value) =~= seen(now, all).take(values.len() as int + 1));
                    lemma_look(from, all, values.push(value), first, calm, now, faults);
                },
                _ => {
                    assert(followed(now, now, from, from, all, faults, false));
                },
            }
        }
    } else {
        assert(values =~= seen(now, all));
        let (known, new) = learned(now, from, all);
        if new {
            let informed = reconcile::informed(from, known);
            let selected = reconcile::sole(focus::claimants(known));
            let between = release_outcome(
                now,
                informed,
                paths::keys(known),
                0,
                selected,
                faults,
            );
            lemma_release(informed, paths::keys(known), 0, selected, first, calm, now, faults);
            assert forall|w: World, s: PolicyModel, r: bool|
                held(w) && #[trigger] between(w, s, r) implies outcome(w, s, r) by {
                if undisputed(from) {
                    assert(followed(now, w, from, s, all, faults, true));
                }
                assert forall|path: PathModel| #[trigger]
                    accounting::stray(w, s, path) implies accounting::stray(now, from, path) by {
                    assert(accounting::stray(now, informed, path));
                }
            }
            world::lemma_always_weaken(program, now, faults, held, between, held, outcome);
        } else {
            assert(followed(now, now, from, from, all, faults, true));
        }
    }
}

/// In every run of a look at the focus, whatever fails, no original limit is lost at
/// any moment. How it ends says `followed`. Where it is `calm` no limit is raised
/// either: the look must then show that no cgroup, or more than one, claims the focus.
pub proof fn following_the_focus(
    state: PolicyModel,
    all: Seq<PathModel>,
    first: World,
    calm: bool,
    now: World,
    faults: bool,
)
    requires
        restoration::keeps(first, calm)(now),
        undisputed(state),
        calm && learned(now, state, all).1 ==> reconcile::sole(
            focus::claimants(learned(now, state, all).0),
        ) is None,
    ensures
        world::always(
            reconcile::reconcile_paths(state, all),
            now,
            faults,
            restoration::keeps(first, calm),
            follow_outcome(now, state, all, faults),
        ),
{
    assert(seen(now, all).take(0) =~= Seq::<Option<Seq<u8>>>::empty());
    lemma_look(state, all, Seq::empty(), first, calm, now, faults);
    world::lemma_always_weaken(
        reconcile::reconcile_paths(state, all),
        now,
        faults,
        restoration::keeps(first, calm),
        look_outcome(now, state, all, faults),
        restoration::keeps(first, calm),
        follow_outcome(now, state, all, faults),
    );
}

/// Whatever the policy remembers, a look at the focus loses no original limit and leaves no
/// record astray.
pub proof fn looking_keeps_originals(
    state: PolicyModel,
    all: Seq<PathModel>,
    first: World,
    now: World,
    faults: bool,
)
    requires
        restoration::keeps(first, false)(now),
    ensures
        world::always(
            reconcile::reconcile_paths(state, all),
            now,
            faults,
            restoration::keeps(first, false),
            accounting::accounts(now, state),
        ),
{
    assert(seen(now, all).take(0) =~= Seq::<Option<Seq<u8>>>::empty());
    lemma_look(state, all, Seq::empty(), first, false, now, faults);
    world::lemma_always_weaken(
        reconcile::reconcile_paths(state, all),
        now,
        faults,
        restoration::keeps(first, false),
        look_outcome(now, state, all, faults),
        restoration::keeps(first, false),
        accounting::accounts(now, state),
    );
}

/// Missing or ambiguous focus information does not cause a boost: unless exactly one
/// cgroup claims the focus, a look at the focus raises no limit at any moment, and
/// nothing is boosted afterwards that was not before.
pub proof fn no_clear_focus_no_boost(
    state: PolicyModel,
    all: Seq<PathModel>,
    now: World,
    faults: bool,
)
    requires
        undisputed(state),
        focus::claimants(learned(now, state, all).0).len() != 1,
    ensures
        world::always(
            reconcile::reconcile_paths(state, all),
            now,
            faults,
            restoration::keeps(now, true),
            |w: World, to: PolicyModel, complete: bool|
                to.foreground is None || to.foreground == state.foreground,
        ),
{
    let outcome = |w: World, to: PolicyModel, complete: bool|
        to.foreground is None || to.foreground == state.foreground;
    following_the_focus(state, all, now, true, now, faults);
    world::lemma_always_weaken(
        reconcile::reconcile_paths(state, all),
        now,
        faults,
        restoration::keeps(now, true),
        follow_outcome(now, state, all, faults),
        restoration::keeps(now, true),
        outcome,
    );
}

/// The system stays as it is.
pub open spec fn still(world: World) -> spec_fn(World) -> bool {
    |now: World| now == world
}

/// Where a look at the focus shows nothing new, nothing is written and nothing
/// changes, complete or not.
pub proof fn nothing_new_changes_nothing(
    state: PolicyModel,
    all: Seq<PathModel>,
    now: World,
    faults: bool,
)
    requires
        !learned(now, state, all).1,
    ensures
        world::always(
            reconcile::reconcile_paths(state, all),
            now,
            faults,
            still(now),
            |w: World, to: PolicyModel, complete: bool| to == state,
        ),
{
    assert(seen(now, all).take(0) =~= Seq::<Option<Seq<u8>>>::empty());
    lemma_still(state, all, Seq::empty(), now, faults);
}

proof fn lemma_still(
    state: PolicyModel,
    all: Seq<PathModel>,
    values: Seq<Option<Seq<u8>>>,
    now: World,
    faults: bool,
)
    requires
        !learned(now, state, all).1,
        values.len() <= all.len(),
        values == seen(now, all).take(values.len() as int),
    ensures
        world::always(
            reconcile::look(state, all, values),
            now,
            faults,
            still(now),
            |w: World, to: PolicyModel, complete: bool| to == state,
        ),
    decreases all.len() - values.len(),
{
    let outcome = |w: World, to: PolicyModel, complete: bool| to == state;
    let program = reconcile::look(state, all, values);
    if values.len() < all.len() {
        let call = Call::GetXattr(all[values.len() as int], Xattr::Focus);
        assert forall|answer: Answer| #[trigger]
            world::possible(now, call, answer, faults) implies world::always(
            program::after_answer(program, answer),
            world::after(now, call, answer),
            faults,
            still(now),
            outcome,
        ) by {
            assert(world::after(now, call, answer) == now);
            match answer {
                Answer::Attribute(Ok(value)) => {
                    assert(values.push(value) =~= seen(now, all).take(values.len() as int + 1));
                    lemma_still(state, all, values.push(value), now, faults);
                },
                _ => {},
            }
        }
    } else {
        assert(values =~= seen(now, all));
    }
}

/// Nothing stands in the way of a cgroup's boost or restoration.
pub open spec fn unhindered(world: World, state: PolicyModel, path: PathModel) -> bool {
    &&& world::readable(world, path)
    &&& !state.pending_restore.contains(path)
    &&& !state.pending_apply.contains(path)
}

/// The boost has moved: the cgroup is boosted, and every other one that is known has
/// its original limits and no record.
pub open spec fn moved(
    before: World,
    now: World,
    to: PolicyModel,
    known: Seq<PathModel>,
    path: PathModel,
) -> bool {
    &&& to.foreground == Some(path)
    &&& forall|other: PathModel| #[trigger]
        known.contains(other) && other != path ==> {
            &&& now.records.get(other) is None
            &&& !to.pending_restore.contains(other)
            &&& forall|region: Seq<char>| #[trigger]
                world::limit(now, other, region) == world::original(before, other, region)
        }
}

/// The boost follows the focus: where a look at the focus shows that exactly one
/// cgroup claims it, nothing stands in the way and nothing fails, that cgroup is
/// boosted and every other one that is known has its original limits back. Where it
/// had no record and was not boosted, each of its regions has the larger of its limit
/// and its capacity.
pub proof fn the_boost_follows_the_focus(
    state: PolicyModel,
    all: Seq<PathModel>,
    path: PathModel,
    now: World,
)
    requires
        undisputed(state),
        learned(now, state, all).1,
        focus::claimants(learned(now, state, all).0) == seq![path],
        unhindered(now, state, path),
        forall|other: PathModel| #[trigger]
            paths::keys(learned(now, state, all).0).contains(other) ==> world::readable(now, other)
                && !state.pending_restore.contains(other),
    ensures
        world::always(
            reconcile::reconcile_paths(state, all),
            now,
            false,
            restoration::keeps(now, false),
            |w: World, to: PolicyModel, complete: bool|
                {
                    &&& complete
                    &&& moved(now, w, to, paths::keys(learned(now, state, all).0), path)
                    &&& now.records.get(path) is None && state.foreground != Some(path)
                        ==> forall|region: Seq<char>| #[trigger]
                        world::limit(w, path, region) == boost::raised(
                            now,
                            state.root,
                            path,
                            region,
                        )
                },
        ),
{
    let known = paths::keys(learned(now, state, all).0);
    let held = restoration::keeps(now, false);
    let between = follow_outcome(now, state, all, false);
    let outcome = |w: World, to: PolicyModel, complete: bool|
        {
            &&& complete
            &&& moved(now, w, to, known, path)
            &&& now.records.get(path) is None && state.foreground != Some(path) ==> forall|
                region: Seq<char>,
            | #[trigger]
                world::limit(w, path, region) == boost::raised(now, state.root, path, region)
        };
    following_the_focus(state, all, now, false, now, false);
    assert forall|w: World, s: PolicyModel, r: bool|
        held(w) && #[trigger] between(w, s, r) implies outcome(w, s, r) by {
        let from = reconcile::informed(state, learned(now, state, all).0);
        assert(reconcile::sole(seq![path]) == Some(path));
        assert(released_rest(now, w, from, s, known, 0, Some(path), false));
        assert forall|other: PathModel| #[trigger]
            known.contains(other) && other != path implies {
            &&& w.records.get(other) is None
            &&& !s.pending_restore.contains(other)
            &&& forall|region: Seq<char>| #[trigger]
                world::limit(w, other, region) == world::original(now, other, region)
        } by {
            let i = choose|i: int| 0 <= i < known.len() && known[i] == other;
            assert(known[i] == other);
            assert(shutdown::among(known, 0, other));
            assert(at_rest(w, s, other));
            assert forall|region: Seq<char>| #[trigger]
                world::limit(w, other, region) == world::original(now, other, region) by {
                assert(world::original(w, other, region) == world::original(now, other, region));
            }
        }
    }
    world::lemma_always_weaken(
        reconcile::reconcile_paths(state, all),
        now,
        false,
        held,
        between,
        held,
        outcome,
    );
}

/// A cgroup has lost the focus: it is not boosted and not to be. Its restoration is
/// outstanding, which needs a fault, or its limits are the original ones and its record
/// is gone.
pub open spec fn let_go(
    before: World,
    now: World,
    to: PolicyModel,
    path: PathModel,
    faults: bool,
) -> bool {
    &&& to.foreground != Some(path)
    &&& !to.pending_apply.contains(path)
    &&& if to.pending_restore.contains(path) {
        faults
    } else {
        &&& now.records.get(path) is None
        &&& forall|region: Seq<char>| #[trigger]
            world::limit(now, path, region) == world::original(before, path, region)
    }
}

/// Focus loss restores: where a complete look at the focus shows something new, every
/// cgroup that is known and is not the only one to claim the focus has its original
/// limits back, or its restoration is outstanding because something failed.
pub proof fn focus_loss_restores(
    state: PolicyModel,
    all: Seq<PathModel>,
    path: PathModel,
    now: World,
    faults: bool,
)
    requires
        undisputed(state),
        learned(now, state, all).1,
        paths::keys(learned(now, state, all).0).contains(path),
        focus::claimants(learned(now, state, all).0) != seq![path],
        world::readable(now, path),
        !state.pending_restore.contains(path),
    ensures
        world::always(
            reconcile::reconcile_paths(state, all),
            now,
            faults,
            restoration::keeps(now, false),
            |w: World, to: PolicyModel, complete: bool|
                if complete {
                    let_go(now, w, to, path, faults)
                } else {
                    faults && w == now && to == state
                },
        ),
{
    let known = paths::keys(learned(now, state, all).0);
    let active = focus::claimants(learned(now, state, all).0);
    let held = restoration::keeps(now, false);
    let between = follow_outcome(now, state, all, faults);
    let outcome = |w: World, to: PolicyModel, complete: bool|
        if complete {
            let_go(now, w, to, path, faults)
        } else {
            faults && w == now && to == state
        };
    following_the_focus(state, all, now, false, now, faults);
    let i = choose|i: int| 0 <= i < known.len() && known[i] == path;
    assert(known[i] == path);
    assert(shutdown::among(known, 0, path));
    if reconcile::sole(active) == Some(path) {
        assert(active =~= seq![path]);
    }
    assert forall|w: World, s: PolicyModel, r: bool|
        held(w) && #[trigger] between(w, s, r) implies outcome(w, s, r) by {
        if r {
            assert(at_rest(w, s, path));
            if !s.pending_restore.contains(path) {
                assert forall|region: Seq<char>| #[trigger]
                    world::limit(w, path, region) == world::original(now, path, region) by {
                    assert(world::original(w, path, region) == world::original(
                        now,
                        path,
                        region,
                    ));
                }
            }
        }
    }
    world::lemma_always_weaken(
        reconcile::reconcile_paths(state, all),
        now,
        faults,
        held,
        between,
        held,
        outcome,
    );
}

/// Where neither the boost nor the restoration of the boosted cgroup is outstanding, it is
/// undisputed.
pub proof fn a_settled_foreground_is_undisputed(state: PolicyModel)
    requires
        consistency::foreground_is_settled(state),
    ensures
        undisputed(state),
{
}

/// The cgroups that claim the focus are those whose focus attribute says so.
pub proof fn claimants_claim_the_focus(
    values: Seq<(PathModel, Option<Seq<u8>>)>,
    path: PathModel,
)
    ensures
        focus::claimants(values).contains(path) <==> exists|i: int|
            0 <= i < values.len() && (#[trigger] values[i]).0 == path && focus::claims(values[i].1),
    decreases values.len(),
{
    if values.len() > 0 {
        let front = values.drop_last();
        let rest = focus::claimants(front);
        claimants_claim_the_focus(front, path);
        paths::lemma_with(rest, values.last().0);
        if focus::claimants(values).contains(path) {
            if rest.contains(path) {
                let i = choose|i: int|
                    0 <= i < front.len() && (#[trigger] front[i]).0 == path && focus::claims(
                        front[i].1,
                    );
                assert(values[i] == front[i]);
            } else {
                assert(values[values.len() - 1].0 == path);
            }
        }
        if exists|i: int|
            0 <= i < values.len() && (#[trigger] values[i]).0 == path && focus::claims(
                values[i].1,
            ) {
            let i = choose|i: int|
                0 <= i < values.len() && (#[trigger] values[i]).0 == path && focus::claims(
                    values[i].1,
                );
            if i < front.len() {
                assert(front[i] == values[i]);
                assert(rest.contains(path));
            }
        }
    }
}

/// Nobody claims the focus twice.
pub proof fn nobody_claims_twice(values: Seq<(PathModel, Option<Seq<u8>>)>)
    ensures
        focus::claimants(values).no_duplicates(),
    decreases values.len(),
{
    if values.len() > 0 {
        nobody_claims_twice(values.drop_last());
        paths::lemma_with(focus::claimants(values.drop_last()), values.last().0);
    }
}

/// After a complete look, what was seen of each cgroup is known.
pub proof fn a_look_is_remembered(
    known: Seq<(PathModel, Option<Seq<u8>>)>,
    all: Seq<PathModel>,
    values: Seq<Option<Seq<u8>>>,
    i: int,
)
    requires
        all.no_duplicates(),
        0 <= i < values.len() <= all.len(),
    ensures
        paths::lookup(reconcile::commit(known, all, values).0, all[i]) == Some(values[i]),
    decreases values.len(),
{
    let front = values.drop_last();
    let before = reconcile::commit(known, all, front).0;
    let last = all[values.len() - 1];
    consistency::lemma_filed_lookup(before, last, values.last());
    if i < front.len() {
        a_look_is_remembered(known, all, front, i);
        assert(all[i] != last);
    }
}

}
