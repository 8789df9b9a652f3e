//! The system that the policy acts on, as far as its promises speak of it.
//!
//! Nobody else changes the system while an operation runs. Between operations it may
//! change in any way.

use crate::cgroup;
use crate::cgroup::{DmemValue, ValuesModel};
use crate::path::PathModel;
use crate::program;
use crate::program::Program;
use crate::recovery;
use crate::recovery::StateEntry;
use crate::request;
use crate::request::{Answer, Call, IoFailure, Xattr};
use crate::restore;
use crate::state::PolicyModel;
use crate::table;
use vstd::prelude::*;

verus! {

/// The state of the system.
pub struct World {
    /// The value of each region in each `dmem` file.
    pub values: Map<(PathModel, Seq<char>), DmemValue>,
    /// The recovery records.
    pub records: Map<PathModel, Seq<u8>>,
    /// The focus attributes.
    pub focus: Map<PathModel, Seq<u8>>,
}

/// A region's limit in a cgroup.
pub open spec fn limit(world: World, path: PathModel, region: Seq<char>) -> Option<DmemValue> {
    world.values.get((restore::low_file(path), region))
}

/// What a cgroup's record says of a region.
pub open spec fn entry(world: World, path: PathModel, region: Seq<char>) -> Option<StateEntry> {
    match world.records.get(path) {
        Some(bytes) => match recovery::record_of(bytes) {
            Ok(record) => table::find(record, region),
            Err(_) => None,
        },
        None => None,
    }
}

/// The limit that a region would have without a boost: the baseline, where the limit
/// is the one that the entry says was applied.
pub open spec fn unboosted(limit: Option<DmemValue>, entry: Option<StateEntry>) -> Option<
    DmemValue,
> {
    match (limit, entry) {
        (Some(value), Some(entry)) => if value == entry.applied {
            Some(entry.baseline)
        } else {
            limit
        },
        _ => limit,
    }
}

/// A region's original limit in a cgroup, as far as limit and record tell.
pub open spec fn original(world: World, path: PathModel, region: Seq<char>) -> Option<DmemValue> {
    unboosted(limit(world, path, region), entry(world, path, region))
}

/// Whether a cgroup's record can be understood, if it has one.
pub open spec fn readable(world: World, path: PathModel) -> bool {
    match world.records.get(path) {
        Some(bytes) => recovery::record_of(bytes) is Ok,
        None => true,
    }
}

/// No original limit has been lost or changed, and no record has become unreadable.
pub open spec fn faithful(first: World, now: World) -> bool {
    &&& forall|path: PathModel, region: Seq<char>| #[trigger]
        original(now, path, region) == original(first, path, region)
    &&& forall|path: PathModel| readable(first, path) ==> #[trigger] readable(now, path)
}

/// Every limit is what it was, or is the original one.
pub open spec fn unraised(first: World, now: World) -> bool {
    forall|path: PathModel, region: Seq<char>| #[trigger]
        limit(now, path, region) == limit(first, path, region) || limit(now, path, region)
            == original(first, path, region)
}

/// Nothing has changed but the limits and the record of one cgroup.
pub open spec fn elsewhere_same(first: World, now: World, path: PathModel) -> bool {
    &&& now.focus == first.focus
    &&& forall|other: PathModel|
        other != path ==> #[trigger] now.records.get(other) == first.records.get(other)
    &&& forall|file: PathModel, region: Seq<char>|
        file != restore::low_file(path) ==> #[trigger] now.values.get((file, region))
            == first.values.get((file, region))
}

/// Whether a table is what a `dmem` file lists.
pub open spec fn lists(world: World, file: PathModel, values: ValuesModel) -> bool {
    forall|region: Seq<char>| #[trigger]
        table::find(values, region) == world.values.get((file, region))
}

/// The value of an extended attribute.
pub open spec fn attribute(world: World, path: PathModel, name: Xattr) -> Option<Seq<u8>> {
    match name {
        Xattr::Focus => world.focus.get(path),
        Xattr::State => world.records.get(path),
    }
}

/// Whether the system may give an answer. A request that is not carried out is a
/// fault, and so is a file that makes no sense. Where there are no faults every
/// request is carried out.
pub open spec fn possible(world: World, call: Call, answer: Answer, faults: bool) -> bool {
    match call {
        Call::Read(file) => match answer {
            Answer::Text(Ok(content)) => match cgroup::dmem_values(content) {
                Ok(values) => lists(world, file, values),
                Err(_) => faults,
            },
            _ => faults,
        },
        Call::GetXattr(path, name) => match answer {
            Answer::Attribute(Ok(value)) => value == attribute(world, path, name),
            Answer::Attribute(Err(IoFailure::NotFound)) => faults && attribute(world, path, name)
                is None,
            _ => faults,
        },
        Call::AddWatch(_) => faults || answer matches Answer::Watch(Ok(_)),
        _ => faults || request::succeeded(answer),
    }
}

/// A system without faults has an answer to every request, if the file that is read
/// lists valid regions, each once. In which order it lists them does not matter.
pub proof fn a_faultless_system_answers(world: World, call: Call, values: ValuesModel)
    requires
        call matches Call::Read(file) ==> lists(world, file, values) && cgroup::regions_differ(
            values,
        ) && cgroup::regions_ok(values),
    ensures
        exists|answer: Answer| #[trigger] possible(world, call, answer, false),
        call is Read ==> possible(world, call, Answer::Text(Ok(cgroup::listing(values))), false),
{
    let answer = match call {
        Call::Read(_) => Answer::Text(Ok(cgroup::listing(values))),
        Call::GetXattr(path, name) => Answer::Attribute(Ok(attribute(world, path, name))),
        Call::AddWatch(_) => Answer::Watch(Ok(0)),
        _ => Answer::Done(Ok(())),
    };
    if let Call::Read(file) = call {
        cgroup::a_listing_in_any_order_is_read(values);
        let read = cgroup::dmem_values(cgroup::listing(values))->Ok_0;
        assert forall|region: Seq<char>| #[trigger]
            table::find(read, region) == world.values.get((file, region)) by {
            assert(table::find(values, region) == world.values.get((file, region)));
            if table::find(values, region) is Some {
                let i = table::lemma_find_index(values, region);
                assert(table::find(read, values[i].0) == Some(values[i].1));
            } else {
                assert forall|k: int| 0 <= k < values.len() implies (#[trigger] values[k]).0
                    != region by {
                    lemma_found(values, k);
                }
            }
        }
    }
    assert(possible(world, call, answer, false));
}

proof fn lemma_found(values: ValuesModel, i: int)
    requires
        0 <= i < values.len(),
    ensures
        table::find(values, values[i].0) is Some,
    decreases values.len(),
{
    if values.last().0 != values[i].0 {
        assert(values.drop_last()[i] == values[i]);
        lemma_found(values.drop_last(), i);
    }
}

/// The system after a request. One that is not carried out has no effect.
pub open spec fn after(world: World, call: Call, answer: Answer) -> World {
    if request::succeeded(answer) {
        match call {
            Call::WriteDmem(file, region, value) => World {
                values: world.values.insert((file, region), value),
                ..world
            },
            Call::SetXattr(path, Xattr::State, bytes) => World {
                records: world.records.insert(path, bytes),
                ..world
            },
            Call::RemoveXattr(path, Xattr::State) => World {
                records: world.records.remove(path),
                ..world
            },
            _ => world,
        }
    } else {
        world
    }
}

/// In every run of an operation, `held` holds of the system at every moment, and
/// `outcome` of how it ends.
pub open spec fn always(
    program: Program,
    world: World,
    faults: bool,
    held: spec_fn(World) -> bool,
    outcome: spec_fn(World, PolicyModel, bool) -> bool,
) -> bool
    decreases program,
{
    &&& held(world)
    &&& match program {
        Program::Done(state, result) => outcome(world, state, result),
        Program::Ask(call, next) => forall|answer: Answer| #[trigger]
            possible(world, call, answer, faults) ==> always(
                next(answer),
                after(world, call, answer),
                faults,
                held,
                outcome,
            ),
    }
}

/// What always holds of an operation and of the one that follows, holds of both in
/// sequence.
pub proof fn lemma_always_bind(
    first: Program,
    next: spec_fn(PolicyModel, bool) -> Program,
    world: World,
    faults: bool,
    held: spec_fn(World) -> bool,
    between: spec_fn(World, PolicyModel, bool) -> bool,
    outcome: spec_fn(World, PolicyModel, bool) -> bool,
)
    requires
        always(first, world, faults, held, between),
        forall|w: World, s: PolicyModel, r: bool|
            held(w) && #[trigger] between(w, s, r) ==> always(next(s, r), w, faults, held, outcome),
    ensures
        always(program::bind(first, next), world, faults, held, outcome),
    decreases first,
{
    match first {
        Program::Done(state, result) => {
            assert(between(world, state, result));
        },
        Program::Ask(call, then) => {
            let sequence = program::bind(first, next);
            assert forall|answer: Answer| #[trigger] possible(world, call, answer, faults) implies always(
                program::after_answer(sequence, answer),
                after(world, call, answer),
                faults,
                held,
                outcome,
            ) by {
                lemma_always_bind(
                    then(answer),
                    next,
                    after(world, call, answer),
                    faults,
                    held,
                    between,
                    outcome,
                );
            }
        },
    }
}

/// A way to go on after an operation: it asks what the operation asks, as long as that
/// lasts.
pub open spec fn goes_on(
    sequence: spec_fn(Program) -> Program,
    next: spec_fn(PolicyModel, bool) -> Program,
) -> bool {
    &&& forall|state: PolicyModel, result: bool| #[trigger]
        sequence(Program::Done(state, result)) == next(state, result)
    &&& forall|first: Program|
        first is Ask ==> program::asked(#[trigger] sequence(first)) == program::asked(first)
    &&& forall|first: Program, answer: Answer|
        first is Ask ==> #[trigger] program::after_answer(sequence(first), answer) == sequence(
            program::after_answer(first, answer),
        )
}

/// What always holds of an operation and of the one that follows, holds of both in
/// sequence, however the sequence is made.
pub proof fn lemma_always_sequence(
    first: Program,
    sequence: spec_fn(Program) -> Program,
    next: spec_fn(PolicyModel, bool) -> Program,
    world: World,
    faults: bool,
    held: spec_fn(World) -> bool,
    between: spec_fn(World, PolicyModel, bool) -> bool,
    outcome: spec_fn(World, PolicyModel, bool) -> bool,
)
    requires
        goes_on(sequence, next),
        always(first, world, faults, held, between),
        forall|w: World, s: PolicyModel, r: bool|
            held(w) && #[trigger] between(w, s, r) ==> always(next(s, r), w, faults, held, outcome),
    ensures
        always(sequence(first), world, faults, held, outcome),
    decreases first,
{
    match first {
        Program::Done(state, result) => {
            assert(between(world, state, result));
            assert(sequence(Program::Done(state, result)) == next(state, result));
        },
        Program::Ask(call, then) => {
            assert(program::asked(sequence(first)) == Some(call));
            assert forall|answer: Answer| #[trigger] possible(world, call, answer, faults) implies always(
                program::after_answer(sequence(first), answer),
                after(world, call, answer),
                faults,
                held,
                outcome,
            ) by {
                lemma_always_sequence(
                    then(answer),
                    sequence,
                    next,
                    after(world, call, answer),
                    faults,
                    held,
                    between,
                    outcome,
                );
                assert(program::after_answer(first, answer) == then(answer));
            }
        },
    }
}

/// What always holds of an operation may be weakened.
pub proof fn lemma_always_weaken(
    program: Program,
    world: World,
    faults: bool,
    held: spec_fn(World) -> bool,
    outcome: spec_fn(World, PolicyModel, bool) -> bool,
    held_too: spec_fn(World) -> bool,
    outcome_too: spec_fn(World, PolicyModel, bool) -> bool,
)
    requires
        always(program, world, faults, held, outcome),
        forall|w: World| #[trigger] held(w) ==> held_too(w),
        forall|w: World, s: PolicyModel, r: bool|
            held(w) && #[trigger] outcome(w, s, r) ==> outcome_too(w, s, r),
    ensures
        always(program, world, faults, held_too, outcome_too),
    decreases program,
{
    if let Program::Ask(call, next) = program {
        assert forall|answer: Answer| #[trigger] possible(world, call, answer, faults) implies always(
            next(answer),
            after(world, call, answer),
            faults,
            held_too,
            outcome_too,
        ) by {
            lemma_always_weaken(
                next(answer),
                after(world, call, answer),
                faults,
                held,
                outcome,
                held_too,
                outcome_too,
            );
        }
    }
}

}
