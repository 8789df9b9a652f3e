//! Failing writes: what is done all the same.

use crate::activate;
use crate::cgroup;
use crate::cgroup::ValuesModel;
use crate::laws::boost;
use crate::laws::restoration;
use crate::path::PathModel;
use crate::program;
use crate::program::Program;
use crate::recover;
use crate::recovery;
use crate::recovery::{RecordModel, Standing};
use crate::request;
use crate::request::{Answer, Call, Xattr};
use crate::restore;
use crate::state::PolicyModel;
use crate::table;
use crate::world;
use crate::world::World;
use vstd::prelude::*;

verus! {

/// Whether a request writes a limit of one of these regions.
pub open spec fn writes(call: Call, regions: spec_fn(Seq<char>) -> bool) -> bool {
    match call {
        Call::WriteDmem(_, region, _) => regions(region),
        _ => false,
    }
}

/// In every run of an operation in which limits of these regions may fail to be written, and
/// nothing else fails, `outcome` holds of how it ends.
pub open spec fn through(
    program: Program,
    world: World,
    fails: spec_fn(Seq<char>) -> bool,
    outcome: spec_fn(World, PolicyModel, bool) -> bool,
) -> bool
    decreases program,
{
    match program {
        Program::Done(state, result) => outcome(world, state, result),
        Program::Ask(call, next) => forall|answer: Answer| #[trigger]
            world::possible(world, call, answer, writes(call, fails)) ==> through(
                next(answer),
                world::after(world, call, answer),
                fails,
                outcome,
            ),
    }
}

/// What becomes of a region when its cgroup is restored. A limit that is the applied one is
/// the baseline then, and the entry is gone. Both may be as they were only where the limit can
/// fail to be written. Any other limit is as it was, without an entry.
pub open spec fn restored_or_kept(
    before: World,
    now: World,
    path: PathModel,
    region: Seq<char>,
    fails: bool,
) -> bool {
    match (world::limit(before, path, region), world::entry(before, path, region)) {
        (Some(limit), Some(entry)) => if limit == entry.applied {
            ||| world::limit(now, path, region) == Some(entry.baseline) && world::entry(
                now,
                path,
                region,
            ) is None
            ||| fails && world::limit(now, path, region) == Some(entry.applied) && world::entry(
                now,
                path,
                region,
            ) == Some(entry)
        } else {
            world::limit(now, path, region) == Some(limit) && world::entry(now, path, region)
                is None
        },
        (limit, _) => world::limit(now, path, region) == limit && world::entry(now, path, region)
            is None,
    }
}

/// How a restoration ends where limits may fail to be written: it is outstanding as long as
/// there is a record.
pub open spec fn partly_restored(
    before: World,
    path: PathModel,
    fails: spec_fn(Seq<char>) -> bool,
) -> spec_fn(World, PolicyModel, bool) -> bool {
    |now: World, to: PolicyModel, done: bool|
        {
            &&& forall|region: Seq<char>| #[trigger]
                restored_or_kept(before, now, path, region, fails(region))
            &&& to.pending_restore.contains(path) <==> now.records.get(path) is Some
        }
}

/// These are the entries whose limits are the applied ones. The limits of other regions are
/// as they were.
spec fn to_restore(before: World, now: World, path: PathModel, boosted: RecordModel) -> bool {
    forall|region: Seq<char>|
        match (world::limit(before, path, region), world::entry(before, path, region)) {
            (Some(limit), Some(entry)) => if limit == entry.applied {
                #[trigger] table::find(boosted, region) == Some(entry)
            } else {
                table::find(boosted, region) is None && world::limit(now, path, region) == Some(
                    limit,
                )
            },
            (limit, _) => table::find(boosted, region) is None && world::limit(now, path, region)
                == limit,
        }
}

proof fn lemma_clear(
    state: PolicyModel,
    path: PathModel,
    before: World,
    now: World,
    boosted: RecordModel,
    fails: spec_fn(Seq<char>) -> bool,
)
    requires
        to_restore(before, now, path, boosted),
        forall|i: int|
            0 <= i < boosted.len() ==> world::limit(now, path, (#[trigger] boosted[i]).0) == Some(
                boosted[i].1.baseline,
            ),
    ensures
        through(
            restore::ask_clear(restore::releasing(state, path), path),
            now,
            fails,
            partly_restored(before, path, fails),
        ),
{
    let from = restore::releasing(state, path);
    let program = restore::ask_clear(from, path);
    let call = Call::RemoveXattr(path, Xattr::State);
    let outcome = partly_restored(before, path, fails);
    assert forall|answer: Answer| #[trigger]
        world::possible(now, call, answer, false) implies through(
        program::after_answer(program, answer),
        world::after(now, call, answer),
        fails,
        outcome,
    ) by {
        let end = world::after(now, call, answer);
        crate::paths::lemma_without(from.pending_restore, path);
        assert forall|region: Seq<char>| #[trigger]
            restored_or_kept(before, end, path, region, fails(region)) by {
            assert(world::entry(end, path, region) is None);
            assert(world::limit(end, path, region) == world::limit(now, path, region));
            if table::find(boosted, region) is Some {
                let i = table::lemma_find_index(boosted, region);
                assert(world::limit(now, path, boosted[i].0) == Some(boosted[i].1.baseline));
            }
        }
        assert(outcome(end, restore::released(from, path), true));
    }
}

proof fn lemma_restore_writes(
    state: PolicyModel,
    path: PathModel,
    before: World,
    now: World,
    boosted: RecordModel,
    next: nat,
    failed: RecordModel,
    fails: spec_fn(Seq<char>) -> bool,
)
    requires
        now.records.get(path) is Some,
        restoration::midway(now, path, boosted, next, failed),
        to_restore(before, now, path, boosted),
        boosted.len() > 0,
        forall|region: Seq<char>| #[trigger] table::find(failed, region) is Some ==> fails(region),
    ensures
        through(
            restore::restore_writes(restore::releasing(state, path), path, boosted, next, failed),
            now,
            fails,
            partly_restored(before, path, fails),
        ),
    decreases boosted.len() - next,
{
    let from = restore::releasing(state, path);
    let program = restore::restore_writes(from, path, boosted, next, failed);
    let outcome = partly_restored(before, path, fails);
    crate::paths::lemma_with(state.pending_restore, path);
    if next < boosted.len() {
        let (region, entry) = boosted[next as int];
        let call = Call::WriteDmem(restore::low_file(path), region, entry.baseline);
        table::lemma_find_entry(boosted, next as int);
        assert forall|answer: Answer| #[trigger]
            world::possible(now, call, answer, writes(call, fails)) implies through(
            program::after_answer(program, answer),
            world::after(now, call, answer),
            fails,
            outcome,
        ) by {
            if request::succeeded(answer) {
                let end = restoration::lemma_write(now, path, region, entry.baseline, entry);
                restoration::lemma_midway_step(now, end, path, boosted, next, failed);
                assert(to_restore(before, end, path, boosted)) by {
                    assert forall|r: Seq<char>| #[trigger] table::find(boosted, r)
                        is None implies world::limit(end, path, r) == world::limit(now, path, r) by {}
                }
                lemma_restore_writes(state, path, before, end, boosted, next + 1, failed, fails);
            } else {
                let more = table::put(failed, region, entry);
                restoration::lemma_midway_failed(now, path, boosted, next, failed);
                table::lemma_put(failed, region, entry);
                lemma_restore_writes(state, path, before, now, boosted, next + 1, more, fails);
            }
        }
    } else if failed.len() == 0 {
        assert forall|i: int| 0 <= i < boosted.len() implies world::limit(
            now,
            path,
            (#[trigger] boosted[i]).0,
        ) == Some(boosted[i].1.baseline) by {
            assert(table::find(failed, boosted[i].0) is None);
        }
        lemma_clear(state, path, before, now, boosted, fails);
    } else if failed == boosted {
        assert forall|r: Seq<char>| #[trigger] restored_or_kept(before, now, path, r, fails(r)) by {
            assert(world::entry(now, path, r) == table::find(boosted, r));
            if table::find(boosted, r) is Some {
                let i = table::lemma_find_index(boosted, r);
                assert(world::limit(now, path, boosted[i].0) == Some(boosted[i].1.applied));
            }
        }
        assert(outcome(now, from, true));
    } else {
        let call = Call::SetXattr(path, Xattr::State, recovery::record_bytes(failed));
        assert forall|i: int| 0 <= i < failed.len() implies cgroup::region_ok(
            #[trigger] failed[i].0,
        ) by {
            table::lemma_find_entry(failed, i);
            let k = table::lemma_find_index(boosted, failed[i].0);
            assert(cgroup::region_ok(boosted[k].0));
        }
        recovery::record_reads_back(failed);
        assert forall|answer: Answer| #[trigger]
            world::possible(now, call, answer, false) implies through(
            program::after_answer(program, answer),
            world::after(now, call, answer),
            fails,
            outcome,
        ) by {
            let end = world::after(now, call, answer);
            assert forall|r: Seq<char>| #[trigger]
                restored_or_kept(before, end, path, r, fails(r)) by {
                assert(world::entry(end, path, r) == table::find(failed, r));
                assert(world::limit(end, path, r) == world::limit(now, path, r));
                if table::find(boosted, r) is Some {
                    let i = table::lemma_find_index(boosted, r);
                    assert(world::limit(now, path, boosted[i].0) == Some(
                        if table::find(failed, boosted[i].0) is None {
                            boosted[i].1.baseline
                        } else {
                            boosted[i].1.applied
                        },
                    ));
                }
            }
            assert(outcome(end, from, true));
        }
    }
}

proof fn lemma_restore_boosted(
    state: PolicyModel,
    path: PathModel,
    now: World,
    bytes: Seq<u8>,
    record: RecordModel,
    current: ValuesModel,
    fails: spec_fn(Seq<char>) -> bool,
)
    requires
        now.records.get(path) == Some(bytes),
        recovery::record_of(bytes) == Ok::<RecordModel, &'static str>(record),
        world::lists(now, restore::low_file(path), current),
    ensures
        through(
            restore::restore_boosted(
                restore::releasing(state, path),
                path,
                bytes,
                recovery::select(record, current, Standing::Applied),
            ),
            now,
            fails,
            partly_restored(now, path, fails),
        ),
{
    let from = restore::releasing(state, path);
    let boosted = recovery::select(record, current, Standing::Applied);
    let outcome = partly_restored(now, path, fails);
    recovery::parsed_record_is_ordered(bytes);
    restoration::lemma_selection(record, current, Standing::Applied);
    assert(to_restore(now, now, path, boosted)) by {
        assert forall|r: Seq<char>|
            match (world::limit(now, path, r), world::entry(now, path, r)) {
                (Some(limit), Some(entry)) => if limit == entry.applied {
                    #[trigger] table::find(boosted, r) == Some(entry)
                } else {
                    table::find(boosted, r) is None && world::limit(now, path, r) == Some(limit)
                },
                (limit, _) => table::find(boosted, r) is None && world::limit(now, path, r)
                    == limit,
            } by {
            recovery::lemma_find_selected(record, current, Standing::Applied, r);
            assert(table::find(current, r) == now.values.get((restore::low_file(path), r)));
        }
    }
    if boosted.len() == 0 {
        lemma_clear(state, path, now, now, boosted, fails);
    } else {
        recovery::record_reads_back(boosted);
        assert forall|i: int| 0 <= i < boosted.len() implies world::limit(
            now,
            path,
            (#[trigger] boosted[i]).0,
        ) == Some(boosted[i].1.applied) by {
            table::lemma_find_entry(boosted, i);
            recovery::lemma_find_selected(record, current, Standing::Applied, boosted[i].0);
            assert(table::find(current, boosted[i].0) == now.values.get(
                (restore::low_file(path), boosted[i].0),
            ));
        }
        if bytes == recovery::record_bytes(boosted) {
            assert(restoration::midway(now, path, boosted, 0, Seq::empty()));
            lemma_restore_writes(state, path, now, now, boosted, 0, Seq::empty(), fails);
        } else {
            let program = restore::ask_narrow(from, path, boosted);
            let call = Call::SetXattr(path, Xattr::State, recovery::record_bytes(boosted));
            assert forall|answer: Answer| #[trigger]
                world::possible(now, call, answer, false) implies through(
                program::after_answer(program, answer),
                world::after(now, call, answer),
                fails,
                outcome,
            ) by {
                let end = world::after(now, call, answer);
                assert forall|r: Seq<char>| #[trigger]
                    world::entry(end, path, r) == table::find(boosted, r) by {}
                assert forall|i: int| 0 <= i < boosted.len() implies world::limit(
                    end,
                    path,
                    (#[trigger] boosted[i]).0,
                ) == Some(boosted[i].1.applied) by {
                    assert(world::limit(end, path, boosted[i].0) == world::limit(
                        now,
                        path,
                        boosted[i].0,
                    ));
                }
                assert(restoration::midway(end, path, boosted, 0, Seq::empty()));
                assert(to_restore(now, end, path, boosted)) by {
                    assert forall|r: Seq<char>| #[trigger] table::find(boosted, r)
                        is None implies world::limit(end, path, r) == world::limit(now, path, r) by {}
                }
                lemma_restore_writes(state, path, now, end, boosted, 0, Seq::empty(), fails);
            }
        }
    }
}

/// Where limits may fail to be written, and nothing else fails, a restoration still restores
/// each region whose limit can be written, and its record then tells of the others alone.
pub proof fn a_partial_restoration_keeps_the_rest(
    state: PolicyModel,
    path: PathModel,
    now: World,
    fails: spec_fn(Seq<char>) -> bool,
)
    requires
        world::readable(now, path),
    ensures
        through(restore::restore(state, path), now, fails, partly_restored(now, path, fails)),
{
    let from = restore::releasing(state, path);
    let outcome = partly_restored(now, path, fails);
    let program = restore::restore(state, path);
    let call = Call::GetXattr(path, Xattr::State);
    assert forall|answer: Answer| #[trigger]
        world::possible(now, call, answer, false) implies through(
        program::after_answer(program, answer),
        world::after(now, call, answer),
        fails,
        outcome,
    ) by {
        assert(world::after(now, call, answer) == now);
        match now.records.get(path) {
            Some(bytes) => {
                if let Ok(record) = recovery::record_of(bytes) {
                    let asked = restore::ask_limits(from, path, bytes, record);
                    let read = Call::Read(restore::low_file(path));
                    assert forall|content: Answer| #[trigger]
                        world::possible(now, read, content, false) implies through(
                        program::after_answer(asked, content),
                        world::after(now, read, content),
                        fails,
                        outcome,
                    ) by {
                        assert(world::after(now, read, content) == now);
                        if let Some(current) = restore::limits_in(content) {
                            lemma_restore_boosted(state, path, now, bytes, record, current, fails);
                        }
                    }
                    assert(through(asked, now, fails, outcome));
                }
            },
            None => {
                crate::paths::lemma_without(from.pending_restore, path);
                assert forall|region: Seq<char>| #[trigger]
                    restored_or_kept(now, now, path, region, fails(region)) by {}
                assert(outcome(now, restore::released(from, path), true));
            },
        }
    }
}

/// How a boost ends where limits may fail to be written. Either the cgroup is boosted, with
/// every limit raised, or every limit is what it was and there is no record, or there is a
/// limit that could not be put back, and the record is kept.
pub open spec fn raised_or_put_back(
    before: World,
    from: PolicyModel,
    path: PathModel,
    fails: spec_fn(Seq<char>) -> bool,
) -> spec_fn(World, PolicyModel, bool) -> bool {
    |now: World, to: PolicyModel, done: bool|
        if to.foreground == Some(path) {
            forall|region: Seq<char>| #[trigger]
                boost::raised_to_capacity(before, now, from.root, path, region)
        } else {
            &&& to.pending_apply.contains(path)
            &&& if now.records.get(path) is None {
                forall|region: Seq<char>| #[trigger]
                    world::limit(now, path, region) == world::limit(before, path, region)
            } else {
                exists|region: Seq<char>| #[trigger]
                    world::limit(now, path, region) != world::limit(before, path, region)
            }
            &&& forall|region: Seq<char>| #[trigger]
                world::limit(now, path, region) != world::limit(before, path, region) ==> fails(
                    region,
                )
            &&& exists|region: Seq<char>| #[trigger] fails(region)
        }
}

/// The record lists the limits that are to be raised, and the others are as they were.
spec fn to_raise(
    before: World,
    now: World,
    root: PathModel,
    path: PathModel,
    record: RecordModel,
) -> bool {
    forall|region: Seq<char>|
        match #[trigger] table::find(record, region) {
            Some(entry) => {
                &&& world::limit(before, path, region) == Some(entry.baseline)
                &&& before.values.get((activate::capacity_file(root), region)) == Some(
                    entry.applied,
                )
                &&& entry.baseline != entry.applied
                &&& cgroup::at_most(entry.baseline, entry.applied)
            },
            None => {
                &&& world::limit(now, path, region) == world::limit(before, path, region)
                &&& match (
                    world::limit(before, path, region),
                    before.values.get((activate::capacity_file(root), region)),
                ) {
                    (Some(limit), Some(capacity)) => cgroup::at_most(capacity, limit),
                    _ => true,
                }
            },
        }
}

/// A write of a limit that the record lists.
proof fn lemma_write(
    before: World,
    start: World,
    root: PathModel,
    path: PathModel,
    record: RecordModel,
    i: int,
    value: cgroup::DmemValue,
) -> (now: World)
    requires
        to_raise(start, before, root, path, record),
        boost::listed(before, path, record),
        0 <= i < record.len(),
        value == record[i].1.baseline || value == record[i].1.applied,
    ensures
        now == (World {
            values: before.values.insert((restore::low_file(path), record[i].0), value),
            ..before
        }),
        to_raise(start, now, root, path, record),
        boost::listed(now, path, record),
        world::limit(now, path, record[i].0) == Some(value),
        forall|k: int|
            0 <= k < record.len() && k != i ==> world::limit(now, path, (#[trigger] record[k]).0)
                == world::limit(before, path, record[k].0),
{
    table::lemma_find_entry(record, i);
    let (region, entry) = record[i];
    let now = restoration::lemma_write(before, path, region, value, entry);
    assert forall|k: int| 0 <= k < record.len() && k != i implies world::limit(
        now,
        path,
        (#[trigger] record[k]).0,
    ) == world::limit(before, path, record[k].0) by {
        restoration::lemma_distinct(record, k, i);
    }
    assert forall|r: Seq<char>| #[trigger]
        world::entry(now, path, r) == table::find(record, r) by {
        assert(world::entry(before, path, r) == table::find(record, r));
    }
    assert forall|r: Seq<char>| #[trigger] table::find(record, r) is None implies world::limit(
        now,
        path,
        r,
    ) == world::limit(before, path, r) by {}
    now
}

proof fn lemma_roll_back(
    from: PolicyModel,
    path: PathModel,
    start: World,
    now: World,
    state: PolicyModel,
    record: RecordModel,
    written: nat,
    next: nat,
    clean: bool,
    fails: spec_fn(Seq<char>) -> bool,
)
    requires
        to_raise(start, now, from.root, path, record),
        boost::listed(now, path, record),
        now.records.get(path) is Some,
        state.foreground != Some(path),
        state.pending_apply.contains(path),
        next <= written <= record.len(),
        forall|i: int|
            written <= i < record.len() || 0 <= i < next && clean ==> world::limit(
                now,
                path,
                (#[trigger] record[i]).0,
            ) == Some(record[i].1.baseline),
        forall|i: int|
            next <= i < written ==> world::limit(now, path, (#[trigger] record[i]).0) == Some(
                record[i].1.applied,
            ),
        !clean ==> exists|i: int|
            0 <= i < next && world::limit(now, path, (#[trigger] record[i]).0) == Some(
                record[i].1.applied,
            ),
        forall|i: int|
            0 <= i < next && world::limit(now, path, (#[trigger] record[i]).0) != Some(
                record[i].1.baseline,
            ) ==> fails(record[i].0),
        exists|region: Seq<char>| #[trigger] fails(region),
    ensures
        through(
            activate::roll_back(state, path, record, written, next, clean),
            now,
            fails,
            raised_or_put_back(start, from, path, fails),
        ),
    decreases written - next,
{
    let outcome = raised_or_put_back(start, from, path, fails);
    let program = activate::roll_back(state, path, record, written, next, clean);
    if next < written {
        let (region, entry) = record[next as int];
        let call = Call::WriteDmem(restore::low_file(path), region, entry.baseline);
        assert forall|answer: Answer| #[trigger]
            world::possible(now, call, answer, writes(call, fails)) implies through(
            program::after_answer(program, answer),
            world::after(now, call, answer),
            fails,
            outcome,
        ) by {
            if request::succeeded(answer) {
                let end = lemma_write(
                    now,
                    start,
                    from.root,
                    path,
                    record,
                    next as int,
                    entry.baseline,
                );
                if !clean {
                    let i = choose|i: int|
                        0 <= i < next && world::limit(now, path, (#[trigger] record[i]).0) == Some(
                            record[i].1.applied,
                        );
                    assert(world::limit(end, path, record[i].0) == Some(record[i].1.applied));
                }
                let place = next + 1;
                lemma_roll_back(from, path, start, end, state, record, written, place, clean, fails);
            } else {
                assert(world::limit(now, path, record[next as int].0) == Some(
                    record[next as int].1.applied,
                ));
                let place = next + 1;
                lemma_roll_back(from, path, start, now, state, record, written, place, false, fails);
            }
        }
    } else if clean {
        let call = Call::RemoveXattr(path, Xattr::State);
        assert forall|answer: Answer| #[trigger]
            world::possible(now, call, answer, false) implies through(
            program::after_answer(program, answer),
            world::after(now, call, answer),
            fails,
            outcome,
        ) by {
            let end = world::after(now, call, answer);
            assert(end.records.get(path) is None);
            assert forall|region: Seq<char>| #[trigger]
                world::limit(end, path, region) == world::limit(start, path, region) by {
                assert(world::limit(end, path, region) == world::limit(now, path, region));
                if table::find(record, region) is Some {
                    let i = table::lemma_find_index(record, region);
                    assert(world::limit(now, path, record[i].0) == Some(record[i].1.baseline));
                }
            }
            assert(outcome(end, state, true));
        }
    } else {
        let i = choose|i: int|
            0 <= i < next && world::limit(now, path, (#[trigger] record[i]).0) == Some(
                record[i].1.applied,
            );
        table::lemma_find_entry(record, i);
        assert(world::limit(now, path, record[i].0) != world::limit(start, path, record[i].0));
        assert forall|region: Seq<char>| #[trigger]
            world::limit(now, path, region) != world::limit(start, path, region) implies fails(
            region,
        ) by {
            assert(table::find(record, region) is Some);
            let k = table::lemma_find_index(record, region);
            assert(world::limit(now, path, record[k].0) != Some(record[k].1.baseline));
        }
        assert(outcome(now, state, true));
    }
}

proof fn lemma_boost_writes(
    from: PolicyModel,
    path: PathModel,
    start: World,
    now: World,
    state: PolicyModel,
    record: RecordModel,
    next: nat,
    fails: spec_fn(Seq<char>) -> bool,
)
    requires
        to_raise(start, now, from.root, path, record),
        boost::listed(now, path, record),
        now.records.get(path) is Some,
        state.foreground != Some(path),
        state.pending_apply.contains(path),
        next <= record.len(),
        forall|i: int|
            0 <= i < record.len() ==> world::limit(now, path, (#[trigger] record[i]).0) == Some(
                if i < next {
                    record[i].1.applied
                } else {
                    record[i].1.baseline
                },
            ),
    ensures
        through(
            activate::boost_writes(state, path, record, next),
            now,
            fails,
            raised_or_put_back(start, from, path, fails),
        ),
    decreases record.len() - next,
{
    let outcome = raised_or_put_back(start, from, path, fails);
    let program = activate::boost_writes(state, path, record, next);
    if next < record.len() {
        let (region, entry) = record[next as int];
        let call = Call::WriteDmem(restore::low_file(path), region, entry.applied);
        assert forall|answer: Answer| #[trigger]
            world::possible(now, call, answer, writes(call, fails)) implies through(
            program::after_answer(program, answer),
            world::after(now, call, answer),
            fails,
            outcome,
        ) by {
            if request::succeeded(answer) {
                let end = lemma_write(
                    now,
                    start,
                    from.root,
                    path,
                    record,
                    next as int,
                    entry.applied,
                );
                lemma_boost_writes(from, path, start, end, state, record, next + 1, fails);
            } else {
                lemma_roll_back(from, path, start, now, state, record, next, 0, true, fails);
            }
        }
    } else {
        lemma_raised(from.root, path, start, now, record);
        assert(outcome(now, recover::activated(state, path), true));
    }
}

proof fn lemma_raised(
    root: PathModel,
    path: PathModel,
    start: World,
    now: World,
    record: RecordModel,
)
    requires
        to_raise(start, now, root, path, record),
        record.len() > 0 ==> boost::listed(now, path, record),
        forall|i: int|
            0 <= i < record.len() ==> world::limit(now, path, (#[trigger] record[i]).0) == Some(
                record[i].1.applied,
            ),
    ensures
        forall|region: Seq<char>| #[trigger]
            boost::raised_to_capacity(start, now, root, path, region),
{
    assert forall|region: Seq<char>| #[trigger]
        boost::raised_to_capacity(start, now, root, path, region) by {
        if table::find(record, region) is Some {
            let i = table::lemma_find_index(record, region);
            assert(world::limit(now, path, record[i].0) == Some(record[i].1.applied));
            assert(world::entry(now, path, region) == table::find(record, region));
        }
    }
}

proof fn lemma_boost(
    from: PolicyModel,
    path: PathModel,
    now: World,
    state: PolicyModel,
    capacity: ValuesModel,
    current: ValuesModel,
    fails: spec_fn(Seq<char>) -> bool,
)
    requires
        now.records.get(path) is None,
        state.foreground != Some(path),
        state.pending_apply.contains(path),
        table::ordered(capacity),
        cgroup::regions_ok(capacity),
        world::lists(now, activate::capacity_file(from.root), capacity),
        world::lists(now, restore::low_file(path), current),
    ensures
        through(
            activate::boost(state, path, recovery::boosts(capacity, current)),
            now,
            fails,
            raised_or_put_back(now, from, path, fails),
        ),
{
    let outcome = raised_or_put_back(now, from, path, fails);
    let record = recovery::boosts(capacity, current);
    recovery::lemma_boosts(capacity, current);
    assert(to_raise(now, now, from.root, path, record)) by {
        assert forall|r: Seq<char>|
            match #[trigger] table::find(record, r) {
                Some(entry) => {
                    &&& world::limit(now, path, r) == Some(entry.baseline)
                    &&& now.values.get((activate::capacity_file(from.root), r)) == Some(
                        entry.applied,
                    )
                    &&& entry.baseline != entry.applied
                    &&& cgroup::at_most(entry.baseline, entry.applied)
                },
                None => match (
                    world::limit(now, path, r),
                    now.values.get((activate::capacity_file(from.root), r)),
                ) {
                    (Some(limit), Some(most)) => cgroup::at_most(most, limit),
                    _ => true,
                },
            } by {
            recovery::lemma_find_boost(capacity, current, r);
            assert(table::find(current, r) == now.values.get((restore::low_file(path), r)));
            assert(table::find(capacity, r) == now.values.get(
                (activate::capacity_file(from.root), r),
            ));
            if let (Some(limit), Some(most)) = (table::find(current, r), table::find(capacity, r)) {
                cgroup::the_larger_limit_is_above_both(limit, most);
            }
        }
    }
    if record.len() == 0 {
        lemma_raised(from.root, path, now, now, record);
        assert(outcome(now, recover::activated(state, path), true));
    } else {
        assert forall|i: int| 0 <= i < record.len() implies cgroup::region_ok(
            #[trigger] record[i].0,
        ) by {
            let k = choose|k: int|
                0 <= k < capacity.len() && #[trigger] capacity[k].0 == record[i].0;
            assert(cgroup::region_ok(capacity[k].0));
        }
        recovery::record_reads_back(record);
        let program = activate::ask_persist(state, path, record);
        let call = Call::SetXattr(path, Xattr::State, recovery::record_bytes(record));
        assert forall|answer: Answer| #[trigger]
            world::possible(now, call, answer, false) implies through(
            program::after_answer(program, answer),
            world::after(now, call, answer),
            fails,
            outcome,
        ) by {
            let end = world::after(now, call, answer);
            assert forall|r: Seq<char>| #[trigger]
                world::entry(end, path, r) == table::find(record, r) by {}
            assert forall|i: int| 0 <= i < record.len() implies world::limit(
                end,
                path,
                (#[trigger] record[i]).0,
            ) == Some(record[i].1.baseline) by {
                table::lemma_find_entry(record, i);
                assert(world::limit(end, path, record[i].0) == world::limit(
                    now,
                    path,
                    record[i].0,
                ));
            }
            assert(boost::listed(end, path, record));
            assert(to_raise(now, end, from.root, path, record)) by {
                assert forall|r: Seq<char>| #[trigger] table::find(record, r)
                    is None implies world::limit(end, path, r) == world::limit(now, path, r) by {}
            }
            lemma_boost_writes(from, path, now, end, state, record, 0, fails);
        }
    }
}

/// Where limits may fail to be written, and nothing else fails, a boost of a cgroup without a
/// record raises every limit, or puts back what it has raised. The record is kept only where
/// that failed.
pub proof fn a_failed_boost_is_put_back(
    from: PolicyModel,
    path: PathModel,
    now: World,
    fails: spec_fn(Seq<char>) -> bool,
)
    requires
        from.foreground is None,
        !from.pending_restore.contains(path),
        now.records.get(path) is None,
    ensures
        through(
            activate::activate(from, path),
            now,
            fails,
            raised_or_put_back(now, from, path, fails),
        ),
{
    let state = activate::applying(from, path);
    let outcome = raised_or_put_back(now, from, path, fails);
    crate::paths::lemma_with(from.pending_apply, path);
    let program = activate::activate(from, path);
    let call = Call::GetXattr(path, Xattr::State);
    let next = |s: PolicyModel, recovered: bool|
        if recovered {
            Program::Done(s, true)
        } else {
            activate::ask_capacity(s, path)
        };
    assert(program == program::bind(recover::recover(state, path), next));
    assert forall|answer: Answer| #[trigger]
        world::possible(now, call, answer, false) implies through(
        program::after_answer(program, answer),
        world::after(now, call, answer),
        fails,
        outcome,
    ) by {
        program::lemma_bind(recover::recover(state, path), next, answer);
        assert(program::after_answer(program, answer) == activate::ask_capacity(state, path));
        lemma_ask_capacity(from, path, now, state, fails);
    }
    program::lemma_bind(recover::recover(state, path), next, Answer::Attribute(Ok(None)));
}

proof fn lemma_ask_capacity(
    from: PolicyModel,
    path: PathModel,
    now: World,
    state: PolicyModel,
    fails: spec_fn(Seq<char>) -> bool,
)
    requires
        now.records.get(path) is None,
        state.root == from.root,
        state.foreground != Some(path),
        state.pending_apply.contains(path),
    ensures
        through(
            activate::ask_capacity(state, path),
            now,
            fails,
            raised_or_put_back(now, from, path, fails),
        ),
{
    let outcome = raised_or_put_back(now, from, path, fails);
    let program = activate::ask_capacity(state, path);
    let call = Call::Read(activate::capacity_file(from.root));
    assert forall|answer: Answer| #[trigger]
        world::possible(now, call, answer, false) implies through(
        program::after_answer(program, answer),
        world::after(now, call, answer),
        fails,
        outcome,
    ) by {
        assert(world::after(now, call, answer) == now);
        if let Some(capacity) = restore::limits_in(answer) {
            if let Answer::Text(Ok(content)) = answer {
                cgroup::parsed_values_are_ordered(content);
            }
            let asked = activate::ask_limits(state, path, capacity);
            let read = Call::Read(restore::low_file(path));
            assert forall|content: Answer| #[trigger]
                world::possible(now, read, content, false) implies through(
                program::after_answer(asked, content),
                world::after(now, read, content),
                fails,
                outcome,
            ) by {
                assert(world::after(now, read, content) == now);
                if let Some(current) = restore::limits_in(content) {
                    lemma_boost(from, path, now, state, capacity, current, fails);
                }
            }
            assert(through(asked, now, fails, outcome));
        }
    }
}

}
