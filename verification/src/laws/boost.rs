//! Boosting: the originals are saved first, and what is boosted can be put back.

use crate::activate;
use crate::cgroup;
use crate::cgroup::{DmemValue, ValuesModel};
use crate::laws::restoration;
use crate::path::PathModel;
use crate::paths;
use crate::program;
use crate::recover;
use crate::recovery;
use crate::recovery::{RecordModel, Standing};
use crate::request;
use crate::request::{Answer, Call, Xattr};
use crate::restore;
use crate::state::PolicyModel;
use crate::table;
use crate::world;
use crate::world::World;
use vstd::prelude::*;
use vstd::string::*;
use vstd::utf8::*;

verus! {

/// Every region that a cgroup's record lists has its applied limit.
pub open spec fn in_force(world: World, path: PathModel) -> bool {
    forall|region: Seq<char>|
        #[trigger] world::entry(world, path, region) matches Some(entry) ==> world::limit(
            world,
            path,
            region,
        ) == Some(entry.applied)
}

/// The limit that a boost gives a region: its capacity, where that is larger.
pub open spec fn raised(world: World, root: PathModel, path: PathModel, region: Seq<char>) -> Option<
    DmemValue,
> {
    match (
        world::limit(world, path, region),
        world.values.get((activate::capacity_file(root), region)),
    ) {
        (Some(limit), Some(capacity)) => Some(cgroup::larger(limit, capacity)),
        (limit, _) => limit,
    }
}

/// A boost lowers no limit.
pub proof fn a_boost_lowers_no_limit(
    world: World,
    root: PathModel,
    path: PathModel,
    region: Seq<char>,
)
    ensures
        match (world::limit(world, path, region), raised(world, root, path, region)) {
            (Some(before), Some(after)) => cgroup::at_most(before, after),
            (before, after) => before == after,
        },
{
}

/// What becomes of a region when a record is taken up. Where the limit is the baseline or the
/// applied limit of its entry, it is the applied limit then, and the entry stays. Any other
/// limit is somebody else's: it stays, and the entry is dropped.
pub open spec fn taken_up(before: World, now: World, path: PathModel, region: Seq<char>) -> bool {
    match (world::limit(before, path, region), world::entry(before, path, region)) {
        (Some(limit), Some(entry)) => if limit == entry.baseline || limit == entry.applied {
            world::limit(now, path, region) == Some(entry.applied) && world::entry(
                now,
                path,
                region,
            ) == Some(entry)
        } else {
            world::limit(now, path, region) == Some(limit) && world::entry(now, path, region)
                is None
        },
        (limit, _) => world::limit(now, path, region) == limit && world::entry(now, path, region)
            is None,
    }
}

/// The entries of these regions are those that stay when the record is taken up, and the
/// limits of the others are as they were.
spec fn staying(before: World, now: World, path: PathModel, known: RecordModel) -> bool {
    forall|region: Seq<char>|
        match (world::limit(before, path, region), world::entry(before, path, region)) {
            (Some(limit), Some(entry)) => if limit == entry.baseline || limit == entry.applied {
                #[trigger] table::find(known, region) == Some(entry)
            } else {
                table::find(known, region) is None && world::limit(now, path, region) == Some(
                    limit,
                )
            },
            (limit, _) => table::find(known, region) is None && world::limit(now, path, region)
                == limit,
        }
}

/// How the recovery of a boost ends.
pub open spec fn recovered(
    before: World,
    now: World,
    from: PolicyModel,
    to: PolicyModel,
    path: PathModel,
    faults: bool,
    handled: bool,
) -> bool {
    if handled {
        &&& world::elsewhere_same(before, now, path)
        &&& to == from || to == recover::activated(from, path) && in_force(now, path)
        &&& !faults && world::readable(before, path) ==> to == recover::activated(from, path)
        &&& !faults ==> before.records.get(path) is Some
        &&& !faults && world::readable(before, path) ==> forall|region: Seq<char>| #[trigger]
            taken_up(before, now, path, region)
    } else {
        now == before && to == from && before.records.get(path) is None
    }
}

/// How the recovery of a boost ends, as an outcome.
pub open spec fn recovery_outcome(
    before: World,
    from: PolicyModel,
    path: PathModel,
    faults: bool,
) -> spec_fn(World, PolicyModel, bool) -> bool {
    |now: World, to: PolicyModel, handled: bool|
        recovered(before, now, from, to, path, faults, handled)
}

/// How a boost ends, once the cgroup that was boosted before is out of the way.
pub open spec fn boosted(
    before: World,
    now: World,
    from: PolicyModel,
    to: PolicyModel,
    path: PathModel,
    faults: bool,
) -> bool {
    &&& world::elsewhere_same(before, now, path)
    &&& to == from || to == recover::activated(from, path) && in_force(now, path)
    &&& !faults && world::readable(before, path) ==> to == recover::activated(from, path)
    &&& !faults && before.records.get(path) is None ==> forall|region: Seq<char>| #[trigger]
        world::limit(now, path, region) == raised(before, from.root, path, region)
    &&& !faults && before.records.get(path) is Some && world::readable(before, path)
        ==> forall|region: Seq<char>| #[trigger] taken_up(before, now, path, region)
}

/// How a boost ends, as an outcome.
pub open spec fn boost_outcome(
    before: World,
    from: PolicyModel,
    path: PathModel,
    faults: bool,
) -> spec_fn(World, PolicyModel, bool) -> bool {
    |now: World, to: PolicyModel, done: bool| done && boosted(before, now, from, to, path, faults)
}

/// The record lists the regions, and each has its baseline or its applied limit.
pub open spec fn listed(now: World, path: PathModel, record: RecordModel) -> bool {
    &&& table::ordered(record)
    &&& forall|region: Seq<char>| #[trigger]
        world::entry(now, path, region) == table::find(record, region)
    &&& forall|i: int|
        0 <= i < record.len() ==> world::limit(now, path, (#[trigger] record[i]).0) == Some(
            record[i].1.baseline,
        ) || world::limit(now, path, record[i].0) == Some(record[i].1.applied)
}

/// Going on from one moment to the next.
proof fn lemma_on(first: World, start: World, before: World, now: World, path: PathModel)
    requires
        restoration::keeps(first, false)(before),
        world::elsewhere_same(start, before, path),
        world::faithful(before, now),
        world::elsewhere_same(before, now, path),
    ensures
        restoration::keeps(first, false)(now),
        world::elsewhere_same(start, now, path),
{
    restoration::lemma_keeps(first, before, now, false);
    assert forall|other: PathModel| other != path implies #[trigger] now.records.get(other)
        == start.records.get(other) by {
        assert(now.records.get(other) == before.records.get(other));
        assert(before.records.get(other) == start.records.get(other));
    }
    assert forall|file: PathModel, region: Seq<char>|
        file != restore::low_file(path) implies #[trigger] now.values.get((file, region))
        == start.values.get((file, region)) by {
        assert(now.values.get((file, region)) == before.values.get((file, region)));
        assert(before.values.get((file, region)) == start.values.get((file, region)));
    }
}

/// Writing a baseline or an applied limit keeps the regions listed.
proof fn lemma_listed(
    first: World,
    start: World,
    before: World,
    path: PathModel,
    record: RecordModel,
    i: int,
    value: DmemValue,
) -> (now: World)
    requires
        restoration::keeps(first, false)(before),
        world::elsewhere_same(start, before, path),
        listed(before, path, record),
        0 <= i < record.len(),
        value == record[i].1.baseline || value == record[i].1.applied,
    ensures
        now == (World {
            values: before.values.insert((restore::low_file(path), record[i].0), value),
            ..before
        }),
        restoration::keeps(first, false)(now),
        world::elsewhere_same(start, now, path),
        listed(now, path, record),
        world::limit(now, path, record[i].0) == Some(value),
        forall|other: Seq<char>|
            other != record[i].0 ==> #[trigger] world::limit(now, path, other) == world::limit(
                before,
                path,
                other,
            ),
{
    table::lemma_find_entry(record, i);
    assert(world::entry(before, path, record[i].0) == Some(record[i].1));
    let now = restoration::lemma_write(before, path, record[i].0, value, record[i].1);
    lemma_on(first, start, before, now, path);
    assert forall|region: Seq<char>| #[trigger]
        world::entry(now, path, region) == table::find(record, region) by {
        assert(world::entry(before, path, region) == table::find(record, region));
    }
    assert forall|k: int| 0 <= k < record.len() implies world::limit(
        now,
        path,
        (#[trigger] record[k]).0,
    ) == Some(record[k].1.baseline) || world::limit(now, path, record[k].0) == Some(
        record[k].1.applied,
    ) by {
        if k == i {
        } else {
            restoration::lemma_distinct(record, k, i);
            assert(world::limit(now, path, record[k].0) == world::limit(
                before,
                path,
                record[k].0,
            ));
        }
    }
    now
}

proof fn lemma_recover_writes(
    from: PolicyModel,
    path: PathModel,
    first: World,
    start: World,
    now: World,
    faults: bool,
    known: RecordModel,
    waiting: RecordModel,
    next: nat,
)
    requires
        restoration::keeps(first, false)(now),
        world::elsewhere_same(start, now, path),
        start.records.get(path) is Some,
        listed(now, path, known),
        staying(start, now, path, known),
        table::ordered(waiting),
        next <= waiting.len(),
        forall|i: int| 0 <= i < waiting.len() ==> known.contains(#[trigger] waiting[i]),
        forall|i: int|
            0 <= i < known.len() ==> world::limit(now, path, (#[trigger] known[i]).0) == Some(
                known[i].1.applied,
            ) || exists|k: int| next <= k < waiting.len() && #[trigger] waiting[k] == known[i],
    ensures
        world::always(
            recover::recover_writes(from, path, waiting, next),
            now,
            faults,
            restoration::keeps(first, false),
            recovery_outcome(start, from, path, faults),
        ),
    decreases waiting.len() - next,
{
    let program = recover::recover_writes(from, path, waiting, next);
    if next < waiting.len() {
        let (region, entry) = waiting[next as int];
        let call = Call::WriteDmem(restore::low_file(path), region, entry.applied);
        assert(known.contains(waiting[next as int]));
        let place = choose|i: int| 0 <= i < known.len() && known[i] == waiting[next as int];
        assert forall|answer: Answer| #[trigger]
            world::possible(now, call, answer, faults) implies world::always(
            program::after_answer(program, answer),
            world::after(now, call, answer),
            faults,
            restoration::keeps(first, false),
            recovery_outcome(start, from, path, faults),
        ) by {
            if request::succeeded(answer) {
                let end = lemma_listed(first, start, now, path, known, place, entry.applied);
                assert forall|i: int| 0 <= i < known.len() implies world::limit(
                    end,
                    path,
                    (#[trigger] known[i]).0,
                ) == Some(known[i].1.applied) || exists|k: int|
                    next + 1 <= k < waiting.len() && #[trigger] waiting[k] == known[i] by {
                    if i != place {
                        restoration::lemma_distinct(known, i, place);
                        assert(world::limit(end, path, known[i].0) == world::limit(
                            now,
                            path,
                            known[i].0,
                        ));
                        if world::limit(now, path, known[i].0) != Some(known[i].1.applied) {
                            let k = choose|k: int|
                                next <= k < waiting.len() && #[trigger] waiting[k] == known[i];
                            assert(k != next);
                            assert(waiting[k] == known[i]);
                        }
                    }
                }
                table::lemma_find_entry(known, place);
                assert(staying(start, end, path, known)) by {
                    assert forall|r: Seq<char>| #[trigger] table::find(known, r)
                        is None implies world::limit(end, path, r) == world::limit(
                        now,
                        path,
                        r,
                    ) by {}
                }
                lemma_recover_writes(
                    from,
                    path,
                    first,
                    start,
                    end,
                    faults,
                    known,
                    waiting,
                    next + 1,
                );
            } else {
                assert(recovered(start, now, from, from, path, faults, true));
            }
        }
    } else {
        assert forall|region: Seq<char>|
            #[trigger] world::entry(now, path, region) matches Some(entry) implies world::limit(
            now,
            path,
            region,
        ) == Some(world::entry(now, path, region)->0.applied) by {
            assert(world::entry(now, path, region) == table::find(known, region));
            let i = table::lemma_find_index(known, region);
            assert(world::limit(now, path, known[i].0) == Some(known[i].1.applied));
        }
        assert(in_force(now, path));
        assert forall|region: Seq<char>| #[trigger] taken_up(start, now, path, region) by {
            assert(world::entry(now, path, region) == table::find(known, region));
        }
        assert(recovered(
            start,
            now,
            from,
            recover::activated(from, path),
            path,
            faults,
            true,
        ));
    }
}

proof fn lemma_recover_known(
    from: PolicyModel,
    path: PathModel,
    first: World,
    now: World,
    faults: bool,
    bytes: Seq<u8>,
    record: RecordModel,
    current: ValuesModel,
)
    requires
        restoration::keeps(first, false)(now),
        now.records.get(path) == Some(bytes),
        recovery::record_of(bytes) == Ok::<RecordModel, &'static str>(record),
        world::lists(now, restore::low_file(path), current),
    ensures
        ({
            let known = recovery::select(record, current, Standing::Known);
            let waiting = recovery::select(known, current, Standing::Baseline);
            world::always(
                recover::recover_known(from, path, bytes, known, waiting),
                now,
                faults,
                restoration::keeps(first, false),
                recovery_outcome(now, from, path, faults),
            )
        }),
{
    let known = recovery::select(record, current, Standing::Known);
    let waiting = recovery::select(known, current, Standing::Baseline);
    recovery::parsed_record_is_ordered(bytes);
    restoration::lemma_selection(record, current, Standing::Known);
    restoration::lemma_selection(known, current, Standing::Baseline);
    recovery::lemma_select(known, current, Standing::Baseline);
    assert forall|i: int| 0 <= i < waiting.len() implies known.contains(#[trigger] waiting[i]) by {
        assert(recovery::is_entry(known, current, Standing::Baseline, waiting[i]));
    }
    assert(world::elsewhere_same(now, now, path));
    assert forall|r: Seq<char>| #[trigger]
        world::unboosted(world::limit(now, path, r), table::find(known, r)) == world::original(
            now,
            path,
            r,
        ) by {
        recovery::lemma_find_selected(record, current, Standing::Known, r);
        assert(table::find(current, r) == now.values.get((restore::low_file(path), r)));
    }
    assert(staying(now, now, path, known)) by {
        assert forall|r: Seq<char>|
            match (world::limit(now, path, r), world::entry(now, path, r)) {
                (Some(limit), Some(entry)) => if limit == entry.baseline || limit
                    == entry.applied {
                    #[trigger] table::find(known, r) == Some(entry)
                } else {
                    table::find(known, r) is None && world::limit(now, path, r) == Some(limit)
                },
                (limit, _) => table::find(known, r) is None && world::limit(now, path, r)
                    == limit,
            } by {
            recovery::lemma_find_selected(record, current, Standing::Known, r);
            assert(table::find(current, r) == now.values.get((restore::low_file(path), r)));
        }
    }
    if known.len() == 0 {
        assert forall|r: Seq<char>| #[trigger]
            world::limit(now, path, r) == world::original(now, path, r) by {
            assert(world::unboosted(world::limit(now, path, r), table::find(known, r))
                == world::original(now, path, r));
        }
        lemma_forget(from, path, first, now, faults, known);
    } else {
        recovery::record_reads_back(known);
        assert forall|i: int| 0 <= i < known.len() implies world::limit(
            now,
            path,
            (#[trigger] known[i]).0,
        ) == Some(known[i].1.applied) || world::limit(now, path, known[i].0) == Some(
            known[i].1.baseline,
        ) && waiting.contains(known[i]) by {
            table::lemma_find_entry(known, i);
            recovery::lemma_find_selected(record, current, Standing::Known, known[i].0);
            recovery::lemma_find_selected(known, current, Standing::Baseline, known[i].0);
            assert(table::find(current, known[i].0) == now.values.get(
                (restore::low_file(path), known[i].0),
            ));
            if world::limit(now, path, known[i].0) == Some(known[i].1.baseline) {
                let k = table::lemma_find_index(waiting, known[i].0);
                assert(waiting[k] == known[i]);
            }
        }
        if recovery::record_bytes(known) == bytes {
            lemma_begin_writes(from, path, first, now, now, faults, known, waiting);
        } else {
            let program = recover::ask_refresh(from, path, known, waiting);
            let call = Call::SetXattr(path, Xattr::State, recovery::record_bytes(known));
            assert forall|answer: Answer| #[trigger]
                world::possible(now, call, answer, faults) implies world::always(
                program::after_answer(program, answer),
                world::after(now, call, answer),
                faults,
                restoration::keeps(first, false),
                recovery_outcome(now, from, path, faults),
            ) by {
                if request::succeeded(answer) {
                    let end = restoration::lemma_set_record(now, path, known);
                    lemma_on(first, now, now, end, path);
                    assert forall|i: int| 0 <= i < known.len() implies world::limit(
                        end,
                        path,
                        (#[trigger] known[i]).0,
                    ) == Some(known[i].1.applied) || world::limit(end, path, known[i].0) == Some(
                        known[i].1.baseline,
                    ) && waiting.contains(known[i]) by {
                        assert(world::limit(end, path, known[i].0) == world::limit(
                            now,
                            path,
                            known[i].0,
                        ));
                    }
                    assert(staying(now, end, path, known)) by {
                        assert forall|r: Seq<char>| #[trigger] table::find(known, r)
                            is None implies world::limit(end, path, r) == world::limit(
                            now,
                            path,
                            r,
                        ) by {}
                    }
                    lemma_begin_writes(from, path, first, now, end, faults, known, waiting);
                } else {
                    assert(recovered(now, now, from, from, path, faults, true));
                }
            }
        }
    }
}

proof fn lemma_begin_writes(
    from: PolicyModel,
    path: PathModel,
    first: World,
    start: World,
    now: World,
    faults: bool,
    known: RecordModel,
    waiting: RecordModel,
)
    requires
        restoration::keeps(first, false)(now),
        world::elsewhere_same(start, now, path),
        start.records.get(path) is Some,
        staying(start, now, path, known),
        table::ordered(known),
        table::ordered(waiting),
        forall|region: Seq<char>| #[trigger]
            world::entry(now, path, region) == table::find(known, region),
        forall|i: int| 0 <= i < waiting.len() ==> known.contains(#[trigger] waiting[i]),
        forall|i: int|
            0 <= i < known.len() ==> world::limit(now, path, (#[trigger] known[i]).0) == Some(
                known[i].1.applied,
            ) || world::limit(now, path, known[i].0) == Some(known[i].1.baseline)
                && waiting.contains(known[i]),
    ensures
        world::always(
            recover::recover_writes(from, path, waiting, 0),
            now,
            faults,
            restoration::keeps(first, false),
            recovery_outcome(start, from, path, faults),
        ),
{
    assert(listed(now, path, known));
    assert forall|i: int| 0 <= i < known.len() implies world::limit(
        now,
        path,
        (#[trigger] known[i]).0,
    ) == Some(known[i].1.applied) || exists|k: int|
        0 <= k < waiting.len() && #[trigger] waiting[k] == known[i] by {
        if world::limit(now, path, known[i].0) != Some(known[i].1.applied) {
            let k = choose|k: int| 0 <= k < waiting.len() && waiting[k] == known[i];
            assert(waiting[k] == known[i]);
        }
    }
    lemma_recover_writes(from, path, first, start, now, faults, known, waiting, 0);
}

proof fn lemma_forget(
    from: PolicyModel,
    path: PathModel,
    first: World,
    now: World,
    faults: bool,
    known: RecordModel,
)
    requires
        restoration::keeps(first, false)(now),
        now.records.get(path) is Some,
        known.len() == 0,
        staying(now, now, path, known),
        forall|region: Seq<char>| #[trigger]
            world::limit(now, path, region) == world::original(now, path, region),
    ensures
        world::always(
            recover::ask_forget(from, path),
            now,
            faults,
            restoration::keeps(first, false),
            recovery_outcome(now, from, path, faults),
        ),
{
    let program = recover::ask_forget(from, path);
    let call = Call::RemoveXattr(path, Xattr::State);
    assert forall|answer: Answer| #[trigger]
        world::possible(now, call, answer, faults) implies world::always(
        program::after_answer(program, answer),
        world::after(now, call, answer),
        faults,
        restoration::keeps(first, false),
        recovery_outcome(now, from, path, faults),
    ) by {
        assert(world::elsewhere_same(now, now, path));
        if request::succeeded(answer) {
            let end = restoration::lemma_remove_record(now, path);
            lemma_on(first, now, now, end, path);
            assert(in_force(end, path));
            assert forall|region: Seq<char>| #[trigger] taken_up(now, end, path, region) by {
                assert(table::find(known, region) is None);
                assert(world::limit(end, path, region) == world::limit(now, path, region));
            }
            assert(recovered(now, end, from, recover::activated(from, path), path, faults, true));
        } else {
            assert(recovered(now, now, from, from, path, faults, true));
        }
    }
}

/// In every run of a recovery, whatever fails, no original limit is lost at any moment.
/// Where it ends with the cgroup boosted, every region of the record has its applied
/// limit; without faults it does, if there is a record that can be understood.
pub proof fn recovering_keeps_originals(
    from: PolicyModel,
    path: PathModel,
    first: World,
    now: World,
    faults: bool,
)
    requires
        restoration::keeps(first, false)(now),
    ensures
        world::always(
            recover::recover(from, path),
            now,
            faults,
            restoration::keeps(first, false),
            recovery_outcome(now, from, path, faults),
        ),
{
    let program = recover::recover(from, path);
    let call = Call::GetXattr(path, Xattr::State);
    assert forall|answer: Answer| #[trigger]
        world::possible(now, call, answer, faults) implies world::always(
        program::after_answer(program, answer),
        world::after(now, call, answer),
        faults,
        restoration::keeps(first, false),
        recovery_outcome(now, from, path, faults),
    ) by {
        assert(world::after(now, call, answer) == now);
        assert(world::elsewhere_same(now, now, path));
        match answer {
            Answer::Attribute(Ok(Some(bytes))) => {
                match recovery::record_of(bytes) {
                    Ok(record) => {
                        lemma_recover_limits(from, path, first, now, faults, bytes, record);
                    },
                    Err(_) => {
                        assert(recovered(now, now, from, from, path, faults, true));
                    },
                }
            },
            Answer::Attribute(Ok(None)) => {
                assert(recovered(now, now, from, from, path, faults, false));
            },
            _ => {
                assert(recovered(now, now, from, from, path, faults, true));
            },
        }
    }
}

proof fn lemma_recover_limits(
    from: PolicyModel,
    path: PathModel,
    first: World,
    now: World,
    faults: bool,
    bytes: Seq<u8>,
    record: RecordModel,
)
    requires
        restoration::keeps(first, false)(now),
        now.records.get(path) == Some(bytes),
        recovery::record_of(bytes) == Ok::<RecordModel, &'static str>(record),
    ensures
        world::always(
            recover::ask_limits(from, path, bytes, record),
            now,
            faults,
            restoration::keeps(first, false),
            recovery_outcome(now, from, path, faults),
        ),
{
    let program = recover::ask_limits(from, path, bytes, record);
    let call = Call::Read(restore::low_file(path));
    assert forall|answer: Answer| #[trigger]
        world::possible(now, call, answer, faults) implies world::always(
        program::after_answer(program, answer),
        world::after(now, call, answer),
        faults,
        restoration::keeps(first, false),
        recovery_outcome(now, from, path, faults),
    ) by {
        assert(world::after(now, call, answer) == now);
        match restore::limits_in(answer) {
            Some(current) => {
                lemma_recover_known(from, path, first, now, faults, bytes, record, current);
            },
            None => {
                assert(world::elsewhere_same(now, now, path));
                assert(recovered(now, now, from, from, path, faults, true));
            },
        }
    }
}

/// While limits are written in order: those before the next one are applied, the others
/// have their baselines. Regions without an entry are as they were.
spec fn rising(
    start: World,
    now: World,
    path: PathModel,
    record: RecordModel,
    next: nat,
) -> bool {
    &&& listed(now, path, record)
    &&& next <= record.len()
    &&& forall|i: int|
        0 <= i < record.len() ==> world::limit(now, path, (#[trigger] record[i]).0) == Some(
            if i < next {
                record[i].1.applied
            } else {
                record[i].1.baseline
            },
        )
    &&& forall|region: Seq<char>|
        table::find(record, region) is None ==> #[trigger] world::limit(now, path, region)
            == world::limit(start, path, region)
}

/// A record is the one that makes the difference between the limits and what a boost
/// makes of them.
spec fn makes_raised(
    start: World,
    root: PathModel,
    path: PathModel,
    record: RecordModel,
) -> bool {
    forall|region: Seq<char>| #[trigger]
        raised(start, root, path, region) == match table::find(record, region) {
            Some(entry) => Some(entry.applied),
            None => world::limit(start, path, region),
        }
}

proof fn lemma_boost_writes(
    from: PolicyModel,
    path: PathModel,
    first: World,
    start: World,
    now: World,
    faults: bool,
    record: RecordModel,
    next: nat,
)
    requires
        restoration::keeps(first, false)(now),
        world::elsewhere_same(start, now, path),
        start.records.get(path) is None,
        rising(start, now, path, record, next),
        makes_raised(start, from.root, path, record),
    ensures
        world::always(
            activate::boost_writes(from, path, record, next),
            now,
            faults,
            restoration::keeps(first, false),
            boost_outcome(start, from, path, faults),
        ),
    decreases record.len() - next,
{
    let program = activate::boost_writes(from, path, record, next);
    if next < record.len() {
        let (region, entry) = record[next as int];
        let call = Call::WriteDmem(restore::low_file(path), region, entry.applied);
        assert forall|answer: Answer| #[trigger]
            world::possible(now, call, answer, faults) implies world::always(
            program::after_answer(program, answer),
            world::after(now, call, answer),
            faults,
            restoration::keeps(first, false),
            boost_outcome(start, from, path, faults),
        ) by {
            if request::succeeded(answer) {
                let end = lemma_listed(
                    first,
                    start,
                    now,
                    path,
                    record,
                    next as int,
                    entry.applied,
                );
                table::lemma_find_entry(record, next as int);
                assert forall|i: int| 0 <= i < record.len() implies world::limit(
                    end,
                    path,
                    (#[trigger] record[i]).0,
                ) == Some(
                    if i < next + 1 {
                        record[i].1.applied
                    } else {
                        record[i].1.baseline
                    },
                ) by {
                    if i != next {
                        restoration::lemma_distinct(record, i, next as int);
                        assert(world::limit(end, path, record[i].0) == world::limit(
                            now,
                            path,
                            record[i].0,
                        ));
                    }
                }
                assert forall|r: Seq<char>|
                    table::find(record, r) is None implies #[trigger] world::limit(end, path, r)
                    == world::limit(start, path, r) by {
                    assert(r != region);
                    assert(world::limit(end, path, r) == world::limit(now, path, r));
                }
                lemma_boost_writes(from, path, first, start, end, faults, record, next + 1);
            } else {
                assert forall|i: int| next <= i < record.len() implies world::limit(
                    now,
                    path,
                    (#[trigger] record[i]).0,
                ) == Some(record[i].1.baseline) by {}
                lemma_roll_back(from, path, first, start, now, record, next, 0, true);
            }
        }
    } else {
        assert forall|region: Seq<char>|
            #[trigger] world::entry(now, path, region) matches Some(entry) implies world::limit(
            now,
            path,
            region,
        ) == Some(world::entry(now, path, region)->0.applied) by {
            assert(world::entry(now, path, region) == table::find(record, region));
            let i = table::lemma_find_index(record, region);
            assert(world::limit(now, path, record[i].0) == Some(record[i].1.applied));
        }
        assert forall|region: Seq<char>| #[trigger]
            world::limit(now, path, region) == raised(start, from.root, path, region) by {
            assert(raised(start, from.root, path, region) == match table::find(record, region) {
                Some(entry) => Some(entry.applied),
                None => world::limit(start, path, region),
            });
            if table::find(record, region) is Some {
                let i = table::lemma_find_index(record, region);
                assert(world::limit(now, path, record[i].0) == Some(record[i].1.applied));
            }
        }
        assert(boosted(start, now, from, recover::activated(from, path), path, faults));
    }
}

proof fn lemma_roll_back(
    from: PolicyModel,
    path: PathModel,
    first: World,
    start: World,
    now: World,
    record: RecordModel,
    written: nat,
    next: nat,
    clean: bool,
)
    requires
        restoration::keeps(first, false)(now),
        world::elsewhere_same(start, now, path),
        listed(now, path, record),
        next <= written <= record.len(),
        forall|i: int|
            written <= i < record.len() || 0 <= i < next && clean ==> world::limit(
                now,
                path,
                (#[trigger] record[i]).0,
            ) == Some(record[i].1.baseline),
    ensures
        world::always(
            activate::roll_back(from, path, record, written, next, clean),
            now,
            true,
            restoration::keeps(first, false),
            boost_outcome(start, from, path, true),
        ),
    decreases written - next,
{
    let program = activate::roll_back(from, path, record, written, next, clean);
    if next < written {
        let (region, entry) = record[next as int];
        let call = Call::WriteDmem(restore::low_file(path), region, entry.baseline);
        assert forall|answer: Answer| #[trigger]
            world::possible(now, call, answer, true) implies world::always(
            program::after_answer(program, answer),
            world::after(now, call, answer),
            true,
            restoration::keeps(first, false),
            boost_outcome(start, from, path, true),
        ) by {
            if request::succeeded(answer) {
                let end = lemma_listed(
                    first,
                    start,
                    now,
                    path,
                    record,
                    next as int,
                    entry.baseline,
                );
                assert forall|i: int|
                    written <= i < record.len() || 0 <= i < next + 1 && clean implies world::limit(
                    end,
                    path,
                    (#[trigger] record[i]).0,
                ) == Some(record[i].1.baseline) by {
                    if i != next {
                        restoration::lemma_distinct(record, i, next as int);
                        assert(world::limit(end, path, record[i].0) == world::limit(
                            now,
                            path,
                            record[i].0,
                        ));
                    }
                }
                lemma_roll_back(from, path, first, start, end, record, written, next + 1, clean);
            } else {
                lemma_roll_back(from, path, first, start, now, record, written, next + 1, false);
            }
        }
    } else if clean {
        assert forall|region: Seq<char>| #[trigger]
            world::limit(now, path, region) == world::original(now, path, region) by {
            assert(world::entry(now, path, region) == table::find(record, region));
            if table::find(record, region) is Some {
                let i = table::lemma_find_index(record, region);
                assert(world::limit(now, path, record[i].0) == Some(record[i].1.baseline));
            }
        }
        let call = Call::RemoveXattr(path, Xattr::State);
        assert forall|answer: Answer| #[trigger]
            world::possible(now, call, answer, true) implies world::always(
            program::after_answer(program, answer),
            world::after(now, call, answer),
            true,
            restoration::keeps(first, false),
            boost_outcome(start, from, path, true),
        ) by {
            if request::succeeded(answer) {
                let end = restoration::lemma_remove_record(now, path);
                lemma_on(first, start, now, end, path);
                assert(boosted(start, end, from, from, path, true));
            } else {
                assert(boosted(start, now, from, from, path, true));
            }
        }
    } else {
        assert(boosted(start, now, from, from, path, true));
    }
}

proof fn lemma_boost(
    from: PolicyModel,
    path: PathModel,
    first: World,
    now: World,
    faults: bool,
    capacity: ValuesModel,
    current: ValuesModel,
)
    requires
        restoration::keeps(first, false)(now),
        now.records.get(path) is None,
        table::ordered(capacity),
        cgroup::regions_ok(capacity),
        world::lists(now, activate::capacity_file(from.root), capacity),
        world::lists(now, restore::low_file(path), current),
    ensures
        world::always(
            activate::boost(from, path, recovery::boosts(capacity, current)),
            now,
            faults,
            restoration::keeps(first, false),
            boost_outcome(now, from, path, faults),
        ),
{
    let record = recovery::boosts(capacity, current);
    recovery::lemma_boosts(capacity, current);
    assert(world::elsewhere_same(now, now, path));
    assert forall|r: Seq<char>| #[trigger] table::find(record, r) matches Some(entry) implies {
        let entry = table::find(record, r)->0;
        &&& world::limit(now, path, r) == Some(entry.baseline)
        &&& entry.baseline != entry.applied
    } by {
        recovery::lemma_find_boost(capacity, current, r);
        assert(table::find(current, r) == now.values.get((restore::low_file(path), r)));
    }
    assert forall|r: Seq<char>| #[trigger]
        raised(now, from.root, path, r) == match table::find(record, r) {
            Some(entry) => Some(entry.applied),
            None => world::limit(now, path, r),
        } by {
        recovery::lemma_find_boost(capacity, current, r);
        assert(table::find(current, r) == now.values.get((restore::low_file(path), r)));
        assert(table::find(capacity, r) == now.values.get(
            (activate::capacity_file(from.root), r),
        ));
    }
    if record.len() == 0 {
        assert forall|region: Seq<char>| #[trigger]
            world::limit(now, path, region) == raised(now, from.root, path, region) by {
            assert(raised(now, from.root, path, region) == match table::find(record, region) {
                Some(entry) => Some(entry.applied),
                None => world::limit(now, path, region),
            });
        }
        assert(in_force(now, path));
        assert(boosted(now, now, from, recover::activated(from, path), path, faults));
    } else {
        assert forall|i: int| 0 <= i < record.len() implies cgroup::region_ok(
            #[trigger] record[i].0,
        ) by {
            let k = choose|k: int|
                0 <= k < capacity.len() && #[trigger] capacity[k].0 == record[i].0;
            assert(cgroup::region_ok(capacity[k].0));
        }
        assert forall|r: Seq<char>| #[trigger]
            world::unboosted(world::limit(now, path, r), table::find(record, r))
                == world::original(now, path, r) by {
            assert(world::entry(now, path, r) is None);
        }
        let program = activate::ask_persist(from, path, record);
        let call = Call::SetXattr(path, Xattr::State, recovery::record_bytes(record));
        assert forall|answer: Answer| #[trigger]
            world::possible(now, call, answer, faults) implies world::always(
            program::after_answer(program, answer),
            world::after(now, call, answer),
            faults,
            restoration::keeps(first, false),
            boost_outcome(now, from, path, faults),
        ) by {
            if request::succeeded(answer) {
                let end = restoration::lemma_set_record(now, path, record);
                lemma_on(first, now, now, end, path);
                assert forall|i: int| 0 <= i < record.len() implies world::limit(
                    end,
                    path,
                    (#[trigger] record[i]).0,
                ) == Some(record[i].1.baseline) by {
                    table::lemma_find_entry(record, i);
                    assert(world::limit(end, path, record[i].0) == world::limit(
                        now,
                        path,
                        record[i].0,
                    ));
                }
                assert(rising(now, end, path, record, 0));
                lemma_boost_writes(from, path, first, now, end, faults, record, 0);
            } else {
                assert(boosted(now, now, from, from, path, faults));
            }
        }
    }
}

proof fn lemma_boost_limits(
    from: PolicyModel,
    path: PathModel,
    first: World,
    now: World,
    faults: bool,
    capacity: ValuesModel,
)
    requires
        restoration::keeps(first, false)(now),
        now.records.get(path) is None,
        table::ordered(capacity),
        cgroup::regions_ok(capacity),
        world::lists(now, activate::capacity_file(from.root), capacity),
    ensures
        world::always(
            activate::ask_limits(from, path, capacity),
            now,
            faults,
            restoration::keeps(first, false),
            boost_outcome(now, from, path, faults),
        ),
{
    let program = activate::ask_limits(from, path, capacity);
    let call = Call::Read(restore::low_file(path));
    assert forall|answer: Answer| #[trigger]
        world::possible(now, call, answer, faults) implies world::always(
        program::after_answer(program, answer),
        world::after(now, call, answer),
        faults,
        restoration::keeps(first, false),
        boost_outcome(now, from, path, faults),
    ) by {
        assert(world::after(now, call, answer) == now);
        match restore::limits_in(answer) {
            Some(current) => {
                lemma_boost(from, path, first, now, faults, capacity, current);
            },
            None => {
                assert(world::elsewhere_same(now, now, path));
                assert(boosted(now, now, from, from, path, faults));
            },
        }
    }
}

proof fn lemma_capacity(
    from: PolicyModel,
    path: PathModel,
    first: World,
    now: World,
    faults: bool,
)
    requires
        restoration::keeps(first, false)(now),
        now.records.get(path) is None,
    ensures
        world::always(
            activate::ask_capacity(from, path),
            now,
            faults,
            restoration::keeps(first, false),
            boost_outcome(now, from, path, faults),
        ),
{
    let program = activate::ask_capacity(from, path);
    let call = Call::Read(activate::capacity_file(from.root));
    assert forall|answer: Answer| #[trigger]
        world::possible(now, call, answer, faults) implies world::always(
        program::after_answer(program, answer),
        world::after(now, call, answer),
        faults,
        restoration::keeps(first, false),
        boost_outcome(now, from, path, faults),
    ) by {
        assert(world::after(now, call, answer) == now);
        match restore::limits_in(answer) {
            Some(capacity) => {
                if let Answer::Text(Ok(content)) = answer {
                    cgroup::parsed_values_are_ordered(content);
                }
                lemma_boost_limits(from, path, first, now, faults, capacity);
            },
            None => {
                assert(world::elsewhere_same(now, now, path));
                assert(boosted(now, now, from, from, path, faults));
            },
        }
    }
}

/// Boosting, or taking up a boost, keeps the originals.
pub proof fn lemma_and_boost(
    from: PolicyModel,
    path: PathModel,
    first: World,
    now: World,
    faults: bool,
)
    requires
        restoration::keeps(first, false)(now),
    ensures
        world::always(
            activate::and_boost(recover::recover(from, path), path),
            now,
            faults,
            restoration::keeps(first, false),
            boost_outcome(now, from, path, faults),
        ),
{
    recovering_keeps_originals(from, path, first, now, faults);
    let next = |state: PolicyModel, recovered: bool|
        if recovered {
            program::Program::Done(state, true)
        } else {
            activate::ask_capacity(state, path)
        };
    assert forall|w: World, s: PolicyModel, r: bool|
        restoration::keeps(first, false)(w) && #[trigger] recovery_outcome(
            now,
            from,
            path,
            faults,
        )(w, s, r) implies world::always(
        next(s, r),
        w,
        faults,
        restoration::keeps(first, false),
        boost_outcome(now, from, path, faults),
    ) by {
        if r {
            assert(boosted(now, w, from, s, path, faults));
        } else {
            lemma_capacity(from, path, first, now, faults);
        }
    }
    world::lemma_always_bind(
        recover::recover(from, path),
        next,
        now,
        faults,
        restoration::keeps(first, false),
        recovery_outcome(now, from, path, faults),
        boost_outcome(now, from, path, faults),
    );
}

/// No restoration is outstanding that was not before, but for those of cgroups whose record
/// cannot be understood.
pub open spec fn nothing_new_outstanding(
    before: World,
    from: PolicyModel,
    to: PolicyModel,
) -> bool {
    forall|path: PathModel| #[trigger]
        to.pending_restore.contains(path) && world::readable(before, path)
            ==> from.pending_restore.contains(path)
}

/// Only boosts and restorations, done or outstanding, have changed.
pub open spec fn otherwise_same(from: PolicyModel, to: PolicyModel) -> bool {
    to == PolicyModel {
        pending_apply: to.pending_apply,
        pending_restore: to.pending_restore,
        foreground: to.foreground,
        ..from
    }
}

/// How a boost ends.
///
/// The boosted cgroup is left alone. Any other cgroup is boosted in the end, with the
/// limits that its record lists, or its boost is outstanding. Without faults it is
/// boosted, unless its restoration is outstanding or its record cannot be understood;
/// where it had no record, every limit is then raised to the region's capacity, and where it
/// had one, that is taken up. The cgroup that was boosted before is not any more: it has
/// its original limits back, or its restoration is outstanding. No other cgroup is touched.
pub open spec fn settled(
    before: World,
    now: World,
    from: PolicyModel,
    to: PolicyModel,
    path: PathModel,
    faults: bool,
) -> bool {
    if from.foreground == Some(path) {
        now == before && to == from
    } else {
        &&& if to.foreground == Some(path) {
            in_force(now, path) && !to.pending_apply.contains(path)
        } else {
            to.pending_apply.contains(path)
        }
        &&& !faults && !from.pending_restore.contains(path) && world::readable(before, path)
            ==> to.foreground == Some(path)
        &&& !faults && !from.pending_restore.contains(path) && before.records.get(path) is None
            ==> forall|region: Seq<char>| #[trigger]
            world::limit(now, path, region) == raised(before, from.root, path, region)
        &&& !faults && !from.pending_restore.contains(path) && before.records.get(path) is Some
            && world::readable(before, path) ==> forall|region: Seq<char>| #[trigger]
            taken_up(before, now, path, region)
        &&& from.foreground matches Some(previous) ==> !from.pending_restore.contains(path)
            ==> to.foreground != Some(previous) && (to.pending_restore.contains(previous)
            || now.records.get(previous) is None)
        &&& otherwise_same(from, to)
        &&& !faults ==> nothing_new_outstanding(before, from, to)
        &&& from.pending_restore.contains(path) ==> now == before && to == activate::applying(
            from,
            path,
        )
        &&& to.foreground is None || to.foreground == Some(path) || to.foreground
            == from.foreground
        &&& forall|other: PathModel|
            other != path && #[trigger] to.pending_apply.contains(other)
                ==> from.pending_apply.contains(other)
        &&& forall|other: PathModel|
            other != path && from.foreground != Some(other)
                && #[trigger] from.pending_apply.contains(other) ==> to.pending_apply.contains(
                other,
            )
        &&& forall|other: PathModel|
            other != path && from.foreground != Some(other)
                ==> #[trigger] to.pending_restore.contains(other) == from.pending_restore.contains(
                other,
            )
        &&& forall|other: PathModel|
            other != path && from.foreground != Some(other) ==> #[trigger] now.records.get(other)
                == before.records.get(other)
        &&& forall|other: PathModel, region: Seq<char>|
            other != path && from.foreground != Some(other) ==> #[trigger] world::limit(
                now,
                other,
                region,
            ) == world::limit(before, other, region)
    }
}

/// How a boost ends, as an outcome.
pub open spec fn settlement(
    before: World,
    from: PolicyModel,
    path: PathModel,
    faults: bool,
) -> spec_fn(World, PolicyModel, bool) -> bool {
    |now: World, to: PolicyModel, done: bool| done && settled(before, now, from, to, path, faults)
}

/// The file of capacities is no file of limits.
pub proof fn lemma_capacity_file(root: PathModel, path: PathModel)
    ensures
        activate::capacity_file(root) != restore::low_file(path),
{
    reveal_strlit("dmem.capacity");
    reveal_strlit("dmem.low");
    encode_utf8_decode_utf8("dmem.capacity"@);
    encode_utf8_decode_utf8("dmem.low"@);
    assert(activate::capacity_file(root).last() == encode_utf8("dmem.capacity"@));
    assert(restore::low_file(path).last() == encode_utf8("dmem.low"@));
    assert("dmem.capacity"@.len() != "dmem.low"@.len());
}

/// What is put into a set is in it, and what is taken out is not.
proof fn lemma_apply_sets(set: Seq<PathModel>, path: PathModel)
    ensures
        paths::with(set, path).contains(path),
        !paths::without(paths::with(set, path), path).contains(path),
        !paths::without(set, path).contains(path),
{
    paths::lemma_with(set, path);
    paths::lemma_without(paths::with(set, path), path);
    paths::lemma_without(set, path);
}

/// Putting a path into a set and taking it out again leaves the others alone.
proof fn lemma_others(set: Seq<PathModel>, path: PathModel)
    ensures
        forall|other: PathModel|
            other != path ==> #[trigger] paths::with(set, path).contains(other) == set.contains(
                other,
            ),
        forall|other: PathModel|
            other != path ==> #[trigger] paths::without(paths::with(set, path), path).contains(
                other,
            ) == set.contains(other),
{
    paths::lemma_with(set, path);
    paths::lemma_without(paths::with(set, path), path);
}

/// In every run of a boost, whatever fails, no original limit is lost at any moment:
/// the record is stored before the first limit is raised. How it ends says `settled`.
pub proof fn boosting_keeps_originals(
    from: PolicyModel,
    path: PathModel,
    first: World,
    now: World,
    faults: bool,
)
    requires
        restoration::keeps(first, false)(now),
    ensures
        world::always(
            activate::activate(from, path),
            now,
            faults,
            restoration::keeps(first, false),
            settlement(now, from, path, faults),
        ),
{
    let applying = activate::applying(from, path);
    let held = restoration::keeps(first, false);
    let outcome = settlement(now, from, path, faults);
    lemma_apply_sets(from.pending_apply, path);
    if from.foreground == Some(path) {
        assert(settled(now, now, from, from, path, faults));
    } else if from.pending_restore.contains(path) {
        lemma_others(from.pending_apply, path);
        assert(settled(now, now, from, applying, path, faults));
    } else {
        match from.foreground {
            None => {
                lemma_and_boost(applying, path, first, now, faults);
                assert forall|w: World, s: PolicyModel, r: bool|
                    held(w) && #[trigger] boost_outcome(now, applying, path, faults)(
                        w,
                        s,
                        r,
                    ) implies outcome(w, s, r) by {
                    lemma_settled(now, w, from, s, path, faults);
                }
                world::lemma_always_weaken(
                    activate::activate(from, path),
                    now,
                    faults,
                    held,
                    boost_outcome(now, applying, path, faults),
                    held,
                    outcome,
                );
            },
            Some(previous) => {
                restoration::restoring_keeps_originals(
                    applying,
                    previous,
                    first,
                    false,
                    now,
                    faults,
                );
                let next = |state: PolicyModel, done: bool|
                    activate::and_boost(recover::recover(state, path), path);
                let between = restoration::restoration(now, applying, previous, faults);
                assert forall|w: World, s: PolicyModel, r: bool|
                    held(w) && #[trigger] between(w, s, r) implies world::always(
                    next(s, r),
                    w,
                    faults,
                    held,
                    outcome,
                ) by {
                    lemma_and_boost(s, path, first, w, faults);
                    assert forall|w2: World, s2: PolicyModel, r2: bool|
                        held(w2) && #[trigger] boost_outcome(w, s, path, faults)(
                            w2,
                            s2,
                            r2,
                        ) implies outcome(w2, s2, r2) by {
                        lemma_settled_after(now, w, w2, from, s, s2, path, previous, faults);
                    }
                    world::lemma_always_weaken(
                        next(s, r),
                        w,
                        faults,
                        held,
                        boost_outcome(w, s, path, faults),
                        held,
                        outcome,
                    );
                }
                world::lemma_always_bind(
                    restore::restore(applying, previous),
                    next,
                    now,
                    faults,
                    held,
                    between,
                    outcome,
                );
            },
        }
    }
}

proof fn lemma_settled(
    before: World,
    now: World,
    from: PolicyModel,
    to: PolicyModel,
    path: PathModel,
    faults: bool,
)
    requires
        from.foreground is None,
        !from.pending_restore.contains(path),
        boosted(before, now, activate::applying(from, path), to, path, faults),
    ensures
        settled(before, now, from, to, path, faults),
{
    lemma_apply_sets(from.pending_apply, path);
    lemma_others(from.pending_apply, path);
    assert forall|other: PathModel, region: Seq<char>| other != path implies #[trigger] world::limit(
        now,
        other,
        region,
    ) == world::limit(before, other, region) by {
        if restore::low_file(other) == restore::low_file(path) {
            restoration::lemma_low_file(other, path);
        }
    }
}

proof fn lemma_settled_after(
    before: World,
    between: World,
    now: World,
    from: PolicyModel,
    mid: PolicyModel,
    to: PolicyModel,
    path: PathModel,
    previous: PathModel,
    faults: bool,
)
    requires
        from.foreground == Some(previous),
        previous != path,
        !from.pending_restore.contains(path),
        restoration::restored(
            before,
            between,
            activate::applying(from, path),
            mid,
            previous,
            faults,
        ),
        boosted(between, now, mid, to, path, faults),
    ensures
        settled(before, now, from, to, path, faults),
{
    let applying = activate::applying(from, path);
    let releasing = restore::releasing(applying, previous);
    lemma_apply_sets(from.pending_apply, path);
    paths::lemma_without(applying.pending_apply, previous);
    lemma_apply_sets(releasing.pending_apply, path);
    paths::lemma_with(from.pending_restore, previous);
    paths::lemma_without(releasing.pending_restore, previous);
    lemma_others(from.pending_apply, path);
    paths::lemma_without(releasing.pending_apply, path);
    assert(mid.pending_apply == releasing.pending_apply);
    assert(mid.root == from.root);
    assert(mid.foreground is None);
    if !faults {
        assert forall|other: PathModel| #[trigger]
            to.pending_restore.contains(other) && world::readable(
                before,
                other,
            ) implies from.pending_restore.contains(other) by {
            assert(to.pending_restore == mid.pending_restore);
        }
    }
    assert forall|other: PathModel|
        other != path && other != previous && #[trigger] from.pending_apply.contains(
            other,
        ) implies to.pending_apply.contains(other) by {
        assert(applying.pending_apply.contains(other));
        assert(releasing.pending_apply.contains(other));
    }
    assert forall|other: PathModel, region: Seq<char>|
        other != path && other != previous implies #[trigger] world::limit(now, other, region)
        == world::limit(before, other, region) by {
        if restore::low_file(other) == restore::low_file(path) {
            restoration::lemma_low_file(other, path);
        }
        if restore::low_file(other) == restore::low_file(previous) {
            restoration::lemma_low_file(other, previous);
        }
        assert(now.values.get((restore::low_file(other), region)) == between.values.get(
            (restore::low_file(other), region),
        ));
    }
    assert forall|other: PathModel| other != path && other != previous implies #[trigger] now.records.get(
        other,
    ) == before.records.get(other) by {
        assert(now.records.get(other) == between.records.get(other));
    }
    assert(now.records.get(previous) == between.records.get(previous));
    assert(between.records.get(path) == before.records.get(path));
    lemma_capacity_file(from.root, previous);
    if restore::low_file(path) == restore::low_file(previous) {
        restoration::lemma_low_file(path, previous);
    }
    assert forall|region: Seq<char>| #[trigger]
        raised(between, mid.root, path, region) == raised(before, from.root, path, region) by {
        assert(between.values.get((restore::low_file(path), region)) == before.values.get(
            (restore::low_file(path), region),
        ));
        assert(between.values.get((activate::capacity_file(from.root), region))
            == before.values.get((activate::capacity_file(from.root), region)));
    }
    if !faults && before.records.get(path) is Some && world::readable(before, path) {
        assert forall|region: Seq<char>| #[trigger] taken_up(before, now, path, region) by {
            assert(taken_up(between, now, path, region));
            assert(between.values.get((restore::low_file(path), region)) == before.values.get(
                (restore::low_file(path), region),
            ));
        }
    }
}

/// A boost without faults of a cgroup that has no record: a region that has a limit and a
/// capacity gets one of the two, and neither is above what it gets. The limits of other
/// regions are as they were. Where the limit has changed, the record says what it was and
/// what it is now.
pub proof fn a_boost_raises_limits_to_capacities(from: PolicyModel, path: PathModel, now: World)
    requires
        from.foreground != Some(path),
        !from.pending_restore.contains(path),
        now.records.get(path) is None,
    ensures
        world::always(
            activate::activate(from, path),
            now,
            false,
            restoration::keeps(now, false),
            |end: World, to: PolicyModel, done: bool|
                to.foreground == Some(path) && forall|region: Seq<char>| #[trigger]
                    raised_to_capacity(now, end, from.root, path, region),
        ),
{
    let held = restoration::keeps(now, false);
    let outcome = |end: World, to: PolicyModel, done: bool|
        to.foreground == Some(path) && forall|region: Seq<char>| #[trigger]
            raised_to_capacity(now, end, from.root, path, region);
    boosting_keeps_originals(from, path, now, now, false);
    assert forall|end: World, to: PolicyModel, done: bool|
        held(end) && #[trigger] settlement(now, from, path, false)(end, to, done) implies outcome(
        end,
        to,
        done,
    ) by {
        assert forall|region: Seq<char>| #[trigger]
            raised_to_capacity(now, end, from.root, path, region) by {
            assert(world::limit(end, path, region) == raised(now, from.root, path, region));
            assert(world::original(end, path, region) == world::original(now, path, region));
            if let (Some(before), Some(capacity)) = (
                world::limit(now, path, region),
                now.values.get((activate::capacity_file(from.root), region)),
            ) {
                cgroup::the_larger_limit_is_above_both(before, capacity);
            }
        }
    }
    world::lemma_always_weaken(
        activate::activate(from, path),
        now,
        false,
        held,
        settlement(now, from, path, false),
        held,
        outcome,
    );
}

/// What a boost does to a region.
pub open spec fn raised_to_capacity(
    before: World,
    now: World,
    root: PathModel,
    path: PathModel,
    region: Seq<char>,
) -> bool {
    let capacity = before.values.get((root.push(encode_utf8("dmem.capacity"@)), region));
    let limit = world::limit(before, path, region);
    let after = world::limit(now, path, region);
    &&& match (limit, capacity) {
        (Some(limit), Some(capacity)) => {
            &&& after == Some(limit) || after == Some(capacity)
            &&& after matches Some(after) && cgroup::at_most(limit, after) && cgroup::at_most(
                capacity,
                after,
            )
        },
        _ => after == limit,
    }
    &&& after != limit ==> {
        &&& world::entry(now, path, region) matches Some(entry)
        &&& limit == Some(entry.baseline)
        &&& after == Some(entry.applied)
    }
}

/// A boost without faults of a cgroup that has a record takes it up.
pub proof fn a_boost_takes_up_a_record(from: PolicyModel, path: PathModel, now: World)
    requires
        from.foreground != Some(path),
        !from.pending_restore.contains(path),
        now.records.get(path) is Some,
        world::readable(now, path),
    ensures
        world::always(
            activate::activate(from, path),
            now,
            false,
            restoration::keeps(now, false),
            |end: World, to: PolicyModel, done: bool|
                to.foreground == Some(path) && forall|region: Seq<char>| #[trigger]
                    taken_up(now, end, path, region),
        ),
{
    let held = restoration::keeps(now, false);
    let outcome = |end: World, to: PolicyModel, done: bool|
        to.foreground == Some(path) && forall|region: Seq<char>| #[trigger]
            taken_up(now, end, path, region);
    boosting_keeps_originals(from, path, now, now, false);
    assert forall|end: World, to: PolicyModel, done: bool|
        held(end) && #[trigger] settlement(now, from, path, false)(end, to, done) implies outcome(
        end,
        to,
        done,
    ) by {}
    world::lemma_always_weaken(
        activate::activate(from, path),
        now,
        false,
        held,
        settlement(now, from, path, false),
        held,
        outcome,
    );
}

}
