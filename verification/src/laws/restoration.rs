//! Restoring: no original limit is lost, and limits of others are left alone.

use crate::cgroup;
use crate::cgroup::{DmemValue, ValuesModel};
use crate::path::PathModel;
use crate::recovery;
use crate::recovery::{RecordModel, Standing, StateEntry};
use crate::request;
use crate::request::{Answer, Call, IoFailure, Xattr};
use crate::restore;
use crate::state::PolicyModel;
use crate::table;
use crate::world;
use crate::world::World;
use vstd::prelude::*;

verus! {

/// No original limit has been lost. Where it is `calm`, no limit has been raised
/// either.
pub open spec fn keeps(first: World, calm: bool) -> spec_fn(World) -> bool {
    |now: World| world::faithful(first, now) && (calm ==> world::unraised(first, now))
}

/// How a restoration ends.
///
/// Only this cgroup has changed, and its limits are as they were or the original
/// ones. Either its restoration is outstanding, which needs a fault or a record that
/// cannot be understood, or there is no record any more.
pub open spec fn restored(
    before: World,
    now: World,
    from: PolicyModel,
    to: PolicyModel,
    path: PathModel,
    faults: bool,
) -> bool {
    &&& world::elsewhere_same(before, now, path)
    &&& world::unraised(before, now)
    &&& {
        ||| to == restore::releasing(from, path) && (faults || !world::readable(before, path))
        ||| to == restore::released(restore::releasing(from, path), path) && now.records.get(path)
            is None
    }
}

/// How a restoration ends, as an outcome.
pub open spec fn restoration(
    before: World,
    from: PolicyModel,
    path: PathModel,
    faults: bool,
) -> spec_fn(World, PolicyModel, bool) -> bool {
    |now: World, to: PolicyModel, done: bool| done && restored(before, now, from, to, path, faults)
}

/// Going on from a world where the originals are kept to one where they still are.
pub proof fn lemma_keeps(first: World, before: World, now: World, calm: bool)
    requires
        keeps(first, calm)(before),
        world::faithful(before, now),
        calm ==> world::unraised(before, now),
    ensures
        keeps(first, calm)(now),
{
    assert forall|path: PathModel, region: Seq<char>| #[trigger]
        world::original(now, path, region) == world::original(first, path, region) by {
        assert(world::original(before, path, region) == world::original(first, path, region));
    }
    assert forall|path: PathModel| world::readable(first, path) implies #[trigger] world::readable(
        now,
        path,
    ) by {
        assert(world::readable(before, path));
    }
    if calm {
        assert forall|path: PathModel, region: Seq<char>| #[trigger]
            world::limit(now, path, region) == world::limit(first, path, region) || world::limit(
                now,
                path,
                region,
            ) == world::original(first, path, region) by {
            assert(world::limit(before, path, region) == world::limit(first, path, region)
                || world::limit(before, path, region) == world::original(first, path, region));
            assert(world::original(before, path, region) == world::original(first, path, region));
        }
    }
}

/// Different cgroups have different files.
pub proof fn lemma_low_file(a: PathModel, b: PathModel)
    requires
        restore::low_file(a) == restore::low_file(b),
    ensures
        a == b,
{
    assert(restore::low_file(a).drop_last() =~= a);
    assert(restore::low_file(b).drop_last() =~= b);
}

/// Where a limit is at its baseline or its applied value, giving it one of these loses
/// nothing. The baseline does not raise it.
pub proof fn lemma_write(
    before: World,
    path: PathModel,
    region: Seq<char>,
    value: DmemValue,
    entry: StateEntry,
) -> (now: World)
    requires
        world::entry(before, path, region) == Some(entry),
        world::limit(before, path, region) == Some(entry.baseline) || world::limit(
            before,
            path,
            region,
        ) == Some(entry.applied),
        value == entry.baseline || value == entry.applied,
    ensures
        now == (World {
            values: before.values.insert((restore::low_file(path), region), value),
            ..before
        }),
        world::faithful(before, now),
        value == entry.baseline ==> world::unraised(before, now),
        world::elsewhere_same(before, now, path),
        world::limit(now, path, region) == Some(value),
        forall|other: Seq<char>|
            other != region ==> #[trigger] world::limit(now, path, other) == world::limit(
                before,
                path,
                other,
            ),
        forall|other: Seq<char>| #[trigger]
            world::entry(now, path, other) == world::entry(before, path, other),
{
    let now = World {
        values: before.values.insert((restore::low_file(path), region), value),
        ..before
    };
    assert forall|p: PathModel, r: Seq<char>| #[trigger]
        world::limit(now, p, r) == if p == path && r == region {
            Some(value)
        } else {
            world::limit(before, p, r)
        } by {
        if p != path && restore::low_file(p) == restore::low_file(path) {
            lemma_low_file(p, path);
        }
    }
    assert forall|p: PathModel, r: Seq<char>| #[trigger]
        world::original(now, p, r) == world::original(before, p, r) by {
        assert(world::entry(now, p, r) == world::entry(before, p, r));
        assert(world::limit(now, p, r) == if p == path && r == region {
            Some(value)
        } else {
            world::limit(before, p, r)
        });
    }
    now
}

/// Storing a record that tells the same originals loses nothing.
pub proof fn lemma_set_record(before: World, path: PathModel, record: RecordModel) -> (now: World)
    requires
        table::ordered(record),
        cgroup::regions_ok(record),
        record.len() > 0,
        forall|region: Seq<char>| #[trigger]
            world::unboosted(world::limit(before, path, region), table::find(record, region))
                == world::original(before, path, region),
    ensures
        now == (World {
            records: before.records.insert(path, recovery::record_bytes(record)),
            ..before
        }),
        world::faithful(before, now),
        world::unraised(before, now),
        world::elsewhere_same(before, now, path),
        recovery::record_of(recovery::record_bytes(record)) == Ok::<RecordModel, &'static str>(
            record,
        ),
        forall|region: Seq<char>| #[trigger]
            world::entry(now, path, region) == table::find(record, region),
        forall|p: PathModel, region: Seq<char>| #[trigger]
            world::limit(now, p, region) == world::limit(before, p, region),
{
    recovery::record_reads_back(record);
    let now = World {
        records: before.records.insert(path, recovery::record_bytes(record)),
        ..before
    };
    assert forall|p: PathModel, r: Seq<char>| #[trigger]
        world::original(now, p, r) == world::original(before, p, r) by {
        if p == path {
            assert(world::entry(now, path, r) == table::find(record, r));
            assert(world::unboosted(world::limit(before, path, r), table::find(record, r))
                == world::original(before, path, r));
        } else {
            assert(world::entry(now, p, r) == world::entry(before, p, r));
        }
    }
    now
}

/// Removing a record that tells nothing loses nothing.
pub proof fn lemma_remove_record(before: World, path: PathModel) -> (now: World)
    requires
        forall|region: Seq<char>| #[trigger]
            world::limit(before, path, region) == world::original(before, path, region),
    ensures
        now == (World { records: before.records.remove(path), ..before }),
        world::faithful(before, now),
        world::unraised(before, now),
        world::elsewhere_same(before, now, path),
        now.records.get(path) is None,
{
    let now = World { records: before.records.remove(path), ..before };
    assert forall|p: PathModel, r: Seq<char>| #[trigger]
        world::original(now, p, r) == world::original(before, p, r) by {
        assert(world::limit(now, p, r) == world::limit(before, p, r));
        if p == path {
            assert(world::entry(now, path, r) is None);
        } else {
            assert(world::entry(now, p, r) == world::entry(before, p, r));
        }
    }
    assert forall|p: PathModel, r: Seq<char>| #[trigger]
        world::limit(now, p, r) == world::limit(before, p, r) by {}
    now
}


/// Where a restoration is: what holds since the service looked first, and since the
/// restoration began.
spec fn so_far(first: World, calm: bool, start: World, now: World, path: PathModel) -> bool {
    &&& keeps(first, calm)(now)
    &&& keeps(start, true)(now)
    &&& world::elsewhere_same(start, now, path)
}

proof fn lemma_so_far(
    first: World,
    calm: bool,
    start: World,
    before: World,
    now: World,
    path: PathModel,
)
    requires
        so_far(first, calm, start, before, path),
        world::faithful(before, now),
        world::unraised(before, now),
        world::elsewhere_same(before, now, path),
    ensures
        so_far(first, calm, start, now, path),
{
    lemma_keeps(first, before, now, calm);
    lemma_keeps(start, before, now, true);
    assert forall|other: PathModel| other != path implies #[trigger] now.records.get(other)
        == start.records.get(other) by {
        assert(now.records.get(other) == before.records.get(other));
        assert(before.records.get(other) == start.records.get(other));
    }
    assert forall|file: PathModel, region: Seq<char>|
        file != restore::low_file(path) implies #[trigger] now.values.get((file, region))
        == start.values.get((file, region)) by {
        assert(now.values.get((file, region)) == before.values.get((file, region)));
        assert(before.values.get((file, region)) == start.values.get((file, region)));
    }
}

proof fn lemma_clear(
    from: PolicyModel,
    path: PathModel,
    first: World,
    calm: bool,
    start: World,
    now: World,
    faults: bool,
)
    requires
        so_far(first, calm, start, now, path),
        forall|region: Seq<char>| #[trigger]
            world::limit(now, path, region) == world::original(now, path, region),
    ensures
        world::always(
            restore::ask_clear(restore::releasing(from, path), path),
            now,
            faults,
            keeps(first, calm),
            restoration(start, from, path, faults),
        ),
{
    let state = restore::releasing(from, path);
    let program = restore::ask_clear(state, path);
    let call = Call::RemoveXattr(path, Xattr::State);
    assert forall|answer: Answer| #[trigger]
        world::possible(now, call, answer, faults) implies world::always(
        crate::program::after_answer(program, answer),
        world::after(now, call, answer),
        faults,
        keeps(first, calm),
        restoration(start, from, path, faults),
    ) by {
        if request::succeeded(answer) {
            let end = lemma_remove_record(now, path);
            lemma_so_far(first, calm, start, now, end, path);
            assert(restored(
                start,
                end,
                from,
                restore::released(state, path),
                path,
                faults,
            ));
        } else {
            assert(restored(start, now, from, state, path, faults));
        }
    }
}

/// Where the writing of baselines is: the record lists the regions; those before the
/// next one have their baselines but for the failed ones; the others have their
/// applied limits.
pub open spec fn midway(
    now: World,
    path: PathModel,
    boosted: RecordModel,
    next: nat,
    failed: RecordModel,
) -> bool {
    &&& table::ordered(boosted)
    &&& cgroup::regions_ok(boosted)
    &&& next <= boosted.len()
    &&& table::ordered(failed)
    &&& forall|region: Seq<char>| #[trigger]
        world::entry(now, path, region) == table::find(boosted, region)
    &&& forall|region: Seq<char>|
        #[trigger] table::find(failed, region) is Some ==> table::find(failed, region)
            == table::find(boosted, region)
    &&& forall|i: int|
        0 <= i < boosted.len() ==> world::limit(now, path, (#[trigger] boosted[i]).0) == Some(
            if i < next && table::find(failed, boosted[i].0) is None {
                boosted[i].1.baseline
            } else {
                boosted[i].1.applied
            },
        )
    &&& forall|i: int|
        next <= i < boosted.len() ==> table::find(failed, (#[trigger] boosted[i]).0) is None
}

/// The regions of an ordered table differ.
pub proof fn lemma_distinct<V>(entries: Seq<(Seq<char>, V)>, i: int, j: int)
    requires
        table::ordered(entries),
        0 <= i < entries.len(),
        0 <= j < entries.len(),
        i != j,
    ensures
        entries[i].0 != entries[j].0,
{
    table::lemma_before_irreflexive(entries[i].0);
    if i < j {
        assert(table::before(entries[i].0, entries[j].0));
    } else {
        assert(table::before(entries[j].0, entries[i].0));
    }
}

/// At each region, a limit that is known is the original or becomes it.
pub proof fn lemma_midway_originals(
    now: World,
    path: PathModel,
    boosted: RecordModel,
    next: nat,
    failed: RecordModel,
    region: Seq<char>,
)
    requires
        midway(now, path, boosted, next, failed),
    ensures
        world::unboosted(world::limit(now, path, region), table::find(failed, region))
            == world::original(now, path, region) || next < boosted.len(),
        table::find(failed, region) is None ==> world::limit(now, path, region)
            == world::original(now, path, region) || next < boosted.len(),
{
    assert(world::entry(now, path, region) == table::find(boosted, region));
    if table::find(boosted, region) is Some {
        let i = table::lemma_find_index(boosted, region);
        assert(world::limit(now, path, boosted[i].0) == Some(
            if i < next && table::find(failed, boosted[i].0) is None {
                boosted[i].1.baseline
            } else {
                boosted[i].1.applied
            },
        ));
    }
}

pub proof fn lemma_midway_step(
    before: World,
    now: World,
    path: PathModel,
    boosted: RecordModel,
    next: nat,
    failed: RecordModel,
)
    requires
        midway(before, path, boosted, next, failed),
        next < boosted.len(),
        world::limit(now, path, boosted[next as int].0) == Some(boosted[next as int].1.baseline),
        forall|other: Seq<char>|
            other != boosted[next as int].0 ==> #[trigger] world::limit(now, path, other)
                == world::limit(before, path, other),
        forall|other: Seq<char>| #[trigger]
            world::entry(now, path, other) == world::entry(before, path, other),
    ensures
        midway(now, path, boosted, next + 1, failed),
{
    assert forall|region: Seq<char>| #[trigger]
        world::entry(now, path, region) == table::find(boosted, region) by {
        assert(world::entry(before, path, region) == table::find(boosted, region));
    }
    assert forall|i: int| 0 <= i < boosted.len() implies world::limit(
        now,
        path,
        (#[trigger] boosted[i]).0,
    ) == Some(
        if i < next + 1 && table::find(failed, boosted[i].0) is None {
            boosted[i].1.baseline
        } else {
            boosted[i].1.applied
        },
    ) by {
        if i != next {
            lemma_distinct(boosted, i, next as int);
            assert(world::limit(before, path, boosted[i].0) == Some(
                if i < next && table::find(failed, boosted[i].0) is None {
                    boosted[i].1.baseline
                } else {
                    boosted[i].1.applied
                },
            ));
        }
    }
}

pub proof fn lemma_midway_failed(
    now: World,
    path: PathModel,
    boosted: RecordModel,
    next: nat,
    failed: RecordModel,
)
    requires
        midway(now, path, boosted, next, failed),
        next < boosted.len(),
    ensures
        midway(
            now,
            path,
            boosted,
            next + 1,
            table::put(failed, boosted[next as int].0, boosted[next as int].1),
        ),
{
    let (region, entry) = boosted[next as int];
    let more = table::put(failed, region, entry);
    table::lemma_put(failed, region, entry);
    table::lemma_find_entry(boosted, next as int);
    assert forall|r: Seq<char>| #[trigger] table::find(more, r) is Some implies table::find(more, r)
        == table::find(boosted, r) by {
        if r != region {
            assert(table::find(more, r) == table::find(failed, r));
        }
    }
    assert forall|i: int| 0 <= i < boosted.len() implies world::limit(
        now,
        path,
        (#[trigger] boosted[i]).0,
    ) == Some(
        if i < next + 1 && table::find(more, boosted[i].0) is None {
            boosted[i].1.baseline
        } else {
            boosted[i].1.applied
        },
    ) by {
        assert(world::limit(now, path, boosted[i].0) == Some(
            if i < next && table::find(failed, boosted[i].0) is None {
                boosted[i].1.baseline
            } else {
                boosted[i].1.applied
            },
        ));
        if i != next {
            lemma_distinct(boosted, i, next as int);
            assert(table::find(more, boosted[i].0) == table::find(failed, boosted[i].0));
        }
    }
    assert forall|i: int| next + 1 <= i < boosted.len() implies table::find(
        more,
        (#[trigger] boosted[i]).0,
    ) is None by {
        lemma_distinct(boosted, i, next as int);
        assert(table::find(more, boosted[i].0) == table::find(failed, boosted[i].0));
    }
}

proof fn lemma_writes(
    from: PolicyModel,
    path: PathModel,
    first: World,
    calm: bool,
    start: World,
    now: World,
    faults: bool,
    boosted: RecordModel,
    next: nat,
    failed: RecordModel,
)
    requires
        so_far(first, calm, start, now, path),
        midway(now, path, boosted, next, failed),
        !faults ==> failed.len() == 0,
    ensures
        world::always(
            restore::restore_writes(restore::releasing(from, path), path, boosted, next, failed),
            now,
            faults,
            keeps(first, calm),
            restoration(start, from, path, faults),
        ),
    decreases boosted.len() - next,
{
    let state = restore::releasing(from, path);
    let program = restore::restore_writes(state, path, boosted, next, failed);
    if next < boosted.len() {
        let (region, entry) = boosted[next as int];
        let call = Call::WriteDmem(restore::low_file(path), region, entry.baseline);
        assert forall|answer: Answer| #[trigger]
            world::possible(now, call, answer, faults) implies world::always(
            crate::program::after_answer(program, answer),
            world::after(now, call, answer),
            faults,
            keeps(first, calm),
            restoration(start, from, path, faults),
        ) by {
            if request::succeeded(answer) {
                table::lemma_find_entry(boosted, next as int);
                let end = lemma_write(now, path, region, entry.baseline, entry);
                lemma_so_far(first, calm, start, now, end, path);
                lemma_midway_step(now, end, path, boosted, next, failed);
                lemma_writes(from, path, first, calm, start, end, faults, boosted, next + 1, failed);
            } else {
                let more = table::put(failed, region, entry);
                lemma_midway_failed(now, path, boosted, next, failed);
                lemma_writes(from, path, first, calm, start, now, faults, boosted, next + 1, more);
            }
        }
    } else if failed.len() == 0 {
        assert forall|r: Seq<char>| #[trigger]
            world::limit(now, path, r) == world::original(now, path, r) by {
            lemma_midway_originals(now, path, boosted, next, failed, r);
        }
        lemma_clear(from, path, first, calm, start, now, faults);
    } else if failed == boosted {
        assert(restored(start, now, from, state, path, faults));
    } else {
        lemma_keep(from, path, first, calm, start, now, faults, boosted, failed);
    }
}

proof fn lemma_keep(
    from: PolicyModel,
    path: PathModel,
    first: World,
    calm: bool,
    start: World,
    now: World,
    faults: bool,
    boosted: RecordModel,
    failed: RecordModel,
)
    requires
        so_far(first, calm, start, now, path),
        midway(now, path, boosted, boosted.len(), failed),
        failed.len() > 0,
        faults,
    ensures
        world::always(
            restore::ask_keep(restore::releasing(from, path), path, failed),
            now,
            faults,
            keeps(first, calm),
            restoration(start, from, path, faults),
        ),
{
    let state = restore::releasing(from, path);
    let program = restore::ask_keep(state, path, failed);
    let call = Call::SetXattr(path, Xattr::State, recovery::record_bytes(failed));
    assert forall|i: int| 0 <= i < failed.len() implies cgroup::region_ok(
        #[trigger] failed[i].0,
    ) by {
        table::lemma_find_entry(failed, i);
        let k = table::lemma_find_index(boosted, failed[i].0);
        assert(cgroup::region_ok(boosted[k].0));
    }
    assert forall|r: Seq<char>| #[trigger]
        world::unboosted(world::limit(now, path, r), table::find(failed, r)) == world::original(
            now,
            path,
            r,
        ) by {
        lemma_midway_originals(now, path, boosted, boosted.len(), failed, r);
    }
    assert forall|answer: Answer| #[trigger]
        world::possible(now, call, answer, faults) implies world::always(
        crate::program::after_answer(program, answer),
        world::after(now, call, answer),
        faults,
        keeps(first, calm),
        restoration(start, from, path, faults),
    ) by {
        if request::succeeded(answer) {
            let end = lemma_set_record(now, path, failed);
            lemma_so_far(first, calm, start, now, end, path);
            assert(restored(start, end, from, state, path, faults));
        } else {
            assert(restored(start, now, from, state, path, faults));
        }
    }
}

/// The selection of a record is a valid record, if it is not empty.
pub proof fn lemma_selection(record: RecordModel, current: ValuesModel, standing: Standing)
    requires
        table::ordered(record),
        cgroup::regions_ok(record),
    ensures
        table::ordered(recovery::select(record, current, standing)),
        cgroup::regions_ok(recovery::select(record, current, standing)),
{
    recovery::lemma_select(record, current, standing);
    let chosen = recovery::select(record, current, standing);
    assert forall|i: int| 0 <= i < chosen.len() implies cgroup::region_ok(
        #[trigger] chosen[i].0,
    ) by {
        assert(recovery::is_entry(record, current, standing, chosen[i]));
        let k = choose|k: int| 0 <= k < record.len() && record[k] == chosen[i];
        assert(cgroup::region_ok(record[k].0));
    }
}

proof fn lemma_boosted(
    from: PolicyModel,
    path: PathModel,
    first: World,
    calm: bool,
    now: World,
    faults: bool,
    bytes: Seq<u8>,
    record: RecordModel,
    current: ValuesModel,
)
    requires
        keeps(first, calm)(now),
        now.records.get(path) == Some(bytes),
        recovery::record_of(bytes) == Ok::<RecordModel, &'static str>(record),
        world::lists(now, restore::low_file(path), current),
    ensures
        world::always(
            restore::restore_boosted(
                restore::releasing(from, path),
                path,
                bytes,
                recovery::select(record, current, Standing::Applied),
            ),
            now,
            faults,
            keeps(first, calm),
            restoration(now, from, path, faults),
        ),
{
    let state = restore::releasing(from, path);
    let boosted = recovery::select(record, current, Standing::Applied);
    recovery::parsed_record_is_ordered(bytes);
    lemma_selection(record, current, Standing::Applied);
    assert(so_far(first, calm, now, now, path));
    assert forall|r: Seq<char>| #[trigger]
        world::unboosted(world::limit(now, path, r), table::find(boosted, r)) == world::original(
            now,
            path,
            r,
        ) by {
        recovery::lemma_find_selected(record, current, Standing::Applied, r);
        assert(table::find(current, r) == now.values.get((restore::low_file(path), r)));
    }
    if boosted.len() == 0 {
        assert forall|r: Seq<char>| #[trigger]
            world::limit(now, path, r) == world::original(now, path, r) by {
            assert(world::unboosted(world::limit(now, path, r), table::find(boosted, r))
                == world::original(now, path, r));
        }
        lemma_clear(from, path, first, calm, now, now, faults);
    } else {
        recovery::record_reads_back(boosted);
        assert forall|i: int| 0 <= i < boosted.len() implies world::limit(
            now,
            path,
            (#[trigger] boosted[i]).0,
        ) == Some(boosted[i].1.applied) by {
            table::lemma_find_entry(boosted, i);
            recovery::lemma_find_selected(record, current, Standing::Applied, boosted[i].0);
            assert(table::find(current, boosted[i].0) == now.values.get(
                (restore::low_file(path), boosted[i].0),
            ));
        }
        if bytes == recovery::record_bytes(boosted) {
            assert(midway(now, path, boosted, 0, Seq::empty()));
            lemma_writes(from, path, first, calm, now, now, faults, boosted, 0, Seq::empty());
        } else {
            let program = restore::ask_narrow(state, path, boosted);
            let call = Call::SetXattr(path, Xattr::State, recovery::record_bytes(boosted));
            assert forall|answer: Answer| #[trigger]
                world::possible(now, call, answer, faults) implies world::always(
                crate::program::after_answer(program, answer),
                world::after(now, call, answer),
                faults,
                keeps(first, calm),
                restoration(now, from, path, faults),
            ) by {
                if request::succeeded(answer) {
                    let end = lemma_set_record(now, path, boosted);
                    lemma_so_far(first, calm, now, now, end, path);
                    assert forall|i: int| 0 <= i < boosted.len() implies world::limit(
                        end,
                        path,
                        (#[trigger] boosted[i]).0,
                    ) == Some(boosted[i].1.applied) by {
                        assert(world::limit(end, path, boosted[i].0) == world::limit(
                            now,
                            path,
                            boosted[i].0,
                        ));
                    }
                    assert(midway(end, path, boosted, 0, Seq::empty()));
                    lemma_writes(
                        from,
                        path,
                        first,
                        calm,
                        now,
                        end,
                        faults,
                        boosted,
                        0,
                        Seq::empty(),
                    );
                } else {
                    assert(restored(now, now, from, state, path, faults));
                }
            }
        }
    }
}

/// In every run of a restoration, whatever fails, no original limit is lost and no
/// limit is raised, at any moment. Limits that differ from what the record says was
/// applied are left alone, and so are all other cgroups. Where the restoration is not
/// outstanding afterwards there is no record any more, so that every limit is the
/// original one. It is outstanding only where something failed or the record could
/// not be understood.
pub proof fn restoring_keeps_originals(
    state: PolicyModel,
    path: PathModel,
    first: World,
    calm: bool,
    now: World,
    faults: bool,
)
    requires
        keeps(first, calm)(now),
    ensures
        world::always(
            restore::restore(state, path),
            now,
            faults,
            keeps(first, calm),
            restoration(now, state, path, faults),
        ),
{
    let from = restore::releasing(state, path);
    let program = restore::restore(state, path);
    let call = Call::GetXattr(path, Xattr::State);
    assert forall|answer: Answer| #[trigger]
        world::possible(now, call, answer, faults) implies world::always(
        crate::program::after_answer(program, answer),
        world::after(now, call, answer),
        faults,
        keeps(first, calm),
        restoration(now, state, path, faults),
    ) by {
        assert(world::after(now, call, answer) == now);
        assert(world::elsewhere_same(now, now, path));
        assert(world::unraised(now, now));
        match answer {
            Answer::Attribute(Ok(Some(bytes))) => {
                match recovery::record_of(bytes) {
                    Ok(record) => {
                        lemma_limits(state, path, first, calm, now, faults, bytes, record);
                    },
                    Err(_) => {
                        assert(restored(now, now, state, from, path, faults));
                    },
                }
            },
            Answer::Attribute(Ok(None)) => {
                assert(restored(
                    now,
                    now,
                    state,
                    restore::released(from, path),
                    path,
                    faults,
                ));
            },
            Answer::Attribute(Err(IoFailure::NotFound)) => {
                assert(restored(
                    now,
                    now,
                    state,
                    restore::released(from, path),
                    path,
                    faults,
                ));
            },
            _ => {
                assert(restored(now, now, state, from, path, faults));
            },
        }
    }
}

proof fn lemma_limits(
    state: PolicyModel,
    path: PathModel,
    first: World,
    calm: bool,
    now: World,
    faults: bool,
    bytes: Seq<u8>,
    record: RecordModel,
)
    requires
        keeps(first, calm)(now),
        now.records.get(path) == Some(bytes),
        recovery::record_of(bytes) == Ok::<RecordModel, &'static str>(record),
    ensures
        world::always(
            restore::ask_limits(restore::releasing(state, path), path, bytes, record),
            now,
            faults,
            keeps(first, calm),
            restoration(now, state, path, faults),
        ),
{
    let from = restore::releasing(state, path);
    let program = restore::ask_limits(from, path, bytes, record);
    let call = Call::Read(restore::low_file(path));
    assert forall|answer: Answer| #[trigger]
        world::possible(now, call, answer, faults) implies world::always(
        crate::program::after_answer(program, answer),
        world::after(now, call, answer),
        faults,
        keeps(first, calm),
        restoration(now, state, path, faults),
    ) by {
        assert(world::after(now, call, answer) == now);
        match restore::limits_in(answer) {
            Some(current) => {
                lemma_boosted(state, path, first, calm, now, faults, bytes, record, current);
            },
            None => {
                assert(world::elsewhere_same(now, now, path));
                assert(restored(now, now, state, from, path, faults));
            },
        }
    }
}

}
