//! Rate-limited warnings, independent of how often something is retried.

use crate::table;
use crate::table::RegionMap;
use vstd::prelude::*;
use vstd::string::*;

verus! {

/// For how long a warning silences its category: a minute, in nanoseconds.
pub const QUIET: u64 = 60_000_000_000;

/// The error code for a process that has too many open files.
pub const EMFILE: i32 = 24;

/// The error code for a system that has too many open files.
pub const ENFILE: i32 = 23;

/// Whether a warning of a category is due: there was none, or it is a minute ago.
pub open spec fn due(log: Seq<(Seq<char>, u64)>, category: Seq<char>, now: u64) -> bool {
    match table::find(log, category) {
        Some(last) => now - last >= QUIET,
        None => true,
    }
}

/// The times of the last warnings after one is asked for.
pub open spec fn noted(log: Seq<(Seq<char>, u64)>, category: Seq<char>, now: u64) -> Seq<
    (Seq<char>, u64),
> {
    if due(log, category, now) {
        table::put(log, category, now)
    } else {
        log
    }
}

/// The times of the last warnings, by category.
pub struct Diagnostics {
    warnings: RegionMap<u64>,
}

impl View for Diagnostics {
    type V = Seq<(Seq<char>, u64)>;

    closed spec fn view(&self) -> Seq<(Seq<char>, u64)> {
        self.warnings@
    }
}

impl Default for Diagnostics {
    fn default() -> (diagnostics: Self)
        ensures
            diagnostics@ == Seq::<(Seq<char>, u64)>::empty(),
            table::ordered(diagnostics@),
    {
        Diagnostics { warnings: RegionMap::new() }
    }
}

impl Diagnostics {
    /// Whether to warn, at a time that is given in nanoseconds since some fixed moment.
    pub fn should_warn(&mut self, category: &'static str, now: u64) -> (warn: bool)
        ensures
            warn == due(old(self)@, category@, now),
            final(self)@ == noted(old(self)@, category@, now),
            table::ordered(old(self)@),
            table::ordered(final(self)@),
    {
        let category = category.to_owned();
        let previous = self.warnings.get(&category);
        proof {
            table::lemma_put(self@, category@, now);
        }
        if let Some(last) = previous {
            if now < last || now - last < QUIET {
                return false;
            }
        }
        self.warnings.insert(category, now);
        true
    }
}

/// A request for a warning: its category, and when.
pub type Ask = (Seq<char>, u64);

/// The times of the last warnings after several are asked for.
pub open spec fn noted_all(log: Seq<(Seq<char>, u64)>, asked: Seq<Ask>) -> Seq<(Seq<char>, u64)>
    decreases asked.len(),
{
    if asked.len() == 0 {
        log
    } else {
        noted(noted_all(log, asked.drop_last()), asked.last().0, asked.last().1)
    }
}

/// Whether one of the requests leads to a warning.
pub open spec fn warns(log: Seq<(Seq<char>, u64)>, asked: Seq<Ask>, i: int) -> bool {
    due(noted_all(log, asked.take(i)), asked[i].0, asked[i].1)
}

/// The last warning of a category is at least as late as any that has been given.
proof fn lemma_noted_all(log: Seq<(Seq<char>, u64)>, asked: Seq<Ask>, i: int)
    requires
        table::ordered(log),
        0 <= i < asked.len(),
        forall|a: int, b: int|
            0 <= a <= b < asked.len() ==> (#[trigger] asked[a]).1 <= (#[trigger] asked[b]).1,
        warns(log, asked, i),
    ensures
        table::ordered(noted_all(log, asked)),
        table::find(noted_all(log, asked), asked[i].0) matches Some(last) && asked[i].1 <= last,
    decreases asked.len(),
{
    let front = asked.drop_last();
    let before = noted_all(log, front);
    let (category, now) = asked.last();
    lemma_ordered(log, front);
    table::lemma_put(before, category, now);
    if i < front.len() {
        assert(front.take(i) =~= asked.take(i));
        assert(front[i] == asked[i]);
        assert forall|a: int, b: int| 0 <= a <= b < front.len() implies (#[trigger] front[a]).1 <= (
        #[trigger] front[b]).1 by {
            assert(front[a] == asked[a] && front[b] == asked[b]);
        }
        lemma_noted_all(log, front, i);
        assert(asked[i].1 <= asked[asked.len() - 1].1);
    } else {
        assert(asked.take(i) =~= front);
    }
}

proof fn lemma_ordered(log: Seq<(Seq<char>, u64)>, asked: Seq<Ask>)
    requires
        table::ordered(log),
    ensures
        table::ordered(noted_all(log, asked)),
    decreases asked.len(),
{
    if asked.len() > 0 {
        lemma_ordered(log, asked.drop_last());
        table::lemma_put(
            noted_all(log, asked.drop_last()),
            asked.last().0,
            asked.last().1,
        );
    }
}

/// However often warnings are asked for, two of the same category are at least a
/// minute apart, as long as time does not run backwards.
pub proof fn warnings_are_bounded(log: Seq<(Seq<char>, u64)>, asked: Seq<Ask>, i: int, j: int)
    requires
        table::ordered(log),
        0 <= i < j < asked.len(),
        forall|a: int, b: int|
            0 <= a <= b < asked.len() ==> (#[trigger] asked[a]).1 <= (#[trigger] asked[b]).1,
        asked[i].0 == asked[j].0,
        warns(log, asked, i),
        warns(log, asked, j),
    ensures
        asked[j].1 - asked[i].1 >= 60_000_000_000,
{
    let before = asked.take(j);
    assert(before.take(i) =~= asked.take(i));
    assert(before[i] == asked[i]);
    assert forall|a: int, b: int| 0 <= a <= b < before.len() implies (#[trigger] before[a]).1 <= (
    #[trigger] before[b]).1 by {
        assert(before[a] == asked[a] && before[b] == asked[b]);
    }
    lemma_noted_all(log, before, i);
}

/// The last warning of a category is the one that was given last.
proof fn lemma_last_noted(log: Seq<(Seq<char>, u64)>, asked: Seq<Ask>, i: int)
    requires
        table::ordered(log),
        0 <= i < asked.len(),
        warns(log, asked, i),
        forall|j: int|
            i < j < asked.len() && asked[j].0 == asked[i].0 ==> !#[trigger] warns(log, asked, j),
    ensures
        table::find(noted_all(log, asked), asked[i].0) == Some(asked[i].1),
    decreases asked.len(),
{
    let front = asked.drop_last();
    let before = noted_all(log, front);
    let (category, now) = asked.last();
    let last = asked.len() - 1;
    lemma_ordered(log, front);
    table::lemma_put(before, category, now);
    assert(asked.take(last) =~= front);
    if i < last {
        assert(front.take(i) =~= asked.take(i));
        assert(front[i] == asked[i]);
        assert forall|j: int|
            i < j < front.len() && front[j].0 == front[i].0 implies !#[trigger] warns(
            log,
            front,
            j,
        ) by {
            assert(front.take(j) =~= asked.take(j));
            assert(front[j] == asked[j]);
            assert(!warns(log, asked, j));
        }
        lemma_last_noted(log, front, i);
        if category == asked[i].0 {
            assert(!warns(log, asked, last));
        }
    }
}

/// A minute after the last warning of its category a warning is due again, whatever was
/// asked for in between.
pub proof fn a_minute_later_a_warning_is_due(
    log: Seq<(Seq<char>, u64)>,
    asked: Seq<Ask>,
    i: int,
    k: int,
)
    requires
        table::ordered(log),
        0 <= i < k < asked.len(),
        asked[i].0 == asked[k].0,
        warns(log, asked, i),
        forall|j: int|
            i < j < k && asked[j].0 == asked[i].0 ==> !#[trigger] warns(log, asked, j),
        asked[k].1 - asked[i].1 >= 60_000_000_000,
    ensures
        warns(log, asked, k),
{
    let before = asked.take(k);
    assert(before.take(i) =~= asked.take(i));
    assert(before[i] == asked[i]);
    assert forall|j: int|
        i < j < before.len() && before[j].0 == before[i].0 implies !#[trigger] warns(
        log,
        before,
        j,
    ) by {
        assert(before.take(j) =~= asked.take(j));
        assert(before[j] == asked[j]);
        assert(!warns(log, asked, j));
    }
    lemma_last_noted(log, before, i);
}

/// The first warning of a category is due at once.
pub proof fn a_new_category_is_not_delayed(
    log: Seq<(Seq<char>, u64)>,
    category: Seq<char>,
    now: u64,
)
    requires
        table::find(log, category) is None,
    ensures
        due(log, category, now),
{
}

/// Warnings of other categories delay nothing: whether one is due depends on its own
/// category alone.
pub proof fn categories_are_independent(
    log: Seq<(Seq<char>, u64)>,
    other: Seq<char>,
    then: u64,
    category: Seq<char>,
    now: u64,
)
    requires
        table::ordered(log),
        other != category,
    ensures
        due(noted(log, other, then), category, now) == due(log, category, now),
{
    table::lemma_put(log, other, then);
}

/// A warning counts from when it is given: it is not due again before, nor within a minute,
/// and asking in vain changes nothing.
pub proof fn a_warning_silences_its_category(
    log: Seq<(Seq<char>, u64)>,
    category: Seq<char>,
    now: u64,
    later: u64,
)
    requires
        table::ordered(log),
    ensures
        due(log, category, now) ==> (due(noted(log, category, now), category, later) <==> later
            - now >= 60_000_000_000),
        !due(log, category, now) ==> noted(log, category, now) == log,
        table::find(log, category) is None ==> due(log, category, now),
{
    table::lemma_put(log, category, now);
}

/// What to look at when there can be no watches.
pub open spec fn hint(code: Option<i32>) -> Seq<char> {
    if code == Some(EMFILE) {
        "; check fs.inotify.max_user_instances and the process open-file limit"@
    } else if code == Some(ENFILE) {
        "; the system-wide open-file limit has been reached"@
    } else {
        ""@
    }
}

/// Only where there are too many open files there is something to look at, and it is not
/// the same for a process as for the system.
pub proof fn too_many_open_files_come_with_a_hint(code: Option<i32>)
    ensures
        hint(code).len() > 0 <==> code == Some(24i32) || code == Some(23i32),
        hint(Some(24i32)) != hint(Some(23i32)),
{
    reveal_strlit("; check fs.inotify.max_user_instances and the process open-file limit");
    reveal_strlit("; the system-wide open-file limit has been reached");
    reveal_strlit("");
    assert(hint(Some(24i32))[2] == 'c' && hint(Some(23i32))[2] == 't');
}

/// The message for a failure to set up the watches, from the system's own words and its
/// error code.
pub fn inotify_error(error: &str, code: Option<i32>) -> (message: String)
    ensures
        message@ == "could not initialize inotify for application focus watches: "@ + error@
            + hint(code),
{
    let mut message = "could not initialize inotify for application focus watches: ".to_owned();
    message.append(error);
    let hint = match code {
        Some(code) => {
            if code == EMFILE {
                "; check fs.inotify.max_user_instances and the process open-file limit"
            } else if code == ENFILE {
                "; the system-wide open-file limit has been reached"
            } else {
                ""
            }
        },
        None => "",
    };
    message.append(hint);
    message
}

}
