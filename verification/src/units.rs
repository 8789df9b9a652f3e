//! Which cgroup belongs to which unit of the service manager.

use crate::path;
use crate::path::{CgroupPath, PathModel};
use crate::table;
use crate::text;
use vstd::prelude::*;
use vstd::string::*;
use vstd::utf8::*;

verus! {

/// How often a unit without a cgroup is looked at again.
pub const RETRIES: u8 = 10;

/// The part of a name after its last dot.
pub open spec fn suffix(name: Seq<char>) -> Option<Seq<char>>
    decreases name.len(),
{
    if name.len() == 0 {
        None
    } else if name.last() == '.' {
        Some(Seq::empty())
    } else {
        match suffix(name.drop_last()) {
            Some(rest) => Some(rest.push(name.last())),
            None => None,
        }
    }
}

/// The interface through which a unit tells its cgroup. Only some kinds of unit have
/// one.
pub open spec fn interface(name: Seq<char>) -> Option<Seq<char>> {
    match suffix(name) {
        None => None,
        Some(kind) => if kind == "service"@ {
            Some("org.freedesktop.systemd1.Service"@)
        } else if kind == "scope"@ {
            Some("org.freedesktop.systemd1.Scope"@)
        } else if kind == "slice"@ {
            Some("org.freedesktop.systemd1.Slice"@)
        } else if kind == "socket"@ {
            Some("org.freedesktop.systemd1.Socket"@)
        } else {
            None
        },
    }
}

/// A text without the slashes at its start.
pub open spec fn without_slashes(content: Seq<char>) -> Seq<char>
    decreases content.len(),
{
    if content.len() > 0 && content[0] == '/' {
        without_slashes(content.drop_first())
    } else {
        content
    }
}

/// The path of the cgroup that a unit names. A unit that has none yet names the empty
/// text.
pub open spec fn control_group(content: Seq<char>) -> Option<PathModel> {
    if content.len() == 0 {
        None
    } else {
        Some(
            path::joined(
                path::components_of(encode_utf8("/sys/fs/cgroup"@)),
                encode_utf8(without_slashes(content)),
            ),
        )
    }
}

proof fn lemma_suffix(name: Seq<char>, dot: int)
    requires
        0 <= dot < name.len(),
        name[dot] == '.',
        forall|i: int| dot < i < name.len() ==> #[trigger] name[i] != '.',
    ensures
        suffix(name) == Some(name.skip(dot + 1)),
    decreases name.len(),
{
    if dot == name.len() - 1 {
        assert(name.skip(dot + 1) =~= Seq::<char>::empty());
    } else {
        let front = name.drop_last();
        assert forall|i: int| dot < i < front.len() implies #[trigger] front[i] != '.' by {
            assert(front[i] == name[i]);
        }
        assert(name[name.len() - 1] != '.');
        lemma_suffix(front, dot);
        assert(front.skip(dot + 1).push(name.last()) =~= name.skip(dot + 1));
    }
}

proof fn lemma_no_suffix(name: Seq<char>)
    requires
        forall|i: int| 0 <= i < name.len() ==> #[trigger] name[i] != '.',
    ensures
        suffix(name) is None,
    decreases name.len(),
{
    if name.len() > 0 {
        let front = name.drop_last();
        assert(name[name.len() - 1] != '.');
        assert forall|i: int| 0 <= i < front.len() implies #[trigger] front[i] != '.' by {
            assert(front[i] == name[i]);
        }
        lemma_no_suffix(front);
    }
}

/// The interface through which a unit tells its cgroup.
pub fn cgroup_interface(unit_name: &str) -> (found: Option<&'static str>)
    ensures
        match interface(unit_name@) {
            Some(name) => found matches Some(interface) && interface@ == name,
            None => found is None,
        },
{
    let chars = text::characters(unit_name);
    let total: usize = chars.len();
    let mut start: usize = total;
    while start > 0 && chars[start - 1] != '.'
        invariant
            chars@ == unit_name@,
            total == chars@.len(),
            start <= total,
            forall|i: int| start <= i < total ==> #[trigger] chars@[i] != '.',
        decreases start,
    {
        start = start - 1;
    }
    if start == 0 {
        proof {
            lemma_no_suffix(unit_name@);
        }
        return None;
    }
    proof {
        lemma_suffix(unit_name@, start - 1);
    }
    let kind = unit_name.substring_char(start, total);
    proof {
        assert(kind@ =~= unit_name@.skip(start as int));
    }
    if text::same_text(kind, "service") {
        Some("org.freedesktop.systemd1.Service")
    } else if text::same_text(kind, "scope") {
        Some("org.freedesktop.systemd1.Scope")
    } else if text::same_text(kind, "slice") {
        Some("org.freedesktop.systemd1.Slice")
    } else if text::same_text(kind, "socket") {
        Some("org.freedesktop.systemd1.Socket")
    } else {
        None
    }
}

/// The path of the cgroup that a unit names.
pub fn control_group_path(content: &str) -> (found: Option<CgroupPath>)
    ensures
        match control_group(content@) {
            Some(path) => found matches Some(cgroup) && cgroup@ == path,
            None => found is None,
        },
{
    let chars = text::characters(content);
    let total: usize = chars.len();
    if total == 0 {
        return None;
    }
    let mut start: usize = 0;
    proof {
        assert(content@.skip(0) =~= content@);
    }
    while start < total && chars[start] == '/'
        invariant
            chars@ == content@,
            total == chars@.len(),
            start <= total,
            without_slashes(content@) == without_slashes(content@.skip(start as int)),
        decreases total - start,
    {
        proof {
            assert(content@.skip(start as int).drop_first() =~= content@.skip(start + 1));
        }
        start = start + 1;
    }
    let rest = content.substring_char(start, total);
    proof {
        assert(rest@ =~= content@.skip(start as int));
    }
    Some(CgroupPath::new("/sys/fs/cgroup").join(rest))
}

/// News of a unit.
pub enum UnitEvent {
    /// It is new, and has been looked at so many times before.
    New { name: String, object_path: String, attempts: u8 },
    /// It is gone.
    Removed(String),
}

/// News of a unit, over mathematical values.
pub enum Notice {
    New(Seq<char>, Seq<char>, u8),
    Removed(Seq<char>),
}

impl View for UnitEvent {
    type V = Notice;

    open spec fn view(&self) -> Notice {
        match self {
            UnitEvent::New { name, object_path, attempts } => Notice::New(
                name@,
                object_path@,
                *attempts,
            ),
            UnitEvent::Removed(object_path) => Notice::Removed(object_path@),
        }
    }
}

/// What is known of units, over mathematical values.
pub struct UnitsModel {
    /// The application cgroups, by unit.
    pub cgroups: Seq<(Seq<char>, PathModel)>,
    /// The units that were looked at in this round.
    pub seen: Seq<Seq<char>>,
    /// The units to be looked at in the next round.
    pub retries: Seq<Notice>,
}

/// What is to be done about news of a unit.
pub enum UnitAction {
    /// Nothing.
    Nothing,
    /// Ask for its cgroup.
    Ask(UnitQuery),
    /// Let go of its cgroup.
    Untrack(CgroupPath),
}

/// A question for a unit's cgroup.
pub struct UnitQuery {
    pub name: String,
    pub object_path: String,
    pub attempts: u8,
    pub interface: &'static str,
}

/// What is to be done, over mathematical values.
pub enum Deed {
    Nothing,
    Ask(Seq<char>, Seq<char>, u8, Seq<char>),
    Untrack(PathModel),
}

impl View for UnitAction {
    type V = Deed;

    open spec fn view(&self) -> Deed {
        match self {
            UnitAction::Nothing => Deed::Nothing,
            UnitAction::Ask(query) => Deed::Ask(
                query.name@,
                query.object_path@,
                query.attempts,
                query.interface@,
            ),
            UnitAction::Untrack(path) => Deed::Untrack(path@),
        }
    }
}

/// A table without a unit.
pub open spec fn removed<V>(entries: Seq<(Seq<char>, V)>, unit: Seq<char>) -> Seq<(Seq<char>, V)>
    decreases entries.len(),
{
    if entries.len() == 0 {
        entries
    } else {
        let rest = removed(entries.drop_last(), unit);
        if entries.last().0 == unit {
            rest
        } else {
            rest.push(entries.last())
        }
    }
}

/// Units without one of them.
pub open spec fn unseen(seen: Seq<Seq<char>>, unit: Seq<char>) -> Seq<Seq<char>>
    decreases seen.len(),
{
    if seen.len() == 0 {
        seen
    } else {
        let rest = unseen(seen.drop_last(), unit);
        if seen.last() == unit {
            rest
        } else {
            rest.push(seen.last())
        }
    }
}

/// Whether news says that a unit is new.
pub open spec fn is_new(notice: Notice, unit: Seq<char>) -> bool {
    notice matches Notice::New(_, object_path, _) && object_path == unit
}

/// News without that a unit is new.
pub open spec fn withdrawn(notices: Seq<Notice>, unit: Seq<char>) -> Seq<Notice>
    decreases notices.len(),
{
    if notices.len() == 0 {
        notices
    } else {
        let rest = withdrawn(notices.drop_last(), unit);
        if is_new(notices.last(), unit) {
            rest
        } else {
            rest.push(notices.last())
        }
    }
}

/// Those of the units whose cgroups are application cgroups beneath a root.
pub open spec fn within(cgroups: Seq<(Seq<char>, PathModel)>, root: Option<PathModel>) -> Seq<
    (Seq<char>, PathModel),
>
    decreases cgroups.len(),
{
    if cgroups.len() == 0 {
        cgroups
    } else {
        let rest = within(cgroups.drop_last(), root);
        if applies(root, cgroups.last().1) {
            rest.push(cgroups.last())
        } else {
            rest
        }
    }
}

/// Whether there is a root, and a path is an application cgroup beneath it.
pub open spec fn applies(root: Option<PathModel>, path: PathModel) -> bool {
    root matches Some(root) && path::application_cgroup(root, path)
}

/// What is known, and what is to be done, on news of a unit.
///
/// A new unit is asked for its cgroup, once in a round and not if that is known. A unit
/// that is gone is forgotten, and its cgroup is let go.
pub open spec fn on_event(units: UnitsModel, notice: Notice) -> (UnitsModel, Deed) {
    match notice {
        Notice::New(name, unit, attempts) => if table::find(units.cgroups, unit) is Some
            || units.seen.contains(unit) {
            (units, Deed::Nothing)
        } else {
            (
                UnitsModel { seen: units.seen.push(unit), ..units },
                match interface(name) {
                    Some(interface) => Deed::Ask(name, unit, attempts, interface),
                    None => Deed::Nothing,
                },
            )
        },
        Notice::Removed(unit) => (
            UnitsModel {
                cgroups: removed(units.cgroups, unit),
                seen: unseen(units.seen, unit),
                retries: withdrawn(units.retries, unit),
            },
            match table::find(units.cgroups, unit) {
                Some(path) => Deed::Untrack(path),
                None => Deed::Nothing,
            },
        ),
    }
}

/// What is known once a unit has been asked for its cgroup, and the cgroup that is to be
/// registered. A unit that does not name one is looked at again later, but not forever.
pub open spec fn on_answer(
    units: UnitsModel,
    name: Seq<char>,
    unit: Seq<char>,
    attempts: u8,
    answer: Option<PathModel>,
    root: Option<PathModel>,
) -> (UnitsModel, Option<PathModel>) {
    match answer {
        Some(path) => if applies(root, path) {
            (
                UnitsModel { cgroups: removed(units.cgroups, unit).push((unit, path)), ..units },
                Some(path),
            )
        } else {
            (units, None)
        },
        None => if attempts < RETRIES {
            (
                UnitsModel {
                    retries: units.retries.push(Notice::New(name, unit, (attempts + 1) as u8)),
                    ..units
                },
                None,
            )
        } else {
            (units, None)
        },
    }
}

/// What is known of units.
pub struct Units {
    cgroups: Vec<(String, CgroupPath)>,
    seen: Vec<String>,
    retries: Vec<UnitEvent>,
}

spec fn cgroup_views(cgroups: Seq<(String, CgroupPath)>) -> Seq<(Seq<char>, PathModel)> {
    cgroups.map_values(|e: (String, CgroupPath)| (e.0@, e.1@))
}

/// The models of news.
pub open spec fn event_views(events: Seq<UnitEvent>) -> Seq<Notice> {
    events.map_values(|e: UnitEvent| e@)
}

impl View for Units {
    type V = UnitsModel;

    closed spec fn view(&self) -> UnitsModel {
        UnitsModel {
            cgroups: cgroup_views(self.cgroups@),
            seen: text::texts(self.seen@),
            retries: event_views(self.retries@),
        }
    }
}

impl Units {
    /// Nothing is known.
    pub fn new() -> (units: Self)
        ensures
            units@ == (UnitsModel {
                cgroups: Seq::empty(),
                seen: Seq::empty(),
                retries: Seq::empty(),
            }),
    {
        let units = Units { cgroups: Vec::new(), seen: Vec::new(), retries: Vec::new() };
        assert(units@.cgroups =~= Seq::<(Seq<char>, PathModel)>::empty());
        assert(units@.seen =~= Seq::<Seq<char>>::empty());
        assert(units@.retries =~= Seq::<Notice>::empty());
        units
    }

    /// The number of units whose cgroups are known.
    pub fn len(&self) -> (len: usize)
        ensures
            len == self@.cgroups.len(),
    {
        self.cgroups.len()
    }

    /// The cgroup of a unit.
    pub fn cgroup(&self, unit: &String) -> (found: Option<CgroupPath>)
        ensures
            match table::find(self@.cgroups, unit@) {
                Some(path) => found matches Some(cgroup) && cgroup@ == path,
                None => found is None,
            },
    {
        let ghost all = self@.cgroups;
        let mut i: usize = self.cgroups.len();
        proof {
            assert(all.take(all.len() as int) =~= all);
        }
        while i > 0
            invariant
                i <= all.len(),
                all == self@.cgroups,
                all.len() == self.cgroups@.len(),
                table::find(all.take(i as int), unit@) == table::find(all, unit@),
            decreases i,
        {
            let ghost seen = all.take(i as int);
            i = i - 1;
            proof {
                assert(seen.drop_last() =~= all.take(i as int));
                assert(seen.last() == all[i as int]);
                assert(all[i as int] == (self.cgroups@[i as int].0@, self.cgroups@[i as int].1@));
            }
            if self.cgroups[i].0 == *unit {
                return Some(self.cgroups[i].1.duplicate());
            }
        }
        None
    }

    /// Forgets the cgroup of a unit.
    fn remove(&mut self, unit: &String)
        ensures
            final(self)@ == (UnitsModel { cgroups: removed(old(self)@.cgroups, unit@), ..old(self)@
            }),
    {
        let ghost all = self@.cgroups;
        let mut kept: usize = 0;
        let ghost mut done: int = 0;
        proof {
            assert(removed(all.take(0), unit@) + all.skip(0) =~= all);
        }
        while kept < self.cgroups.len()
            invariant
                0 <= done <= all.len(),
                self@.seen == old(self)@.seen,
                self@.retries == old(self)@.retries,
                kept == removed(all.take(done), unit@).len(),
                self@.cgroups == removed(all.take(done), unit@) + all.skip(done),
                self@.cgroups.len() == self.cgroups@.len(),
            decreases self.cgroups@.len() - kept,
        {
            proof {
                assert(self@.cgroups[kept as int].0 == self.cgroups@[kept as int].0@);
                assert(all.take(done + 1).drop_last() =~= all.take(done));
                assert(all.take(done + 1).last() == all[done]);
                assert(self@.cgroups[kept as int] == all[done]);
            }
            if self.cgroups[kept].0 == *unit {
                let ghost was = self@.cgroups;
                self.cgroups.remove(kept);
                proof {
                    assert(self@.cgroups =~= was.remove(kept as int));
                    assert(self@.cgroups =~= removed(all.take(done + 1), unit@) + all.skip(
                        done + 1,
                    ));
                }
            } else {
                proof {
                    assert(self@.cgroups =~= removed(all.take(done + 1), unit@) + all.skip(
                        done + 1,
                    ));
                }
                kept = kept + 1;
            }
            proof {
                done = done + 1;
            }
        }
        proof {
            assert(all.take(done) =~= all);
            assert(self@.cgroups =~= removed(all, unit@));
        }
    }

    /// Notes the cgroup of a unit.
    pub fn insert(&mut self, unit: String, cgroup: CgroupPath)
        ensures
            final(self)@ == (UnitsModel {
                cgroups: removed(old(self)@.cgroups, unit@).push((unit@, cgroup@)),
                ..old(self)@
            }),
    {
        self.remove(&unit);
        let ghost rest = self@.cgroups;
        let ghost added = (unit@, cgroup@);
        self.cgroups.push((unit, cgroup));
        assert(self@.cgroups =~= rest.push(added));
    }

    /// Forgets the units whose cgroups are no application cgroups beneath the root.
    pub fn retain(&mut self, root: Option<&CgroupPath>)
        ensures
            final(self)@ == (UnitsModel {
                cgroups: within(
                    old(self)@.cgroups,
                    match root {
                        Some(root) => Some(root@),
                        None => None,
                    },
                ),
                ..old(self)@
            }),
    {
        let ghost all = self@.cgroups;
        let ghost base = match root {
            Some(root) => Some(root@),
            None => None,
        };
        let mut kept: usize = 0;
        let ghost mut done: int = 0;
        proof {
            assert(within(all.take(0), base) + all.skip(0) =~= all);
        }
        while kept < self.cgroups.len()
            invariant
                0 <= done <= all.len(),
                base == (match root {
                    Some(root) => Some(root@),
                    None => None,
                }),
                self@.seen == old(self)@.seen,
                self@.retries == old(self)@.retries,
                kept == within(all.take(done), base).len(),
                self@.cgroups == within(all.take(done), base) + all.skip(done),
                self@.cgroups.len() == self.cgroups@.len(),
            decreases self.cgroups@.len() - kept,
        {
            proof {
                assert(self@.cgroups[kept as int].1 == self.cgroups@[kept as int].1@);
                assert(all.take(done + 1).drop_last() =~= all.take(done));
                assert(all.take(done + 1).last() == all[done]);
                assert(self@.cgroups[kept as int] == all[done]);
            }
            let keep = match root {
                Some(root) => path::is_application_cgroup(root, &self.cgroups[kept].1),
                None => false,
            };
            if !keep {
                let ghost was = self@.cgroups;
                self.cgroups.remove(kept);
                proof {
                    assert(self@.cgroups =~= was.remove(kept as int));
                    assert(self@.cgroups =~= within(all.take(done + 1), base) + all.skip(
                        done + 1,
                    ));
                }
            } else {
                proof {
                    assert(self@.cgroups =~= within(all.take(done + 1), base) + all.skip(
                        done + 1,
                    ));
                }
                kept = kept + 1;
            }
            proof {
                done = done + 1;
            }
        }
        proof {
            assert(all.take(done) =~= all);
            assert(self@.cgroups =~= within(all, base));
        }
    }

    /// Whether a unit was looked at in this round.
    fn has_seen(&self, unit: &String) -> (found: bool)
        ensures
            found == self@.seen.contains(unit@),
    {
        let mut i: usize = 0;
        while i < self.seen.len()
            invariant
                i <= self.seen@.len(),
                forall|j: int| 0 <= j < i ==> #[trigger] self@.seen[j] != unit@,
            decreases self.seen@.len() - i,
        {
            assert(self@.seen[i as int] == self.seen@[i as int]@);
            if self.seen[i] == *unit {
                return true;
            }
            i = i + 1;
        }
        false
    }

    /// Forgets that a unit was looked at in this round.
    fn forget_seen(&mut self, unit: &String)
        ensures
            final(self)@ == (UnitsModel { seen: unseen(old(self)@.seen, unit@), ..old(self)@ }),
    {
        let ghost all = self@.seen;
        let mut kept: usize = 0;
        let ghost mut done: int = 0;
        proof {
            assert(unseen(all.take(0), unit@) + all.skip(0) =~= all);
        }
        while kept < self.seen.len()
            invariant
                0 <= done <= all.len(),
                self@.cgroups == old(self)@.cgroups,
                self@.retries == old(self)@.retries,
                kept == unseen(all.take(done), unit@).len(),
                self@.seen == unseen(all.take(done), unit@) + all.skip(done),
                self@.seen.len() == self.seen@.len(),
            decreases self.seen@.len() - kept,
        {
            proof {
                assert(self@.seen[kept as int] == self.seen@[kept as int]@);
                assert(all.take(done + 1).drop_last() =~= all.take(done));
                assert(all.take(done + 1).last() == all[done]);
                assert(self@.seen[kept as int] == all[done]);
            }
            if self.seen[kept] == *unit {
                let ghost was = self@.seen;
                self.seen.remove(kept);
                proof {
                    assert(self@.seen =~= was.remove(kept as int));
                    assert(self@.seen =~= unseen(all.take(done + 1), unit@) + all.skip(done + 1));
                }
            } else {
                proof {
                    assert(self@.seen =~= unseen(all.take(done + 1), unit@) + all.skip(done + 1));
                }
                kept = kept + 1;
            }
            proof {
                done = done + 1;
            }
        }
        proof {
            assert(all.take(done) =~= all);
            assert(self@.seen =~= unseen(all, unit@));
        }
    }

    /// Forgets that a unit is to be looked at again.
    fn withdraw(&mut self, unit: &String)
        ensures
            final(self)@ == (UnitsModel {
                retries: withdrawn(old(self)@.retries, unit@),
                ..old(self)@
            }),
    {
        let ghost all = self@.retries;
        let mut kept: usize = 0;
        let ghost mut done: int = 0;
        proof {
            assert(withdrawn(all.take(0), unit@) + all.skip(0) =~= all);
        }
        while kept < self.retries.len()
            invariant
                0 <= done <= all.len(),
                self@.cgroups == old(self)@.cgroups,
                self@.seen == old(self)@.seen,
                kept == withdrawn(all.take(done), unit@).len(),
                self@.retries == withdrawn(all.take(done), unit@) + all.skip(done),
                self@.retries.len() == self.retries@.len(),
            decreases self.retries@.len() - kept,
        {
            proof {
                assert(self@.retries[kept as int] == self.retries@[kept as int]@);
                assert(all.take(done + 1).drop_last() =~= all.take(done));
                assert(all.take(done + 1).last() == all[done]);
                assert(self@.retries[kept as int] == all[done]);
            }
            let same = match &self.retries[kept] {
                UnitEvent::New { object_path, .. } => *object_path == *unit,
                UnitEvent::Removed(_) => false,
            };
            if same {
                let ghost was = self@.retries;
                self.retries.remove(kept);
                proof {
                    assert(self@.retries =~= was.remove(kept as int));
                    assert(self@.retries =~= withdrawn(all.take(done + 1), unit@) + all.skip(
                        done + 1,
                    ));
                }
            } else {
                proof {
                    assert(self@.retries =~= withdrawn(all.take(done + 1), unit@) + all.skip(
                        done + 1,
                    ));
                }
                kept = kept + 1;
            }
            proof {
                done = done + 1;
            }
        }
        proof {
            assert(all.take(done) =~= all);
            assert(self@.retries =~= withdrawn(all, unit@));
        }
    }

    /// Takes news of a unit.
    pub fn on_event(&mut self, event: UnitEvent) -> (action: UnitAction)
        ensures
            (final(self)@, action@) == on_event(old(self)@, event@),
    {
        match event {
            UnitEvent::New { name, object_path, attempts } => {
                if self.cgroup(&object_path).is_some() || self.has_seen(&object_path) {
                    return UnitAction::Nothing;
                }
                let ghost seen = self@.seen;
                let unit = object_path.clone();
                self.seen.push(unit);
                proof {
                    assert(self@.seen =~= seen.push(object_path@));
                }
                match cgroup_interface(name.as_str()) {
                    Some(interface) => UnitAction::Ask(
                        UnitQuery { name, object_path, attempts, interface },
                    ),
                    None => UnitAction::Nothing,
                }
            },
            UnitEvent::Removed(unit) => {
                self.forget_seen(&unit);
                self.withdraw(&unit);
                match self.cgroup(&unit) {
                    Some(cgroup) => {
                        self.remove(&unit);
                        UnitAction::Untrack(cgroup)
                    },
                    None => {
                        proof {
                            lemma_nothing_removed(self@.cgroups, unit@);
                        }
                        UnitAction::Nothing
                    },
                }
            },
        }
    }

    /// Takes the answer to a question for a unit's cgroup: what the unit names, if it
    /// answered. Gives the cgroup that is to be registered.
    pub fn on_answer(
        &mut self,
        query: UnitQuery,
        answer: Option<String>,
        root: Option<&CgroupPath>,
    ) -> (register: Option<CgroupPath>)
        ensures
            ({
                let named = match answer {
                    Some(content) => control_group(content@),
                    None => None,
                };
                let base = match root {
                    Some(root) => Some(root@),
                    None => None,
                };
                let (units, wanted) = on_answer(
                    old(self)@,
                    query.name@,
                    query.object_path@,
                    query.attempts,
                    named,
                    base,
                );
                &&& final(self)@ == units
                &&& match wanted {
                    Some(path) => register matches Some(cgroup) && cgroup@ == path,
                    None => register is None,
                }
            }),
    {
        let UnitQuery { name, object_path, attempts, .. } = query;
        let named = match &answer {
            Some(content) => control_group_path(content.as_str()),
            None => None,
        };
        match named {
            Some(cgroup) => {
                let applies = match root {
                    Some(root) => path::is_application_cgroup(root, &cgroup),
                    None => false,
                };
                if applies {
                    self.insert(object_path, cgroup.duplicate());
                    Some(cgroup)
                } else {
                    None
                }
            },
            None => {
                if attempts < RETRIES {
                    let ghost retries = self@.retries;
                    let event = UnitEvent::New { name, object_path, attempts: attempts + 1 };
                    let ghost notice = event@;
                    self.retries.push(event);
                    proof {
                        assert(self@.retries =~= retries.push(notice));
                    }
                }
                None
            },
        }
    }

    /// Ends a round: gives the units to be looked at in the next one.
    pub fn end_round(&mut self) -> (retries: Vec<UnitEvent>)
        ensures
            event_views(retries@) == old(self)@.retries,
            final(self)@ == (UnitsModel {
                seen: Seq::empty(),
                retries: Seq::empty(),
                ..old(self)@
            }),
    {
        let mut retries: Vec<UnitEvent> = Vec::new();
        std::mem::swap(&mut retries, &mut self.retries);
        self.seen = Vec::new();
        proof {
            assert(self@.seen =~= Seq::<Seq<char>>::empty());
            assert(self@.retries =~= Seq::<Notice>::empty());
        }
        retries
    }
}

/// What a table does not have cannot be taken out of it.
proof fn lemma_nothing_removed<V>(entries: Seq<(Seq<char>, V)>, unit: Seq<char>)
    requires
        table::find(entries, unit) is None,
    ensures
        removed(entries, unit) == entries,
    decreases entries.len(),
{
    if entries.len() > 0 {
        lemma_nothing_removed(entries.drop_last(), unit);
        assert(entries.drop_last().push(entries.last()) =~= entries);
    }
}

/// What a table has after a unit was taken out.
proof fn lemma_removed<V>(entries: Seq<(Seq<char>, V)>, unit: Seq<char>)
    ensures
        table::find(removed(entries, unit), unit) is None,
        forall|other: Seq<char>|
            other != unit ==> #[trigger] table::find(removed(entries, unit), other) == table::find(
                entries,
                other,
            ),
    decreases entries.len(),
{
    if entries.len() > 0 {
        lemma_removed(entries.drop_last(), unit);
        let rest = removed(entries.drop_last(), unit);
        if entries.last().0 != unit {
            assert(removed(entries, unit).drop_last() =~= rest);
        }
        assert forall|other: Seq<char>| other != unit implies #[trigger] table::find(
            removed(entries, unit),
            other,
        ) == table::find(entries, other) by {
            assert(table::find(rest, other) == table::find(entries.drop_last(), other));
        }
    }
}

proof fn lemma_unseen(seen: Seq<Seq<char>>, unit: Seq<char>)
    ensures
        forall|other: Seq<char>| #[trigger]
            unseen(seen, unit).contains(other) <==> seen.contains(other) && other != unit,
    decreases seen.len(),
{
    if seen.len() > 0 {
        let front = seen.drop_last();
        lemma_unseen(front, unit);
        let rest = unseen(front, unit);
        let result = unseen(seen, unit);
        assert forall|other: Seq<char>| #[trigger] result.contains(other) <==> seen.contains(other)
            && other != unit by {
            if result.contains(other) {
                let k = choose|k: int| 0 <= k < result.len() && result[k] == other;
                if k < rest.len() {
                    assert(rest[k] == other);
                    assert(rest.contains(other));
                    let m = choose|m: int| 0 <= m < front.len() && front[m] == other;
                    assert(seen[m] == other);
                } else {
                    assert(seen[seen.len() - 1] == other);
                }
            }
            if seen.contains(other) && other != unit {
                let m = choose|m: int| 0 <= m < seen.len() && seen[m] == other;
                if m < front.len() {
                    assert(front[m] == other);
                    assert(rest.contains(other));
                    let k = choose|k: int| 0 <= k < rest.len() && rest[k] == other;
                    assert(result[k] == other);
                } else {
                    assert(result[rest.len() as int] == other);
                }
            }
        }
    }
}

proof fn lemma_withdrawn(notices: Seq<Notice>, unit: Seq<char>)
    ensures
        forall|i: int|
            0 <= i < withdrawn(notices, unit).len() ==> !is_new(
                #[trigger] withdrawn(notices, unit)[i],
                unit,
            ) && notices.contains(withdrawn(notices, unit)[i]),
    decreases notices.len(),
{
    if notices.len() > 0 {
        let front = notices.drop_last();
        lemma_withdrawn(front, unit);
        let rest = withdrawn(front, unit);
        let result = withdrawn(notices, unit);
        assert forall|i: int| 0 <= i < result.len() implies !is_new(#[trigger] result[i], unit)
            && notices.contains(result[i]) by {
            if i < rest.len() {
                assert(result[i] == rest[i]);
                let k = choose|k: int| 0 <= k < front.len() && front[k] == rest[i];
                assert(notices[k] == result[i]);
            } else {
                assert(notices[notices.len() - 1] == result[i]);
            }
        }
    }
}

/// A unit that is gone is forgotten: its cgroup, that it was looked at, and that it was
/// to be looked at again.
pub proof fn a_removed_unit_is_forgotten(units: UnitsModel, unit: Seq<char>)
    ensures
        ({
            let now = on_event(units, Notice::Removed(unit)).0;
            &&& table::find(now.cgroups, unit) is None
            &&& !now.seen.contains(unit)
            &&& forall|i: int|
                0 <= i < now.retries.len() ==> !is_new(#[trigger] now.retries[i], unit)
        }),
{
    lemma_removed(units.cgroups, unit);
    lemma_unseen(units.seen, unit);
    lemma_withdrawn(units.retries, unit);
}

/// No unit has been looked at too often.
pub open spec fn bounded(notices: Seq<Notice>) -> bool {
    forall|i: int|
        0 <= i < notices.len() ==> ((#[trigger] notices[i]) matches Notice::New(_, _, attempts)
            ==> attempts <= RETRIES)
}

/// A unit that never names a cgroup is looked at again ten times at most.
pub proof fn retries_are_bounded(
    units: UnitsModel,
    notice: Notice,
    answer: Option<PathModel>,
    root: Option<PathModel>,
)
    requires
        bounded(units.retries),
    ensures
        bounded(on_event(units, notice).0.retries),
        notice matches Notice::New(name, unit, attempts) ==> bounded(
            on_answer(units, name, unit, attempts, answer, root).0.retries,
        ) && (attempts >= RETRIES ==> on_answer(units, name, unit, attempts, answer, root).0.retries
            == units.retries),
{
    if let Notice::Removed(unit) = notice {
        lemma_withdrawn(units.retries, unit);
        let rest = withdrawn(units.retries, unit);
        assert forall|i: int| 0 <= i < rest.len() implies ((#[trigger] rest[i]) matches Notice::New(
            _,
            _,
            attempts,
        ) ==> attempts <= RETRIES) by {
            let k = choose|k: int| 0 <= k < units.retries.len() && units.retries[k] == rest[i];
            assert(units.retries[k] == rest[i]);
        }
    }
}

/// Within a round a unit is asked for its cgroup once, however often it is reported as
/// new.
pub proof fn a_unit_is_asked_once(
    units: UnitsModel,
    unit: Seq<char>,
    name: Seq<char>,
    attempts: u8,
    other_name: Seq<char>,
    other_attempts: u8,
)
    ensures
        on_event(
            on_event(units, Notice::New(name, unit, attempts)).0,
            Notice::New(other_name, unit, other_attempts),
        ).1 == Deed::Nothing,
{
    let now = on_event(units, Notice::New(name, unit, attempts)).0;
    if table::find(units.cgroups, unit) is None && !units.seen.contains(unit) {
        assert(now.seen[units.seen.len() as int] == unit);
    }
}

/// What is known once an event has been dealt with: where its unit is asked, it answers
/// as given.
pub open spec fn after_event(
    units: UnitsModel,
    notice: Notice,
    answer: Option<PathModel>,
    root: Option<PathModel>,
) -> UnitsModel {
    let (now, deed) = on_event(units, notice);
    match deed {
        Deed::Ask(name, unit, attempts, _) => on_answer(
            now,
            name,
            unit,
            attempts,
            answer,
            root,
        ).0,
        _ => now,
    }
}

/// What is known after a round: several events, each with the answer that its unit would
/// give.
pub open spec fn round(
    units: UnitsModel,
    news: Seq<(Notice, Option<PathModel>)>,
    root: Option<PathModel>,
) -> UnitsModel
    decreases news.len(),
{
    if news.len() == 0 {
        units
    } else {
        after_event(round(units, news.drop_last(), root), news.last().0, news.last().1, root)
    }
}

/// The unit that news is of.
pub open spec fn unit_of(notice: Notice) -> Seq<char> {
    match notice {
        Notice::New(_, unit, _) => unit,
        Notice::Removed(unit) => unit,
    }
}

/// No two pieces of news are of the same unit.
pub open spec fn distinct(notices: Seq<Notice>) -> bool {
    forall|i: int, j: int|
        0 <= i < j < notices.len() ==> unit_of(#[trigger] notices[i]) != unit_of(
            #[trigger] notices[j],
        )
}

/// Whether a unit was reported as new, with so many attempts, and not as removed since.
pub open spec fn reported(
    news: Seq<(Notice, Option<PathModel>)>,
    name: Seq<char>,
    unit: Seq<char>,
    attempts: int,
) -> bool {
    exists|k: int|
        0 <= k < news.len() && ((#[trigger] news[k]).0 matches Notice::New(n, u, a) && n == name
            && u == unit && a == attempts) && stands_after(news, unit, k)
}

/// Whether no removal of a unit comes after a place.
pub open spec fn stands_after(
    news: Seq<(Notice, Option<PathModel>)>,
    unit: Seq<char>,
    place: int,
) -> bool {
    forall|m: int| place < m < news.len() ==> (#[trigger] news[m]).0 != Notice::Removed(unit)
}

/// Whether a retry is one for a unit without a known cgroup, which was reported in the
/// round with one attempt less, and not as removed since.
pub open spec fn justified(
    units: UnitsModel,
    news: Seq<(Notice, Option<PathModel>)>,
    retry: Notice,
) -> bool {
    match retry {
        Notice::New(name, unit, attempts) => {
            &&& table::find(units.cgroups, unit) is None
            &&& reported(news, name, unit, attempts - 1)
            &&& attempts <= RETRIES
        },
        Notice::Removed(_) => false,
    }
}

/// What holds of the retries within a round.
spec fn tidy(units: UnitsModel, news: Seq<(Notice, Option<PathModel>)>) -> bool {
    &&& distinct(units.retries)
    &&& forall|i: int|
        0 <= i < units.retries.len() ==> justified(units, news, #[trigger] units.retries[i])
            && units.seen.contains(unit_of(units.retries[i]))
}

proof fn lemma_withdrawn_distinct(notices: Seq<Notice>, unit: Seq<char>)
    requires
        distinct(notices),
    ensures
        distinct(withdrawn(notices, unit)),
    decreases notices.len(),
{
    if notices.len() > 0 {
        let front = notices.drop_last();
        let rest = withdrawn(front, unit);
        let result = withdrawn(notices, unit);
        assert forall|i: int, j: int| 0 <= i < j < front.len() implies unit_of(
            #[trigger] front[i],
        ) != unit_of(#[trigger] front[j]) by {
            assert(front[i] == notices[i] && front[j] == notices[j]);
        }
        lemma_withdrawn_distinct(front, unit);
        lemma_withdrawn(front, unit);
        assert forall|i: int, j: int| 0 <= i < j < result.len() implies unit_of(
            #[trigger] result[i],
        ) != unit_of(#[trigger] result[j]) by {
            assert(result[i] == rest[i]);
            if j < rest.len() {
                assert(result[j] == rest[j]);
            } else {
                assert(front.contains(rest[i]));
                let k = choose|k: int| 0 <= k < front.len() && front[k] == rest[i];
                assert(notices[k] == rest[i]);
                assert(notices[notices.len() - 1] == result[j]);
            }
        }
    }
}

/// What was reported stays reported as more news comes.
proof fn lemma_justified(
    before: UnitsModel,
    units: UnitsModel,
    news: Seq<(Notice, Option<PathModel>)>,
    retry: Notice,
)
    requires
        news.len() > 0,
        justified(before, news.drop_last(), retry),
        news.last().0 != Notice::Removed(unit_of(retry)),
        table::find(units.cgroups, unit_of(retry)) == table::find(
            before.cgroups,
            unit_of(retry),
        ),
    ensures
        justified(units, news, retry),
{
    if let Notice::New(name, unit, attempts) = retry {
        let front = news.drop_last();
        let k = choose|k: int|
            0 <= k < front.len() && ((#[trigger] front[k]).0 matches Notice::New(n, u, a) && n
                == name && u == unit && a == attempts - 1) && stands_after(front, unit, k);
        assert(news[k] == front[k]);
        assert forall|m: int| k < m < news.len() implies (#[trigger] news[m]).0
            != Notice::Removed(unit) by {
            if m < front.len() {
                assert(news[m] == front[m]);
            }
        }
        assert(stands_after(news, unit, k));
    }
}

proof fn lemma_tidy(
    units: UnitsModel,
    news: Seq<(Notice, Option<PathModel>)>,
    root: Option<PathModel>,
)
    requires
        units.seen.len() == 0,
        units.retries.len() == 0,
    ensures
        tidy(round(units, news, root), news),
    decreases news.len(),
{
    if news.len() > 0 {
        let front = news.drop_last();
        let before = round(units, front, root);
        let now = round(units, news, root);
        let (notice, answer) = news.last();
        lemma_tidy(units, front, root);
        match notice {
            Notice::Removed(unit) => {
                lemma_removed(before.cgroups, unit);
                lemma_unseen(before.seen, unit);
                lemma_withdrawn(before.retries, unit);
                lemma_withdrawn_distinct(before.retries, unit);
                assert forall|i: int| 0 <= i < now.retries.len() implies justified(
                    now,
                    news,
                    #[trigger] now.retries[i],
                ) && now.seen.contains(unit_of(now.retries[i])) by {
                    let retry = now.retries[i];
                    assert(before.retries.contains(retry));
                    let k = choose|k: int| 0 <= k < before.retries.len() && before.retries[k]
                        == retry;
                    assert(justified(before, front, before.retries[k]));
                    assert(!is_new(retry, unit));
                    lemma_justified(before, now, news, retry);
                }
            },
            Notice::New(name, unit, attempts) => {
                lemma_removed(before.cgroups, unit);
                let known = table::find(before.cgroups, unit) is Some || before.seen.contains(unit);
                if !known {
                    assert(now.seen =~= before.seen.push(unit));
                    assert(now.seen[before.seen.len() as int] == unit);
                }
                assert forall|i: int| 0 <= i < now.retries.len() implies justified(
                    now,
                    news,
                    #[trigger] now.retries[i],
                ) && now.seen.contains(unit_of(now.retries[i])) by {
                    let retry = now.retries[i];
                    if i < before.retries.len() {
                        assert(retry == before.retries[i]);
                        assert(before.seen.contains(unit_of(retry)));
                        let k = choose|k: int| 0 <= k < before.seen.len() && before.seen[k]
                            == unit_of(retry);
                        assert(now.seen[k] == unit_of(retry));
                        if now.cgroups != before.cgroups {
                            assert(now.cgroups.drop_last() =~= removed(before.cgroups, unit));
                            assert(now.cgroups.last().0 == unit);
                            assert(unit_of(retry) != unit);
                            assert(table::find(now.cgroups, unit_of(retry)) == table::find(
                                removed(before.cgroups, unit),
                                unit_of(retry),
                            ));
                        }
                        lemma_justified(before, now, news, retry);
                    } else {
                        assert(news[news.len() - 1].0 == notice);
                        assert(stands_after(news, unit, news.len() - 1));
                    }
                }
                assert forall|i: int, j: int| 0 <= i < j < now.retries.len() implies unit_of(
                    #[trigger] now.retries[i],
                ) != unit_of(#[trigger] now.retries[j]) by {
                    assert(now.retries[i] == before.retries[i]);
                    if j < before.retries.len() {
                        assert(now.retries[j] == before.retries[j]);
                    } else {
                        assert(before.seen.contains(unit_of(before.retries[i])));
                    }
                }
            },
        }
    }
}

/// After a round there is at most one retry for each unit. Each is for a unit whose
/// cgroup is not known, which was reported as new in the round and not as removed since, and
/// counts one attempt more.
pub proof fn a_round_retries_what_is_unresolved(
    units: UnitsModel,
    news: Seq<(Notice, Option<PathModel>)>,
    root: Option<PathModel>,
)
    requires
        units.seen.len() == 0,
        units.retries.len() == 0,
    ensures
        distinct(round(units, news, root).retries),
        forall|i: int|
            0 <= i < round(units, news, root).retries.len() ==> justified(
                round(units, news, root),
                news,
                #[trigger] round(units, news, root).retries[i],
            ),
{
    lemma_tidy(units, news, root);
}

/// What a unit answers decides, whatever its name and however often it was asked before. If
/// it names an application cgroup beneath the root, that is to be registered and is known
/// from then on. If it names another cgroup, nothing changes. Of the other units nothing
/// changes, and no retry is made.
pub proof fn a_named_cgroup_is_registered(
    units: UnitsModel,
    name: Seq<char>,
    unit: Seq<char>,
    attempts: u8,
    path: PathModel,
    root: Option<PathModel>,
)
    ensures
        ({
            let (now, register) = on_answer(units, name, unit, attempts, Some(path), root);
            &&& now.seen == units.seen
            &&& now.retries == units.retries
            &&& forall|other: Seq<char>|
                other != unit ==> #[trigger] table::find(now.cgroups, other) == table::find(
                    units.cgroups,
                    other,
                )
            &&& if root is Some && path::application_cgroup(root->0, path) {
                register == Some(path) && table::find(now.cgroups, unit) == Some(path)
            } else {
                register is None && now == units
            }
        }),
{
    let now = on_answer(units, name, unit, attempts, Some(path), root).0;
    lemma_removed(units.cgroups, unit);
    if root is Some && path::application_cgroup(root->0, path) {
        assert(now.cgroups.drop_last() =~= removed(units.cgroups, unit));
        assert(now.cgroups.last() == (unit, path));
        assert forall|other: Seq<char>|
            other != unit implies #[trigger] table::find(now.cgroups, other) == table::find(
            units.cgroups,
            other,
        ) by {
            assert(table::find(now.cgroups, other) == table::find(
                removed(units.cgroups, unit),
                other,
            ));
        }
    }
}

/// A unit that names no cgroup is looked at once more, up to ten times, with one attempt
/// more each time. Nothing else changes, and nothing is to be registered.
pub proof fn a_unit_without_a_cgroup_is_retried(
    units: UnitsModel,
    name: Seq<char>,
    unit: Seq<char>,
    attempts: u8,
    root: Option<PathModel>,
)
    ensures
        ({
            let (now, register) = on_answer(units, name, unit, attempts, None, root);
            &&& register is None
            &&& now.cgroups == units.cgroups
            &&& now.seen == units.seen
            &&& attempts >= 10 ==> now.retries == units.retries
            &&& attempts < 10 ==> now.retries == units.retries + seq![
                Notice::New(name, unit, (attempts + 1) as u8),
            ]
        }),
{
    let now = on_answer(units, name, unit, attempts, None, root).0;
    if attempts < 10 {
        assert(now.retries =~= units.retries + seq![
            Notice::New(name, unit, (attempts + 1) as u8),
        ]);
    }
}

/// What comes behind the last dot of a unit's name tells its kind, whatever stands before
/// it. Services, scopes, slices and sockets have cgroups; other kinds have none, and neither
/// has a name without a dot.
pub proof fn the_kind_of_a_unit_tells_its_interface(stem: Seq<char>, kind: Seq<char>)
    requires
        !kind.contains('.'),
    ensures
        kind == "service"@ ==> interface(stem + seq!['.'] + kind) == Some(
            "org.freedesktop.systemd1.Service"@,
        ),
        kind == "scope"@ ==> interface(stem + seq!['.'] + kind) == Some(
            "org.freedesktop.systemd1.Scope"@,
        ),
        kind == "slice"@ ==> interface(stem + seq!['.'] + kind) == Some(
            "org.freedesktop.systemd1.Slice"@,
        ),
        kind == "socket"@ ==> interface(stem + seq!['.'] + kind) == Some(
            "org.freedesktop.systemd1.Socket"@,
        ),
        kind != "service"@ && kind != "scope"@ && kind != "slice"@ && kind != "socket"@
            ==> interface(stem + seq!['.'] + kind) is None,
        interface(kind) is None,
{
    let name = stem + seq!['.'] + kind;
    let dot = stem.len() as int;
    assert forall|i: int| dot < i < name.len() implies #[trigger] name[i] != '.' by {
        assert(name[i] == kind[i - dot - 1]);
        assert(kind.contains(kind[i - dot - 1]));
    }
    lemma_suffix(name, dot);
    assert(name.skip(dot + 1) =~= kind);
    assert forall|i: int| 0 <= i < kind.len() implies #[trigger] kind[i] != '.' by {
        assert(kind.contains(kind[i]));
    }
    lemma_no_suffix(kind);
    reveal_strlit("service");
    reveal_strlit("scope");
    reveal_strlit("slice");
    reveal_strlit("socket");
    assert("service"@.len() == 7 && "scope"@.len() == 5 && "slice"@.len() == 5 && "socket"@.len()
        == 6);
    assert("scope"@[1] == 'c' && "slice"@[1] == 'l');
}

/// The cgroup file system, as the components of its path.
proof fn lemma_file_system()
    ensures
        path::components_of(encode_utf8("/sys/fs/cgroup"@)) == seq![
            seq![47u8],
            seq![115u8, 121u8, 115u8],
            seq![102u8, 115u8],
            seq![99u8, 103u8, 114u8, 111u8, 117u8, 112u8],
        ],
{
    let word = "/sys/fs/cgroup"@;
    let bytes = encode_utf8(word);
    let sys = seq![115u8, 121u8, 115u8];
    let fs = seq![102u8, 115u8];
    let cgroup = seq![99u8, 103u8, 114u8, 111u8, 117u8, 112u8];
    let none = Seq::<Seq<u8>>::empty();
    reveal_strlit("/sys/fs/cgroup");
    is_ascii_chars_encode_utf8(word);
    assert(bytes =~= seq![47u8] + (sys + seq![47u8] + fs + seq![47u8] + cgroup)) by {
        assert forall|i: int| 0 <= i < word.len() implies bytes[i] == word[i] as u8 by {
            assert(encode_utf8(word)[i] == word[i] as u8);
        }
    }
    let rest = sys + seq![47u8] + fs + seq![47u8] + cgroup;
    path::an_absolute_path_stands_alone(none, rest);
    let root = seq![seq![47u8]];
    path::names_are_appended_in_turn(root, sys + seq![47u8] + fs, cgroup);
    path::names_are_appended_in_turn(root, sys, fs);
    assert(!sys.contains(47u8));
    assert(!fs.contains(47u8));
    assert(!cgroup.contains(47u8));
    assert(sys.len() != seq![46u8].len() && fs.len() != seq![46u8].len() && cgroup.len()
        != seq![46u8].len());
    path::a_name_is_appended(root, sys);
    path::a_name_is_appended(root.push(sys), fs);
    path::a_name_is_appended(root.push(sys).push(fs), cgroup);
    assert(path::components_of(bytes) =~= root.push(sys).push(fs).push(cgroup));
    assert(root.push(sys).push(fs).push(cgroup) =~= seq![seq![47u8], sys, fs, cgroup]);
}

/// What a unit names is a path in the cgroup file system, `/sys/fs/cgroup`, with or without
/// slashes in front. The empty text names nothing.
pub proof fn a_unit_names_a_path_in_the_file_system(content: Seq<char>)
    ensures
        control_group(Seq::empty()) is None,
        content.len() > 0 ==> control_group(seq!['/'] + content) == control_group(content),
        control_group(seq!['/']) == Some(
            seq![
                seq![47u8],
                seq![115u8, 121u8, 115u8],
                seq![102u8, 115u8],
                seq![99u8, 103u8, 114u8, 111u8, 117u8, 112u8],
            ],
        ),
        content.len() > 0 && content[0] != '/' ==> control_group(content) == Some(
            path::joined(
                seq![
                    seq![47u8],
                    seq![115u8, 121u8, 115u8],
                    seq![102u8, 115u8],
                    seq![99u8, 103u8, 114u8, 111u8, 117u8, 112u8],
                ],
                encode_utf8(content),
            ),
        ),
{
    lemma_file_system();
    let slash = seq!['/'];
    assert((slash + content).drop_first() =~= content);
    assert(slash.drop_first() =~= Seq::<char>::empty());
    let none = Seq::<u8>::empty();
    assert(encode_utf8(Seq::<char>::empty()) =~= none);
    assert(without_slashes(Seq::<char>::empty()) == Seq::<char>::empty());
    assert(without_slashes(slash) == without_slashes(slash.drop_first()));
    assert(!none.contains(47u8));
    path::a_name_is_appended(path::components_of(encode_utf8("/sys/fs/cgroup"@)), none);
}

/// A new unit is looked at once: unless its cgroup is known or it was looked at in this
/// round, it counts as looked at, and is asked through the interface of its kind if it has
/// one, with its attempts as they were. Nothing else changes.
pub proof fn a_new_unit_is_asked(units: UnitsModel, name: Seq<char>, unit: Seq<char>, attempts: u8)
    ensures
        ({
            let (now, deed) = on_event(units, Notice::New(name, unit, attempts));
            &&& now.cgroups == units.cgroups
            &&& now.retries == units.retries
            &&& forall|other: Seq<char>| #[trigger]
                now.seen.contains(other) <==> units.seen.contains(other) || other == unit
                    && table::find(units.cgroups, unit) is None
            &&& if table::find(units.cgroups, unit) is Some || units.seen.contains(unit) {
                deed == Deed::Nothing
            } else {
                match interface(name) {
                    Some(interface) => deed == Deed::Ask(name, unit, attempts, interface),
                    None => deed == Deed::Nothing,
                }
            }
        }),
{
    let now = on_event(units, Notice::New(name, unit, attempts)).0;
    if !(table::find(units.cgroups, unit) is Some || units.seen.contains(unit)) {
        assert forall|other: Seq<char>| #[trigger]
            now.seen.contains(other) <==> units.seen.contains(other) || other == unit by {
            if units.seen.contains(other) {
                let k = choose|k: int| 0 <= k < units.seen.len() && units.seen[k] == other;
                assert(now.seen[k] == other);
            }
            assert(now.seen[units.seen.len() as int] == unit);
        }
    }
}

/// What was not withdrawn is still there.
proof fn lemma_not_withdrawn(notices: Seq<Notice>, unit: Seq<char>, notice: Notice)
    requires
        notices.contains(notice),
        !is_new(notice, unit),
    ensures
        withdrawn(notices, unit).contains(notice),
    decreases notices.len(),
{
    let front = notices.drop_last();
    let rest = withdrawn(front, unit);
    let result = withdrawn(notices, unit);
    if notices.last() == notice {
        assert(result[rest.len() as int] == notice);
    } else {
        let k = choose|k: int| 0 <= k < notices.len() && notices[k] == notice;
        assert(front[k] == notice);
        lemma_not_withdrawn(front, unit, notice);
        let m = choose|m: int| 0 <= m < rest.len() && rest[m] == notice;
        assert(result[m] == notice);
    }
}

/// When a unit is gone its cgroup is let go, if that is known. Of all other units everything
/// stays as it was.
pub proof fn a_removed_unit_is_let_go(units: UnitsModel, unit: Seq<char>)
    ensures
        ({
            let (now, deed) = on_event(units, Notice::Removed(unit));
            &&& deed == match table::find(units.cgroups, unit) {
                Some(path) => Deed::Untrack(path),
                None => Deed::Nothing,
            }
            &&& forall|other: Seq<char>|
                other != unit ==> #[trigger] table::find(now.cgroups, other) == table::find(
                    units.cgroups,
                    other,
                )
            &&& forall|other: Seq<char>|
                other != unit ==> #[trigger] now.seen.contains(other) == units.seen.contains(other)
            &&& forall|notice: Notice|
                unit_of(notice) != unit ==> #[trigger] now.retries.contains(notice)
                    == units.retries.contains(notice)
        }),
{
    let now = on_event(units, Notice::Removed(unit)).0;
    lemma_removed(units.cgroups, unit);
    lemma_unseen(units.seen, unit);
    assert forall|notice: Notice|
        unit_of(notice) != unit implies #[trigger] now.retries.contains(notice)
        == units.retries.contains(notice) by {
        if units.retries.contains(notice) {
            lemma_not_withdrawn(units.retries, unit, notice);
        }
        if now.retries.contains(notice) {
            lemma_withdrawn(units.retries, unit);
            let k = choose|k: int| 0 <= k < now.retries.len() && now.retries[k] == notice;
            assert(units.retries.contains(now.retries[k]));
        }
    }
}

/// No unit is in a table twice.
pub open spec fn units_differ(cgroups: Seq<(Seq<char>, PathModel)>) -> bool {
    forall|i: int, j: int|
        0 <= i < j < cgroups.len() ==> (#[trigger] cgroups[i]).0 != (#[trigger] cgroups[j]).0
}

/// Of the units that are known, exactly those are kept whose cgroup is an application cgroup
/// beneath the root. Without a root none is.
pub proof fn only_applications_are_kept(
    cgroups: Seq<(Seq<char>, PathModel)>,
    root: Option<PathModel>,
    unit: Seq<char>,
)
    requires
        units_differ(cgroups),
    ensures
        table::find(within(cgroups, root), unit) == match (root, table::find(cgroups, unit)) {
            (Some(root), Some(path)) => if path::application_cgroup(root, path) {
                Some(path)
            } else {
                None
            },
            _ => None,
        },
    decreases cgroups.len(),
{
    if cgroups.len() > 0 {
        let front = cgroups.drop_last();
        assert forall|i: int, j: int| 0 <= i < j < front.len() implies (#[trigger] front[i]).0 != (
        #[trigger] front[j]).0 by {
            assert(front[i] == cgroups[i] && front[j] == cgroups[j]);
        }
        only_applications_are_kept(front, root, unit);
        let rest = within(front, root);
        let result = within(cgroups, root);
        if cgroups.last().0 == unit && table::find(front, unit) is Some {
            let i = table::lemma_find_index(front, unit);
            assert(cgroups[i].0 != cgroups[cgroups.len() - 1].0);
        }
        if result.len() > rest.len() {
            assert(result.drop_last() =~= rest);
        }
    }
}

/// News of other units changes nothing of a unit.
proof fn lemma_other_news(
    units: UnitsModel,
    notice: Notice,
    answer: Option<PathModel>,
    root: Option<PathModel>,
    unit: Seq<char>,
)
    requires
        unit_of(notice) != unit,
    ensures
        ({
            let now = after_event(units, notice, answer, root);
            &&& table::find(now.cgroups, unit) == table::find(units.cgroups, unit)
            &&& now.seen.contains(unit) == units.seen.contains(unit)
            &&& forall|retry: Notice|
                unit_of(retry) == unit ==> #[trigger] now.retries.contains(retry)
                    == units.retries.contains(retry)
        }),
{
    match notice {
        Notice::Removed(other) => {
            a_removed_unit_is_let_go(units, other);
        },
        Notice::New(name, other, attempts) => {
            a_new_unit_is_asked(units, name, other, attempts);
            let (mid, deed) = on_event(units, notice);
            if deed is Ask {
                match answer {
                    Some(path) => {
                        a_named_cgroup_is_registered(mid, name, other, attempts, path, root);
                    },
                    None => {
                        a_unit_without_a_cgroup_is_retried(mid, name, other, attempts, root);
                        let now = after_event(units, notice, answer, root);
                        assert forall|retry: Notice|
                            unit_of(retry) == unit implies #[trigger] now.retries.contains(retry)
                            == units.retries.contains(retry) by {
                            if units.retries.contains(retry) {
                                let k = choose|k: int|
                                    0 <= k < units.retries.len() && units.retries[k] == retry;
                                assert(now.retries[k] == retry);
                            }
                            if now.retries.contains(retry) {
                                let k = choose|k: int|
                                    0 <= k < now.retries.len() && now.retries[k] == retry;
                                assert(k < units.retries.len());
                                assert(units.retries[k] == retry);
                            }
                        }
                    },
                }
            }
        },
    }
}

proof fn lemma_other_round(
    units: UnitsModel,
    news: Seq<(Notice, Option<PathModel>)>,
    root: Option<PathModel>,
    unit: Seq<char>,
)
    requires
        forall|m: int| 0 <= m < news.len() ==> unit_of((#[trigger] news[m]).0) != unit,
    ensures
        table::find(round(units, news, root).cgroups, unit) == table::find(units.cgroups, unit),
        round(units, news, root).seen.contains(unit) == units.seen.contains(unit),
    decreases news.len(),
{
    if news.len() > 0 {
        let front = news.drop_last();
        assert forall|m: int| 0 <= m < front.len() implies unit_of((#[trigger] front[m]).0)
            != unit by {
            assert(front[m] == news[m]);
        }
        lemma_other_round(units, front, root, unit);
        assert(unit_of(news[news.len() - 1].0) != unit);
        lemma_other_news(
            round(units, front, root),
            news.last().0,
            news.last().1,
            root,
            unit,
        );
    }
}

/// After a round every unit that has been reported as new and is of a kind that has a cgroup
/// is known with the application cgroup that it names, or is to be looked at again if it
/// names none, unless it has been removed since. It counts by the first report in the round,
/// if it was not known or looked at before.
pub proof fn a_round_learns_what_units_name(
    units: UnitsModel,
    news: Seq<(Notice, Option<PathModel>)>,
    root: Option<PathModel>,
    k: int,
    name: Seq<char>,
    unit: Seq<char>,
    attempts: u8,
)
    requires
        0 <= k < news.len(),
        news[k].0 == Notice::New(name, unit, attempts),
        interface(name) is Some,
        table::find(units.cgroups, unit) is None,
        !units.seen.contains(unit),
        forall|m: int| 0 <= m < k ==> unit_of((#[trigger] news[m]).0) != unit,
        forall|m: int| k < m < news.len() ==> (#[trigger] news[m]).0 != Notice::Removed(unit),
    ensures
        ({
            let now = round(units, news, root);
            &&& news[k].1 matches Some(path) ==> (root is Some && path::application_cgroup(
                root->0,
                path,
            ) ==> table::find(now.cgroups, unit) == Some(path))
            &&& news[k].1 is None && attempts < 10 ==> now.retries.contains(
                Notice::New(name, unit, (attempts + 1) as u8),
            )
            &&& now.seen.contains(unit)
        }),
    decreases news.len(),
{
    let front = news.drop_last();
    let before = round(units, front, root);
    let now = round(units, news, root);
    let (notice, answer) = news.last();
    if k == news.len() - 1 {
        assert forall|m: int| 0 <= m < front.len() implies unit_of((#[trigger] front[m]).0)
            != unit by {
            assert(front[m] == news[m]);
        }
        lemma_other_round(units, front, root, unit);
        a_new_unit_is_asked(before, name, unit, attempts);
        let mid = on_event(before, notice).0;
        assert(mid.seen.contains(unit));
        match answer {
            Some(path) => {
                a_named_cgroup_is_registered(mid, name, unit, attempts, path, root);
            },
            None => {
                a_unit_without_a_cgroup_is_retried(mid, name, unit, attempts, root);
                if attempts < 10 {
                    assert(now.retries[mid.retries.len() as int] == Notice::New(
                        name,
                        unit,
                        (attempts + 1) as u8,
                    ));
                }
            },
        }
    } else {
        assert forall|m: int| 0 <= m < k implies unit_of((#[trigger] front[m]).0) != unit by {
            assert(front[m] == news[m]);
        }
        assert forall|m: int| k < m < front.len() implies (#[trigger] front[m]).0
            != Notice::Removed(unit) by {
            assert(front[m] == news[m]);
        }
        assert(front[k] == news[k]);
        a_round_learns_what_units_name(units, front, root, k, name, unit, attempts);
        assert(news[news.len() - 1].0 != Notice::Removed(unit));
        if unit_of(notice) == unit {
            if let Notice::New(again, _, more) = notice {
                a_new_unit_is_asked(before, again, unit, more);
                assert(on_event(before, notice).1 == Deed::Nothing);
            }
        } else {
            lemma_other_news(before, notice, answer, root, unit);
        }
    }
}

}
