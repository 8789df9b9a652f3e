//! Sets of paths, and tables keyed by path.

use crate::path::{CgroupPath, PathModel};
use vstd::prelude::*;

verus! {

/// The set with a path in it.
pub open spec fn with(set: Seq<PathModel>, path: PathModel) -> Seq<PathModel> {
    if set.contains(path) {
        set
    } else {
        set.push(path)
    }
}

/// The set with all the paths of a sequence in it.
pub open spec fn with_all(set: Seq<PathModel>, more: Seq<PathModel>) -> Seq<PathModel>
    decreases more.len(),
{
    if more.len() == 0 {
        set
    } else {
        with(with_all(set, more.drop_last()), more.last())
    }
}

/// The set without a path.
pub open spec fn without(set: Seq<PathModel>, path: PathModel) -> Seq<PathModel>
    decreases set.len(),
{
    if set.len() == 0 {
        set
    } else {
        let rest = without(set.drop_last(), path);
        if set.last() == path {
            rest
        } else {
            rest.push(set.last())
        }
    }
}

/// The value filed under a path.
pub open spec fn lookup<V>(table: Seq<(PathModel, V)>, path: PathModel) -> Option<V>
    decreases table.len(),
{
    if table.len() == 0 {
        None
    } else if table.last().0 == path {
        Some(table.last().1)
    } else {
        lookup(table.drop_last(), path)
    }
}

/// The table without a path.
pub open spec fn dropped<V>(table: Seq<(PathModel, V)>, path: PathModel) -> Seq<(PathModel, V)>
    decreases table.len(),
{
    if table.len() == 0 {
        table
    } else {
        let rest = dropped(table.drop_last(), path);
        if table.last().0 == path {
            rest
        } else {
            rest.push(table.last())
        }
    }
}

/// The table with a value filed under a path.
pub open spec fn filed<V>(table: Seq<(PathModel, V)>, path: PathModel, value: V) -> Seq<
    (PathModel, V),
> {
    dropped(table, path).push((path, value))
}

/// The paths of a table.
pub open spec fn keys<V>(table: Seq<(PathModel, V)>) -> Seq<PathModel> {
    Seq::new(table.len(), |i: int| table[i].0)
}

pub proof fn lemma_with(set: Seq<PathModel>, path: PathModel)
    ensures
        forall|p: PathModel| #[trigger]
            with(set, path).contains(p) <==> set.contains(p) || p == path,
        set.no_duplicates() ==> with(set, path).no_duplicates(),
{
    let result = with(set, path);
    if !set.contains(path) {
        assert forall|p: PathModel| #[trigger] result.contains(p) <==> set.contains(p) || p
            == path by {
            if set.contains(p) {
                let k = choose|k: int| 0 <= k < set.len() && set[k] == p;
                assert(result[k] == p);
            }
            if p == path {
                assert(result[set.len() as int] == p);
            }
        }
    }
}

pub proof fn lemma_without(set: Seq<PathModel>, path: PathModel)
    ensures
        forall|p: PathModel| #[trigger]
            without(set, path).contains(p) <==> set.contains(p) && p != path,
        set.no_duplicates() ==> without(set, path).no_duplicates(),
        without(set, path).len() <= set.len(),
    decreases set.len(),
{
    if set.len() > 0 {
        let front = set.drop_last();
        let last = set.last();
        lemma_without(front, path);
        let rest = without(front, path);
        let result = without(set, path);
        assert forall|p: PathModel| #[trigger] result.contains(p) <==> set.contains(p) && p
            != path by {
            if result.contains(p) {
                let k = choose|k: int| 0 <= k < result.len() && result[k] == p;
                if k < rest.len() {
                    assert(rest[k] == p);
                    assert(rest.contains(p));
                    let m = choose|m: int| 0 <= m < front.len() && front[m] == p;
                    assert(set[m] == p);
                } else {
                    assert(set[set.len() - 1] == p);
                }
            }
            if set.contains(p) && p != path {
                let m = choose|m: int| 0 <= m < set.len() && set[m] == p;
                if m < front.len() {
                    assert(front[m] == p);
                    assert(rest.contains(p));
                    let k = choose|k: int| 0 <= k < rest.len() && rest[k] == p;
                    assert(result[k] == p);
                } else {
                    assert(result[rest.len() as int] == p);
                }
            }
        }
        if set.no_duplicates() {
            assert(front.no_duplicates());
            assert(!front.contains(last));
            assert(!rest.contains(last));
            assert(result.no_duplicates());
        }
    }
}

pub proof fn lemma_with_all(set: Seq<PathModel>, more: Seq<PathModel>)
    ensures
        forall|p: PathModel| #[trigger]
            with_all(set, more).contains(p) <==> set.contains(p) || more.contains(p),
        set.no_duplicates() ==> with_all(set, more).no_duplicates(),
    decreases more.len(),
{
    if more.len() > 0 {
        let front = more.drop_last();
        lemma_with_all(set, front);
        lemma_with(with_all(set, front), more.last());
        assert forall|p: PathModel| #[trigger] with_all(set, more).contains(p) <==> set.contains(p)
            || more.contains(p) by {
            assert(with_all(set, front).contains(p) <==> set.contains(p) || front.contains(p));
            if front.contains(p) {
                let k = choose|k: int| 0 <= k < front.len() && front[k] == p;
                assert(more[k] == p);
            }
            if more.contains(p) {
                let k = choose|k: int| 0 <= k < more.len() && more[k] == p;
                if k < front.len() {
                    assert(front[k] == p);
                }
            }
            assert(more[more.len() - 1] == more.last());
        }
    }
}

pub proof fn lemma_lookup_keys<V>(table: Seq<(PathModel, V)>, path: PathModel)
    ensures
        lookup(table, path) is Some <==> keys(table).contains(path),
    decreases table.len(),
{
    if table.len() > 0 {
        let front = table.drop_last();
        lemma_lookup_keys(front, path);
        if keys(front).contains(path) {
            let k = choose|k: int| 0 <= k < front.len() && keys(front)[k] == path;
            assert(keys(table)[k] == path);
        }
        if keys(table).contains(path) {
            let k = choose|k: int| 0 <= k < table.len() && keys(table)[k] == path;
            if k < front.len() {
                assert(keys(front)[k] == path);
            }
        }
        assert(keys(table)[table.len() - 1] == table.last().0);
    }
}

/// The paths of a table without a path are its paths without that one.
pub proof fn lemma_dropped_keys<V>(table: Seq<(PathModel, V)>, path: PathModel)
    ensures
        keys(dropped(table, path)) == without(keys(table), path),
    decreases table.len(),
{
    if table.len() > 0 {
        let front = table.drop_last();
        lemma_dropped_keys(front, path);
        assert(keys(table).drop_last() =~= keys(front));
        assert(keys(table).last() == table.last().0);
        let rest = dropped(front, path);
        assert(keys(rest.push(table.last())) =~= keys(rest).push(table.last().0));
    } else {
        assert(keys(table) =~= Seq::<PathModel>::empty());
        assert(keys(dropped(table, path)) =~= without(keys(table), path));
    }
}

pub proof fn lemma_dropped<V>(table: Seq<(PathModel, V)>, path: PathModel)
    ensures
        lookup(dropped(table, path), path) is None,
        forall|p: PathModel|
            p != path ==> #[trigger] lookup(dropped(table, path), p) == lookup(table, p),
        keys(table).no_duplicates() ==> keys(dropped(table, path)).no_duplicates(),
    decreases table.len(),
{
    lemma_dropped_keys(table, path);
    lemma_without(keys(table), path);
    if table.len() > 0 {
        let front = table.drop_last();
        lemma_dropped(front, path);
        let rest = dropped(front, path);
        assert(rest.push(table.last()).drop_last() =~= rest);
        assert forall|p: PathModel| p != path implies #[trigger] lookup(dropped(table, path), p)
            == lookup(table, p) by {
            assert(lookup(rest, p) == lookup(front, p));
        }
    }
}

pub proof fn lemma_filed<V>(table: Seq<(PathModel, V)>, path: PathModel, value: V)
    ensures
        lookup(filed(table, path, value), path) == Some(value),
        forall|p: PathModel|
            p != path ==> #[trigger] lookup(filed(table, path, value), p) == lookup(table, p),
        keys(filed(table, path, value)) == without(keys(table), path).push(path),
        keys(table).no_duplicates() ==> keys(filed(table, path, value)).no_duplicates(),
{
    lemma_dropped(table, path);
    lemma_dropped_keys(table, path);
    let rest = dropped(table, path);
    let result = filed(table, path, value);
    assert(result.drop_last() =~= rest);
    assert forall|p: PathModel| p != path implies #[trigger] lookup(result, p) == lookup(
        table,
        p,
    ) by {
        assert(lookup(rest, p) == lookup(table, p));
    }
    assert(keys(result) =~= keys(rest).push(path));
    lemma_without(keys(table), path);
    assert(!without(keys(table), path).contains(path));
}

/// A set of paths.
pub struct PathSet {
    items: Vec<CgroupPath>,
}

impl View for PathSet {
    type V = Seq<PathModel>;

    closed spec fn view(&self) -> Seq<PathModel> {
        self.items@.map_values(|p: CgroupPath| p@)
    }
}

impl PathSet {
    /// Nothing occurs twice.
    #[verifier::type_invariant]
    spec fn distinct(self) -> bool {
        self@.no_duplicates()
    }

    /// The empty set.
    pub fn new() -> (set: Self)
        ensures
            set@ == Seq::<PathModel>::empty(),
    {
        let set = PathSet { items: Vec::new() };
        assert(set@ =~= Seq::<PathModel>::empty());
        set
    }

    /// The number of paths.
    pub fn len(&self) -> (len: usize)
        ensures
            len == self@.len(),
            self@.no_duplicates(),
    {
        proof {
            use_type_invariant(self);
        }
        self.items.len()
    }

    /// Whether there is no path.
    pub fn is_empty(&self) -> (empty: bool)
        ensures
            empty == (self@.len() == 0),
    {
        self.items.len() == 0
    }

    /// The path at a place.
    pub fn at(&self, i: usize) -> (path: &CgroupPath)
        requires
            i < self@.len(),
        ensures
            path@ == self@[i as int],
    {
        &self.items[i]
    }

    /// Whether a path is in the set.
    pub fn contains(&self, path: &CgroupPath) -> (found: bool)
        ensures
            found == self@.contains(path@),
    {
        let mut i: usize = 0;
        while i < self.items.len()
            invariant
                i <= self@.len(),
                self@.len() == self.items@.len(),
                forall|j: int| 0 <= j < i ==> #[trigger] self@[j] != path@,
            decreases self@.len() - i,
        {
            let same = self.items[i].same(path);
            assert(self@[i as int] == self.items@[i as int]@);
            if same {
                return true;
            }
            i = i + 1;
        }
        false
    }

    /// Puts a path into the set. Says whether it was not there before.
    pub fn insert(&mut self, path: CgroupPath) -> (new: bool)
        ensures
            final(self)@ == with(old(self)@, path@),
            new == !old(self)@.contains(path@),
    {
        proof {
            use_type_invariant(&*self);
            lemma_with(self@, path@);
        }
        let found = self.contains(&path);
        if !found {
            let ghost set = self@;
            let ghost added = path@;
            let mut items: Vec<CgroupPath> = Vec::new();
            std::mem::swap(&mut items, &mut self.items);
            items.push(path);
            proof {
                assert(items@.map_values(|p: CgroupPath| p@) =~= set.push(added));
            }
            self.items = items;
        }
        !found
    }

    /// Takes a path out of the set.
    pub fn remove(&mut self, path: &CgroupPath)
        ensures
            final(self)@ == without(old(self)@, path@),
    {
        proof {
            use_type_invariant(&*self);
            lemma_without(self@, path@);
        }
        let ghost all = self@;
        let mut items: Vec<CgroupPath> = Vec::new();
        std::mem::swap(&mut items, &mut self.items);
        let mut kept: usize = 0;
        let ghost views = |p: CgroupPath| p@;
        let ghost mut done: int = 0;
        proof {
            assert(without(all.take(0), path@) + all.skip(0) =~= all);
        }
        while kept < items.len()
            invariant
                0 <= done <= all.len(),
                kept == without(all.take(done), path@).len(),
                views == (|p: CgroupPath| p@),
                items@.map_values(views) == without(all.take(done), path@) + all.skip(done),
            decreases items@.len() - kept,
        {
            let same = items[kept].same(path);
            proof {
                assert(items@.map_values(views)[kept as int] == items@[kept as int]@);
                assert(all.take(done + 1).drop_last() =~= all.take(done));
                assert(all.take(done + 1).last() == all[done]);
                assert(items@[kept as int]@ == all[done]);
            }
            if same {
                let ghost was = items@;
                items.remove(kept);
                proof {
                    assert(items@.map_values(views) =~= was.map_values(views).remove(kept as int));
                    assert(items@.map_values(views) =~= without(all.take(done + 1), path@)
                        + all.skip(done + 1));
                }
            } else {
                proof {
                    assert(items@.map_values(views) =~= without(all.take(done + 1), path@)
                        + all.skip(done + 1));
                }
                kept = kept + 1;
            }
            proof {
                done = done + 1;
            }
        }
        proof {
            assert(items@.map_values(views).len() == kept + all.skip(done).len());
            assert(all.take(done) =~= all);
            assert(items@.map_values(views) =~= without(all, path@));
        }
        self.items = items;
    }

    /// Puts all the paths of another set into this one.
    pub fn extend(&mut self, more: &PathSet)
        ensures
            final(self)@ == with_all(old(self)@, more@),
    {
        let mut i: usize = 0;
        let ghost before = self@;
        proof {
            assert(more@.take(0) =~= Seq::<PathModel>::empty());
        }
        while i < more.len()
            invariant
                i <= more@.len(),
                self@ == with_all(before, more@.take(i as int)),
            decreases more@.len() - i,
        {
            proof {
                assert(more@.take(i + 1).drop_last() =~= more@.take(i as int));
                assert(more@.take(i + 1).last() == more@[i as int]);
            }
            self.insert(more.at(i).duplicate());
            i = i + 1;
        }
        proof {
            assert(more@.take(i as int) =~= more@);
        }
    }

    /// Puts several paths into the set.
    pub fn add_all(&mut self, more: &Vec<CgroupPath>)
        ensures
            final(self)@ == with_all(old(self)@, path_views(more@)),
    {
        let mut i: usize = 0;
        let ghost before = self@;
        let ghost models = path_views(more@);
        proof {
            assert(models.take(0) =~= Seq::<PathModel>::empty());
        }
        while i < more.len()
            invariant
                i <= more@.len(),
                models == path_views(more@),
                self@ == with_all(before, models.take(i as int)),
            decreases more@.len() - i,
        {
            proof {
                assert(models.take(i + 1).drop_last() =~= models.take(i as int));
                assert(models.take(i + 1).last() == more@[i as int]@);
            }
            self.insert(more[i].duplicate());
            i = i + 1;
        }
        proof {
            assert(models.take(i as int) =~= models);
        }
    }

    /// The paths of the set.
    pub fn to_vec(&self) -> (paths: Vec<CgroupPath>)
        ensures
            path_views(paths@) == self@,
            self@.no_duplicates(),
    {
        let mut paths: Vec<CgroupPath> = Vec::new();
        let mut i: usize = 0;
        while i < self.len()
            invariant
                i <= self@.len(),
                path_views(paths@) == self@.take(i as int),
            decreases self@.len() - i,
        {
            let path = self.at(i).duplicate();
            proof {
                assert(path_views(paths@.push(path)) =~= path_views(paths@).push(path@));
                assert(self@.take(i + 1) =~= self@.take(i as int).push(self@[i as int]));
            }
            paths.push(path);
            i = i + 1;
        }
        proof {
            use_type_invariant(self);
            assert(self@.take(i as int) =~= self@);
        }
        paths
    }

    /// A copy of the set.
    pub fn duplicate(&self) -> (copy: Self)
        ensures
            copy@ == self@,
    {
        let mut items: Vec<CgroupPath> = Vec::new();
        let mut i: usize = 0;
        let ghost views = |p: CgroupPath| p@;
        while i < self.items.len()
            invariant
                i <= self.items@.len(),
                self@ == self.items@.map_values(views),
                views == (|p: CgroupPath| p@),
                items@.map_values(views) == self@.take(i as int),
            decreases self.items@.len() - i,
        {
            let path = self.items[i].duplicate();
            proof {
                assert(items@.push(path).map_values(views) =~= items@.map_values(views).push(
                    path@,
                ));
                assert(self@.take(i + 1) =~= self@.take(i as int).push(self@[i as int]));
            }
            items.push(path);
            i = i + 1;
        }
        proof {
            use_type_invariant(self);
            assert(self@.take(i as int) =~= self@);
        }
        PathSet { items }
    }
}

/// A table from paths to values.
pub struct PathMap<V> {
    entries: Vec<(CgroupPath, V)>,
}

impl<V: View> View for PathMap<V> {
    type V = Seq<(PathModel, V::V)>;

    closed spec fn view(&self) -> Seq<(PathModel, V::V)> {
        entry_views(self.entries@)
    }
}

/// The models of the entries of a table.
pub open spec fn entry_views<V: View>(entries: Seq<(CgroupPath, V)>) -> Seq<(PathModel, V::V)> {
    entries.map_values(|e: (CgroupPath, V)| (e.0@, e.1@))
}

impl<V> PathMap<V> {
    /// No path occurs twice.
    #[verifier::type_invariant]
    spec fn distinct(self) -> bool {
        forall|i: int, j: int|
            0 <= i < j < self.entries@.len() ==> (#[trigger] self.entries@[i]).0@ != (
            #[trigger] self.entries@[j]).0@
    }
}

proof fn lemma_distinct_keys<V: View>(entries: Seq<(CgroupPath, V)>)
    requires
        forall|i: int, j: int|
            0 <= i < j < entries.len() ==> (#[trigger] entries[i]).0@ != (#[trigger] entries[j]).0@,
    ensures
        keys(entry_views(entries)).no_duplicates(),
{
    let all = keys(entry_views(entries));
    assert forall|i: int, j: int| 0 <= i < all.len() && 0 <= j < all.len() && i != j implies all[i]
        != all[j] by {
        assert(all[i] == entries[i].0@ && all[j] == entries[j].0@);
        if i < j {
            assert(entries[i].0@ != entries[j].0@);
        } else {
            assert(entries[j].0@ != entries[i].0@);
        }
    }
}

proof fn lemma_distinct_entries<V: View>(entries: Seq<(CgroupPath, V)>)
    requires
        keys(entry_views(entries)).no_duplicates(),
    ensures
        forall|i: int, j: int|
            0 <= i < j < entries.len() ==> (#[trigger] entries[i]).0@ != (#[trigger] entries[j]).0@,
{
    assert forall|i: int, j: int| 0 <= i < j < entries.len() implies (#[trigger] entries[i]).0@ != (
    #[trigger] entries[j]).0@ by {
        assert(keys(entry_views(entries))[i] == entries[i].0@);
        assert(keys(entry_views(entries))[j] == entries[j].0@);
    }
}

impl<V: View> PathMap<V> {
    /// The empty table.
    pub fn new() -> (table: Self)
        ensures
            table@ == Seq::<(PathModel, V::V)>::empty(),
    {
        let table = PathMap { entries: Vec::new() };
        assert(table@ =~= Seq::<(PathModel, V::V)>::empty());
        table
    }

    /// The number of paths.
    pub fn len(&self) -> (len: usize)
        ensures
            len == self@.len(),
    {
        self.entries.len()
    }

    /// The path at a place.
    pub fn key(&self, i: usize) -> (path: &CgroupPath)
        requires
            i < self@.len(),
        ensures
            path@ == self@[i as int].0,
    {
        &self.entries[i].0
    }

    /// The value at a place.
    pub fn value(&self, i: usize) -> (value: &V)
        requires
            i < self@.len(),
        ensures
            value@ == self@[i as int].1,
    {
        &self.entries[i].1
    }

    /// The value filed under a path.
    pub fn get(&self, path: &CgroupPath) -> (value: Option<&V>)
        ensures
            match lookup(self@, path@) {
                Some(v) => value matches Some(found) && found@ == v,
                None => value is None,
            },
    {
        let mut i: usize = self.entries.len();
        proof {
            assert(self@.take(self@.len() as int) =~= self@);
        }
        while i > 0
            invariant
                i <= self@.len(),
                self@.len() == self.entries@.len(),
                lookup(self@.take(i as int), path@) == lookup(self@, path@),
            decreases i,
        {
            let ghost seen = self@.take(i as int);
            i = i - 1;
            proof {
                assert(seen.drop_last() =~= self@.take(i as int));
                assert(seen.last() == self@[i as int]);
            }
            if self.entries[i].0.same(path) {
                return Some(&self.entries[i].1);
            }
        }
        None
    }

    /// Whether a path has a value.
    pub fn contains(&self, path: &CgroupPath) -> (found: bool)
        ensures
            found == (lookup(self@, path@) is Some),
    {
        self.get(path).is_some()
    }

    /// Takes a path out of the table.
    pub fn remove(&mut self, path: &CgroupPath)
        ensures
            final(self)@ == dropped(old(self)@, path@),
    {
        let ghost all = self@;
        proof {
            use_type_invariant(&*self);
            lemma_distinct_keys(self.entries@);
        }
        let mut entries: Vec<(CgroupPath, V)> = Vec::new();
        std::mem::swap(&mut entries, &mut self.entries);
        let mut kept: usize = 0;
        let ghost mut done: int = 0;
        proof {
            assert(dropped(all.take(0), path@) + all.skip(0) =~= all);
        }
        while kept < entries.len()
            invariant
                0 <= done <= all.len(),
                kept == dropped(all.take(done), path@).len(),
                entry_views(entries@) == dropped(all.take(done), path@) + all.skip(done),
            decreases entries@.len() - kept,
        {
            let same = entries[kept].0.same(path);
            proof {
                assert(entry_views(entries@)[kept as int].0 == entries@[kept as int].0@);
                assert(all.take(done + 1).drop_last() =~= all.take(done));
                assert(all.take(done + 1).last() == all[done]);
                assert(entry_views(entries@)[kept as int] == all[done]);
            }
            if same {
                let ghost was = entry_views(entries@);
                entries.remove(kept);
                proof {
                    assert(entry_views(entries@) =~= was.remove(kept as int));
                    assert(entry_views(entries@) =~= dropped(all.take(done + 1), path@) + all.skip(
                        done + 1,
                    ));
                }
            } else {
                proof {
                    assert(entry_views(entries@) =~= dropped(all.take(done + 1), path@) + all.skip(
                        done + 1,
                    ));
                }
                kept = kept + 1;
            }
            proof {
                done = done + 1;
            }
        }
        proof {
            assert(entry_views(entries@).len() == kept + all.skip(done).len());
            assert(all.take(done) =~= all);
            assert(entry_views(entries@) =~= dropped(all, path@));
            lemma_dropped(all, path@);
            lemma_distinct_entries(entries@);
        }
        self.entries = entries;
    }

    /// Files a value under a path.
    pub fn insert(&mut self, path: CgroupPath, value: V)
        ensures
            final(self)@ == filed(old(self)@, path@, value@),
    {
        let ghost all = self@;
        let ghost added = (path@, value@);
        proof {
            use_type_invariant(&*self);
            lemma_distinct_keys(self.entries@);
            lemma_filed(all, path@, value@);
        }
        self.remove(&path);
        let mut entries: Vec<(CgroupPath, V)> = Vec::new();
        std::mem::swap(&mut entries, &mut self.entries);
        entries.push((path, value));
        proof {
            assert(entry_views(entries@) =~= dropped(all, added.0).push(added));
            lemma_distinct_entries(entries@);
        }
        self.entries = entries;
    }

    /// The paths of the table.
    pub fn paths(&self) -> (paths: Vec<CgroupPath>)
        ensures
            path_views(paths@) == keys(self@),
            keys(self@).no_duplicates(),
    {
        proof {
            use_type_invariant(self);
            lemma_distinct_keys(self.entries@);
        }
        let mut paths: Vec<CgroupPath> = Vec::new();
        let mut i: usize = 0;
        while i < self.entries.len()
            invariant
                i <= self@.len(),
                self@.len() == self.entries@.len(),
                path_views(paths@) == keys(self@).take(i as int),
            decreases self@.len() - i,
        {
            let path = self.entries[i].0.duplicate();
            proof {
                assert(path@ == keys(self@)[i as int]);
                assert(path_views(paths@.push(path)) =~= path_views(paths@).push(path@));
                assert(keys(self@).take(i + 1) =~= keys(self@).take(i as int).push(
                    keys(self@)[i as int],
                ));
            }
            paths.push(path);
            i = i + 1;
        }
        proof {
            assert(keys(self@).take(i as int) =~= keys(self@));
        }
        paths
    }
}

/// The models of a sequence of paths.
pub open spec fn path_views(paths: Seq<CgroupPath>) -> Seq<PathModel> {
    paths.map_values(|p: CgroupPath| p@)
}

/// The path filed under a watch.
pub open spec fn watched(table: Seq<(i32, PathModel)>, watch: i32) -> Option<PathModel>
    decreases table.len(),
{
    if table.len() == 0 {
        None
    } else if table.last().0 == watch {
        Some(table.last().1)
    } else {
        watched(table.drop_last(), watch)
    }
}

/// The table without a watch.
pub open spec fn unwatched(table: Seq<(i32, PathModel)>, watch: i32) -> Seq<(i32, PathModel)>
    decreases table.len(),
{
    if table.len() == 0 {
        table
    } else {
        let rest = unwatched(table.drop_last(), watch);
        if table.last().0 == watch {
            rest
        } else {
            rest.push(table.last())
        }
    }
}

/// A table from watches to the paths that they watch.
pub struct WatchMap {
    entries: Vec<(i32, CgroupPath)>,
}

impl View for WatchMap {
    type V = Seq<(i32, PathModel)>;

    closed spec fn view(&self) -> Seq<(i32, PathModel)> {
        self.entries@.map_values(|e: (i32, CgroupPath)| (e.0, e.1@))
    }
}

impl WatchMap {
    /// The empty table.
    pub fn new() -> (table: Self)
        ensures
            table@ == Seq::<(i32, PathModel)>::empty(),
    {
        let table = WatchMap { entries: Vec::new() };
        assert(table@ =~= Seq::<(i32, PathModel)>::empty());
        table
    }

    /// The number of watches.
    pub fn len(&self) -> (len: usize)
        ensures
            len == self@.len(),
    {
        self.entries.len()
    }

    /// The path that a watch watches.
    pub fn get(&self, watch: i32) -> (path: Option<&CgroupPath>)
        ensures
            match watched(self@, watch) {
                Some(p) => path matches Some(found) && found@ == p,
                None => path is None,
            },
    {
        let mut i: usize = self.entries.len();
        proof {
            assert(self@.take(self@.len() as int) =~= self@);
        }
        while i > 0
            invariant
                i <= self@.len(),
                self@.len() == self.entries@.len(),
                watched(self@.take(i as int), watch) == watched(self@, watch),
            decreases i,
        {
            let ghost seen = self@.take(i as int);
            i = i - 1;
            proof {
                assert(seen.drop_last() =~= self@.take(i as int));
                assert(seen.last() == self@[i as int]);
            }
            if self.entries[i].0 == watch {
                return Some(&self.entries[i].1);
            }
        }
        None
    }

    /// Takes a watch out of the table.
    pub fn remove(&mut self, watch: i32)
        ensures
            final(self)@ == unwatched(old(self)@, watch),
    {
        let ghost all = self@;
        let mut kept: usize = 0;
        let ghost mut done: int = 0;
        proof {
            assert(unwatched(all.take(0), watch) + all.skip(0) =~= all);
        }
        while kept < self.entries.len()
            invariant
                0 <= done <= all.len(),
                kept == unwatched(all.take(done), watch).len(),
                self@ == unwatched(all.take(done), watch) + all.skip(done),
                self@.len() == self.entries@.len(),
            decreases self.entries@.len() - kept,
        {
            proof {
                assert(self@[kept as int].0 == self.entries@[kept as int].0);
                assert(all.take(done + 1).drop_last() =~= all.take(done));
                assert(all.take(done + 1).last() == all[done]);
                assert(self@[kept as int] == all[done]);
            }
            if self.entries[kept].0 == watch {
                let ghost was = self@;
                self.entries.remove(kept);
                proof {
                    assert(self@ =~= was.remove(kept as int));
                    assert(self@ =~= unwatched(all.take(done + 1), watch) + all.skip(done + 1));
                }
            } else {
                proof {
                    assert(self@ =~= unwatched(all.take(done + 1), watch) + all.skip(done + 1));
                }
                kept = kept + 1;
            }
            proof {
                done = done + 1;
            }
        }
        proof {
            assert(self@.len() == kept + all.skip(done).len());
            assert(all.take(done) =~= all);
            assert(self@ =~= unwatched(all, watch));
        }
    }

    /// Files a path under a watch.
    pub fn insert(&mut self, watch: i32, path: CgroupPath)
        ensures
            final(self)@ == unwatched(old(self)@, watch).push((watch, path@)),
    {
        self.remove(watch);
        let ghost rest = self@;
        let ghost added = (watch, path@);
        self.entries.push((watch, path));
        assert(self@ =~= rest.push(added));
    }
}

}
