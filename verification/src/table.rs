//! Tables keyed by dmem region, kept in the order of the regions' names.

use crate::text;
use vstd::prelude::*;

verus! {

/// Whether a text comes before another in the order of their code points,
/// which is also the order of their UTF-8 bytes.
pub open spec fn before(a: Seq<char>, b: Seq<char>) -> bool
    decreases a.len(),
{
    if b.len() == 0 {
        false
    } else if a.len() == 0 {
        true
    } else if a[0] != b[0] {
        a[0] < b[0]
    } else {
        before(a.drop_first(), b.drop_first())
    }
}

/// The value filed under a region.
pub open spec fn find<V>(table: Seq<(Seq<char>, V)>, region: Seq<char>) -> Option<V>
    decreases table.len(),
{
    if table.len() == 0 {
        None
    } else if table.last().0 == region {
        Some(table.last().1)
    } else {
        find(table.drop_last(), region)
    }
}

/// The table with a region's value set, in its place in the order.
pub open spec fn put<V>(table: Seq<(Seq<char>, V)>, region: Seq<char>, value: V) -> Seq<
    (Seq<char>, V),
>
    decreases table.len(),
{
    if table.len() == 0 {
        seq![(region, value)]
    } else if table.last().0 == region {
        table.drop_last().push((region, value))
    } else if before(table.last().0, region) {
        table.push((region, value))
    } else {
        put(table.drop_last(), region, value).push(table.last())
    }
}

/// The regions stand in strictly increasing order, so none occurs twice.
pub open spec fn ordered<V>(table: Seq<(Seq<char>, V)>) -> bool {
    forall|i: int, j: int|
        0 <= i < j < table.len() ==> before(#[trigger] table[i].0, #[trigger] table[j].0)
}

pub proof fn lemma_before_irreflexive(a: Seq<char>)
    ensures
        !before(a, a),
    decreases a.len(),
{
    if a.len() > 0 {
        lemma_before_irreflexive(a.drop_first());
    }
}

pub proof fn lemma_before_transitive(a: Seq<char>, b: Seq<char>, c: Seq<char>)
    requires
        before(a, b),
        before(b, c),
    ensures
        before(a, c),
    decreases a.len(),
{
    if a.len() > 0 && a[0] == b[0] && b[0] == c[0] {
        lemma_before_transitive(a.drop_first(), b.drop_first(), c.drop_first());
    }
}

pub proof fn lemma_before_total(a: Seq<char>, b: Seq<char>)
    ensures
        before(a, b) || before(b, a) || a == b,
    decreases a.len(),
{
    if a.len() > 0 && b.len() > 0 && a[0] == b[0] {
        lemma_before_total(a.drop_first(), b.drop_first());
        if a.drop_first() == b.drop_first() {
            assert(a =~= seq![a[0]] + a.drop_first());
            assert(b =~= seq![b[0]] + b.drop_first());
        }
    } else if a.len() == 0 && b.len() == 0 {
        assert(a =~= b);
    }
}

/// What `find` gives is an entry of the table.
pub proof fn lemma_find_index<V>(table: Seq<(Seq<char>, V)>, region: Seq<char>) -> (i: int)
    requires
        find(table, region) is Some,
    ensures
        0 <= i < table.len(),
        table[i] == (region, find(table, region)->0),
    decreases table.len(),
{
    if table.last().0 == region {
        table.len() - 1
    } else {
        lemma_find_index(table.drop_last(), region)
    }
}

/// An entry of an ordered table is what `find` gives for its region.
pub proof fn lemma_find_entry<V>(table: Seq<(Seq<char>, V)>, i: int)
    requires
        ordered(table),
        0 <= i < table.len(),
    ensures
        find(table, table[i].0) == Some(table[i].1),
    decreases table.len(),
{
    if i < table.len() - 1 {
        lemma_before_irreflexive(table[i].0);
        assert(before(table[i].0, table.last().0));
        lemma_ordered_front(table);
        lemma_find_entry(table.drop_last(), i);
    }
}

pub proof fn lemma_ordered_front<V>(table: Seq<(Seq<char>, V)>)
    requires
        ordered(table),
        table.len() > 0,
    ensures
        ordered(table.drop_last()),
{
    let front = table.drop_last();
    assert forall|i: int, j: int| 0 <= i < j < front.len() implies before(
        #[trigger] front[i].0,
        #[trigger] front[j].0,
    ) by {
        assert(front[i] == table[i] && front[j] == table[j]);
    }
}

/// Setting a region's value keeps the order, gives that value for that region and
/// leaves all others alone.
pub proof fn lemma_put<V>(table: Seq<(Seq<char>, V)>, region: Seq<char>, value: V)
    requires
        ordered(table),
    ensures
        ordered(put(table, region, value)),
        find(put(table, region, value), region) == Some(value),
        forall|other: Seq<char>|
            other != region ==> #[trigger] find(put(table, region, value), other) == find(
                table,
                other,
            ),
        forall|i: int|
            0 <= i < put(table, region, value).len() ==> {
                let entry = #[trigger] put(table, region, value)[i];
                entry == (region, value) || table.contains(entry)
            },
    decreases table.len(),
{
    let result = put(table, region, value);
    if table.len() == 0 {
        assert(result.drop_last() =~= table);
    } else {
        let front = table.drop_last();
        let last = table.last();
        lemma_ordered_front(table);
        if last.0 == region {
            assert(result.drop_last() =~= front);
            assert forall|i: int, j: int| 0 <= i < j < result.len() implies before(
                #[trigger] result[i].0,
                #[trigger] result[j].0,
            ) by {
                assert(result[i].0 == table[i].0 && result[j].0 == table[j].0);
            }
        } else if before(last.0, region) {
            assert(result.drop_last() =~= table);
            assert forall|i: int, j: int| 0 <= i < j < result.len() implies before(
                #[trigger] result[i].0,
                #[trigger] result[j].0,
            ) by {
                assert(result[i] == table[i]);
                if j == table.len() {
                    if i < table.len() - 1 {
                        assert(before(table[i].0, last.0));
                        lemma_before_transitive(table[i].0, last.0, region);
                    }
                } else {
                    assert(result[j] == table[j]);
                }
            }
        } else {
            lemma_put(front, region, value);
            lemma_before_total(last.0, region);
            let inner = put(front, region, value);
            assert(result.drop_last() =~= inner);
            assert forall|i: int, j: int| 0 <= i < j < result.len() implies before(
                #[trigger] result[i].0,
                #[trigger] result[j].0,
            ) by {
                assert(result[i] == inner[i]);
                if j == inner.len() {
                    if inner[i] != (region, value) {
                        let k = choose|k: int| 0 <= k < front.len() && front[k] == inner[i];
                        assert(before(table[k].0, table[front.len() as int].0));
                    }
                } else {
                    assert(result[j] == inner[j]);
                }
            }
            assert forall|other: Seq<char>| other != region implies #[trigger] find(result, other)
                == find(table, other) by {
                assert(find(inner, other) == find(front, other));
            }
            assert forall|i: int| 0 <= i < result.len() implies {
                let entry = #[trigger] result[i];
                entry == (region, value) || table.contains(entry)
            } by {
                if i < inner.len() {
                    assert(result[i] == inner[i]);
                    if inner[i] != (region, value) {
                        let k = choose|k: int| 0 <= k < front.len() && front[k] == inner[i];
                        assert(table[k] == inner[i]);
                    }
                } else {
                    assert(result[i] == table[table.len() - 1]);
                }
            }
        }
    }
}

/// A region that comes after all others is put at the end.
pub proof fn lemma_put_last<V>(table: Seq<(Seq<char>, V)>, region: Seq<char>, value: V)
    requires
        forall|i: int| 0 <= i < table.len() ==> before(#[trigger] table[i].0, region),
    ensures
        put(table, region, value) == table.push((region, value)),
        find(table, region) is None,
    decreases table.len(),
{
    lemma_before_irreflexive(region);
    if table.len() == 0 {
        assert(table.push((region, value)) =~= seq![(region, value)]);
    } else {
        assert(before(table[table.len() - 1].0, region));
        let front = table.drop_last();
        assert forall|i: int| 0 <= i < front.len() implies before(
            #[trigger] front[i].0,
            region,
        ) by {
            assert(front[i] == table[i]);
        }
        lemma_put_last(front, region, value);
    }
}

/// A table from regions to values.
pub struct RegionMap<V> {
    entries: Vec<(String, V)>,
}

impl<V> View for RegionMap<V> {
    type V = Seq<(Seq<char>, V)>;

    closed spec fn view(&self) -> Seq<(Seq<char>, V)> {
        self.entries@.map_values(|e: (String, V)| (e.0@, e.1))
    }
}

fn comes_before(a: &str, b: &str) -> (less: bool)
    ensures
        less == before(a@, b@),
{
    let left = text::characters(a);
    let right = text::characters(b);
    let mut i: usize = 0;
    proof {
        assert(a@.skip(0) =~= a@ && b@.skip(0) =~= b@);
    }
    while i < left.len() && i < right.len() && left[i] == right[i]
        invariant
            left@ == a@,
            right@ == b@,
            i <= a@.len(),
            i <= b@.len(),
            before(a@, b@) == before(a@.skip(i as int), b@.skip(i as int)),
        decreases a@.len() - i,
    {
        proof {
            assert(a@.skip(i as int).drop_first() =~= a@.skip(i + 1));
            assert(b@.skip(i as int).drop_first() =~= b@.skip(i + 1));
        }
        i = i + 1;
    }
    if i == right.len() {
        false
    } else if i == left.len() {
        true
    } else {
        left[i] < right[i]
    }
}

impl<V> RegionMap<V> {
    /// The regions of a table stand in order.
    #[verifier::type_invariant]
    spec fn in_order(self) -> bool {
        ordered(self@)
    }
}

impl<V: Copy> RegionMap<V> {
    /// An empty table.
    pub fn new() -> (table: Self)
        ensures
            table@ == Seq::<(Seq<char>, V)>::empty(),
    {
        let table = RegionMap { entries: Vec::new() };
        assert(table@ =~= Seq::<(Seq<char>, V)>::empty());
        table
    }

    /// The number of regions.
    pub fn len(&self) -> (len: usize)
        ensures
            len == self@.len(),
            ordered(self@),
    {
        proof {
            use_type_invariant(self);
        }
        self.entries.len()
    }

    /// Whether there is no region.
    pub fn is_empty(&self) -> (empty: bool)
        ensures
            empty == (self@.len() == 0),
    {
        self.entries.len() == 0
    }

    /// The region at a place in the order.
    pub fn region(&self, i: usize) -> (region: &String)
        requires
            i < self@.len(),
        ensures
            region@ == self@[i as int].0,
    {
        &self.entries[i].0
    }

    /// The value at a place in the order.
    pub fn value(&self, i: usize) -> (value: V)
        requires
            i < self@.len(),
        ensures
            value == self@[i as int].1,
    {
        self.entries[i].1
    }

    /// The value filed under a region.
    pub fn get(&self, region: &String) -> (value: Option<V>)
        ensures
            value == find(self@, region@),
            ordered(self@),
    {
        let mut i: usize = self.entries.len();
        proof {
            use_type_invariant(self);
            assert(self@.take(self@.len() as int) =~= self@);
        }
        while i > 0
            invariant
                i <= self@.len(),
                self@.len() == self.entries@.len(),
                ordered(self@),
                find(self@.take(i as int), region@) == find(self@, region@),
            decreases i,
        {
            let ghost seen = self@.take(i as int);
            i = i - 1;
            proof {
                assert(seen.drop_last() =~= self@.take(i as int));
                assert(seen.last() == self@[i as int]);
            }
            if self.entries[i].0 == *region {
                return Some(self.entries[i].1);
            }
        }
        None
    }

    /// Sets a region's value. Says whether the region had one before.
    pub fn insert(&mut self, region: String, value: V) -> (existed: bool)
        ensures
            final(self)@ == put(old(self)@, region@, value),
            existed == (find(old(self)@, region@) is Some),
    {
        proof {
            use_type_invariant(&*self);
            lemma_put(self@, region@, value);
        }
        let existed = self.get(&region).is_some();
        let ghost table = self@;
        let ghost key = region@;
        let mut entries: Vec<(String, V)> = Vec::new();
        std::mem::swap(&mut entries, &mut self.entries);
        let mut i: usize = entries.len();
        let ghost all = entries@;
        let ghost views = |e: (String, V)| (e.0@, e.1);
        proof {
            assert(table.take(table.len() as int) =~= table);
            assert(put(table, key, value) + Seq::<(Seq<char>, V)>::empty() =~= put(
                table,
                key,
                value,
            ));
            assert(table.skip(table.len() as int) =~= Seq::<(Seq<char>, V)>::empty());
        }
        while i > 0 && entries[i - 1].0 != region && !comes_before(
            entries[i - 1].0.as_str(),
            region.as_str(),
        )
            invariant
                i <= entries@.len(),
                entries@ == all,
                region@ == key,
                table == all.map_values(views),
                views == (|e: (String, V)| (e.0@, e.1)),
                put(table, key, value) == put(table.take(i as int), key, value) + table.skip(
                    i as int,
                ),
            decreases i,
        {
            proof {
                let seen = table.take(i as int);
                assert(seen.drop_last() =~= table.take(i - 1));
                assert(seen.last() == table[i - 1]);
                assert(put(seen.drop_last(), key, value).push(seen.last()) + table.skip(i as int)
                    =~= put(table.take(i - 1), key, value) + table.skip(i - 1));
            }
            i = i - 1;
        }
        let ghost seen = table.take(i as int);
        if i > 0 && entries[i - 1].0 == region {
            entries[i - 1] = (region, value);
            proof {
                assert(seen.last() == table[i - 1]);
                assert(entries@.map_values(views) =~= seen.drop_last().push((key, value))
                    + table.skip(i as int));
            }
        } else {
            entries.insert(i, (region, value));
            proof {
                if i > 0 {
                    assert(seen.last() == table[i - 1]);
                }
                assert(entries@.map_values(views) =~= seen.push((key, value)) + table.skip(
                    i as int,
                ));
                assert(seen.len() == 0 ==> seen.push((key, value)) =~= seq![(key, value)]);
            }
        }
        self.entries = entries;
        existed
    }
}

/// Of two texts that begin in the same way, the one that ends there comes first. Otherwise
/// that one does whose first character that differs is smaller.
pub proof fn the_first_difference_decides(
    same: Seq<char>,
    a: Seq<char>,
    b: Seq<char>,
)
    ensures
        before(same + a, same + b) <==> before(a, b),
        !before(a, Seq::empty()),
        before(Seq::empty(), a) <==> a.len() > 0,
        a.len() > 0 && b.len() > 0 && a[0] < b[0] ==> before(same + a, same + b),
        a.len() > 0 && b.len() > 0 && a[0] > b[0] ==> !before(same + a, same + b),
    decreases same.len(),
{
    if same.len() > 0 {
        let rest = same.drop_first();
        assert((same + a).drop_first() =~= rest + a);
        assert((same + b).drop_first() =~= rest + b);
        assert((same + a)[0] == same[0] && (same + b)[0] == same[0]);
        the_first_difference_decides(rest, a, b);
    } else {
        assert(same + a =~= a);
        assert(same + b =~= b);
    }
}

}
