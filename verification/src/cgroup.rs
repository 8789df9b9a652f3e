//! Device-memory limits of cgroups: their values, and the files that list them.

use crate::table;
use crate::table::RegionMap;
use crate::text;
use vstd::prelude::*;
use vstd::string::*;

verus! {

/// A limit: a number of bytes, or no limit at all.
#[derive(Clone, Copy, Debug, Eq, Ord, PartialEq, PartialOrd, Structural)]
pub enum DmemValue {
    Finite(u64),
    Max,
}

/// Limits by region.
pub type DmemValues = RegionMap<DmemValue>;

/// The limits of a `dmem` file as a table.
pub type ValuesModel = Seq<(Seq<char>, DmemValue)>;

/// Whether a limit is no larger than another. `Max` is larger than every number.
pub open spec fn at_most(a: DmemValue, b: DmemValue) -> bool {
    match (a, b) {
        (_, DmemValue::Max) => true,
        (DmemValue::Max, DmemValue::Finite(_)) => false,
        (DmemValue::Finite(x), DmemValue::Finite(y)) => x <= y,
    }
}

/// The larger of two limits.
pub open spec fn larger(a: DmemValue, b: DmemValue) -> DmemValue {
    if at_most(a, b) {
        b
    } else {
        a
    }
}

/// The limit that a word stands for: `max`, or a number.
pub open spec fn value_of(word: Seq<char>) -> Option<DmemValue> {
    if word == "max"@ {
        Some(DmemValue::Max)
    } else {
        match text::number(word) {
            Some(n) => Some(DmemValue::Finite(n)),
            None => None,
        }
    }
}

/// The word for a limit.
pub open spec fn value_text(value: DmemValue) -> Seq<char> {
    match value {
        DmemValue::Finite(n) => text::decimal(n as nat),
        DmemValue::Max => "max"@,
    }
}

/// A region's name: not empty, and without white space.
pub open spec fn region_ok(region: Seq<char>) -> bool {
    region.len() > 0 && forall|i: int|
        0 <= i < region.len() ==> !text::is_white_space(#[trigger] region[i])
}

/// What a line of a `dmem` file says: a region and its limit.
pub open spec fn dmem_line(line: Seq<char>) -> Result<(Seq<char>, DmemValue), &'static str> {
    let words = text::words(line);
    if words.len() == 0 {
        Err("missing dmem region")
    } else if words.len() == 1 {
        Err("missing dmem value")
    } else if words.len() > 2 || !region_ok(words[0]) {
        Err("invalid dmem line")
    } else {
        match value_of(words[1]) {
            Some(value) => Ok((words[0], value)),
            None => Err("invalid dmem value"),
        }
    }
}

/// The limits that lines add to those known. The first line that is wrong decides
/// the error; a region may occur only once.
pub open spec fn dmem_lines(lines: Seq<Seq<char>>, known: ValuesModel) -> Result<
    ValuesModel,
    &'static str,
>
    decreases lines.len(),
{
    if lines.len() == 0 {
        Ok(known)
    } else {
        match dmem_line(lines[0]) {
            Err(error) => Err(error),
            Ok((region, value)) => if table::find(known, region) is Some {
                Err("duplicate dmem region")
            } else {
                dmem_lines(lines.drop_first(), table::put(known, region, value))
            },
        }
    }
}

/// The limits that a `dmem` file lists.
pub open spec fn dmem_values(content: Seq<char>) -> Result<ValuesModel, &'static str> {
    dmem_lines(text::lines(content), Seq::empty())
}

/// What a write to a `dmem` file says of one region.
pub open spec fn assignment(region: Seq<char>, value: DmemValue) -> Seq<char> {
    region + " "@ + value_text(value)
}

/// A table all of whose regions are valid names.
pub open spec fn regions_ok<V>(table: Seq<(Seq<char>, V)>) -> bool {
    forall|i: int| 0 <= i < table.len() ==> region_ok(#[trigger] table[i].0)
}

proof fn lemma_dmem_lines(lines: Seq<Seq<char>>, known: ValuesModel)
    requires
        table::ordered(known),
        regions_ok(known),
    ensures
        dmem_lines(lines, known) matches Ok(values) ==> table::ordered(values) && regions_ok(
            values,
        ),
    decreases lines.len(),
{
    if lines.len() > 0 {
        if let Ok((region, value)) = dmem_line(lines[0]) {
            if table::find(known, region) is None {
                let more = table::put(known, region, value);
                table::lemma_put(known, region, value);
                assert forall|i: int| 0 <= i < more.len() implies region_ok(
                    #[trigger] more[i].0,
                ) by {
                    if more[i] != (region, value) {
                        let k = choose|k: int| 0 <= k < known.len() && known[k] == more[i];
                        assert(region_ok(known[k].0));
                    }
                }
                lemma_dmem_lines(lines.drop_first(), more);
            }
        }
    }
}

/// The regions that a `dmem` file lists are valid names, each of which occurs
/// once, in order.
pub proof fn parsed_values_are_ordered(content: Seq<char>)
    ensures
        dmem_values(content) matches Ok(values) ==> table::ordered(values) && regions_ok(values),
{
    lemma_dmem_lines(text::lines(content), Seq::empty());
}

/// The notation of a limit that is written: `max`, or a number in its shortest notation.
pub open spec fn canonical_value(word: Seq<char>) -> bool {
    word == "max"@ || text::shortest(word)
}

/// The word that is written for a limit is the word that it was read from exactly if that
/// was in the notation that is written.
pub proof fn value_is_written_back(word: Seq<char>)
    ensures
        value_of(word) matches Some(value) ==> (value_text(value) == word <==> canonical_value(
            word,
        )),
{
    reveal_strlit("max");
    if word != "max"@ {
        if let Some(n) = text::number(word) {
            text::written_is_shortest(n as nat);
            if text::shortest(word) {
                text::shortest_is_written_back(word);
                assert(text::is_digit(word[0]));
                assert(text::unsigned_digits(word) == word);
            }
        }
    }
}

/// Two `dmem` files joined, the first of which ends its last line, list what the first
/// lists and then what the second does; a region may occur only once in both.
pub proof fn joined_files_list_both(first: Seq<char>, second: Seq<char>)
    requires
        first.len() > 0 ==> first.last() == '\n',
    ensures
        dmem_values(first + second) == match dmem_values(first) {
            Err(error) => Err(error),
            Ok(known) => dmem_lines(text::lines(second), known),
        },
{
    text::lemma_lines_joined(first, second);
    lemma_dmem_lines_joined(text::lines(first), text::lines(second), Seq::empty());
}

proof fn lemma_dmem_lines_joined(first: Seq<Seq<char>>, second: Seq<Seq<char>>, known: ValuesModel)
    ensures
        dmem_lines(first + second, known) == match dmem_lines(first, known) {
            Err(error) => Err(error),
            Ok(more) => dmem_lines(second, more),
        },
    decreases first.len(),
{
    if first.len() == 0 {
        assert(first + second =~= second);
    } else {
        assert((first + second)[0] == first[0]);
        assert((first + second).drop_first() =~= first.drop_first() + second);
        if let Ok((region, value)) = dmem_line(first[0]) {
            if table::find(known, region) is None {
                lemma_dmem_lines_joined(
                    first.drop_first(),
                    second,
                    table::put(known, region, value),
                );
            }
        }
    }
}

/// The word for a limit stands for that limit, and has no ASCII blank in it.
pub proof fn value_reads_back(value: DmemValue)
    ensures
        value_of(value_text(value)) == Some(value),
        value_text(value).len() > 0,
        forall|i: int|
            0 <= i < value_text(value).len() ==> !text::is_ascii_blank(
                #[trigger] value_text(value)[i],
            ),
{
    reveal_strlit("max");
    match value {
        DmemValue::Finite(n) => {
            text::lemma_decimal(n as nat);
            text::number_reads_decimal(n);
            let word = text::decimal(n as nat);
            assert(text::is_digit(word[0]));
            assert("max"@[0] == 'm');
            assert(word != "max"@);
            assert forall|i: int| 0 <= i < word.len() implies !text::is_ascii_blank(
                #[trigger] word[i],
            ) by {
                assert(text::is_digit(word[i]));
            }
        },
        DmemValue::Max => {},
    }
}

/// The line for a region and its limit reads as those.
proof fn lemma_assignment(region: Seq<char>, value: DmemValue)
    requires
        region_ok(region),
    ensures
        dmem_line(assignment(region, value)) == Ok::<(Seq<char>, DmemValue), &'static str>(
            (region, value),
        ),
        assignment(region, value).len() > 0,
        forall|i: int|
            0 <= i < assignment(region, value).len() ==> #[trigger] assignment(region, value)[i]
                != '\n' && assignment(region, value)[i] != '\r',
{
    value_reads_back(value);
    reveal_strlit(" ");
    let word = value_text(value);
    let line = assignment(region, value);
    let n = region.len() as int;
    assert forall|i: int| 0 <= i < line.len() implies #[trigger] line[i] != '\n' && line[i]
        != '\r' by {
        if i < n {
            assert(line[i] == region[i]);
            assert(!text::is_white_space(region[i]));
        } else if i > n {
            assert(line[i] == word[i - n - 1]);
        }
    }
    assert forall|i: int| 0 <= i < n implies !text::is_break(
        text::Break::Blank,
        #[trigger] line[i],
    ) by {
        assert(line[i] == region[i]);
        assert(!text::is_white_space(region[i]));
    }
    text::lemma_span(line, text::Break::Blank, n);
    assert(line.take(n) =~= region);
    let rest = line.skip(n);
    text::lemma_span(rest, text::Break::Blank, 0);
    assert(rest.drop_first() =~= word);
    assert forall|i: int| 0 <= i < word.len() implies !text::is_break(
        text::Break::Blank,
        #[trigger] word[i],
    ) by {}
    text::lemma_span(word, text::Break::Blank, word.len() as int);
    assert(word.take(word.len() as int) =~= word);
    assert(word.skip(word.len() as int) =~= Seq::<char>::empty());
    assert(text::words(Seq::<char>::empty()) =~= Seq::<Seq<char>>::empty());
    assert(text::words(word) =~= seq![word]);
    assert(text::words(rest) == seq![word]);
    assert(text::words(line) =~= seq![region, word]);
}

/// A `dmem` file that holds what was written for a region lists that region with
/// that limit.
pub proof fn assignment_reads_back(region: Seq<char>, value: DmemValue)
    requires
        region_ok(region),
    ensures
        dmem_values(assignment(region, value)) == Ok::<ValuesModel, &'static str>(
            seq![(region, value)],
        ),
{
    let line = assignment(region, value);
    lemma_assignment(region, value);
    assert forall|i: int| 0 <= i < line.len() implies !text::is_break(
        text::Break::Line,
        #[trigger] line[i],
    ) by {}
    text::lemma_span(line, text::Break::Line, line.len() as int);
    assert(text::lines(line) =~= seq![line]);
    let entries = seq![line];
    assert(entries.drop_first() =~= Seq::<Seq<char>>::empty());
    assert(dmem_lines(entries.drop_first(), seq![(region, value)]) == Ok::<
        ValuesModel,
        &'static str,
    >(seq![(region, value)]));
}

/// A `dmem` file that lists limits, one region per line.
pub open spec fn listing(values: ValuesModel) -> Seq<char>
    decreases values.len(),
{
    if values.len() == 0 {
        Seq::empty()
    } else {
        listing(values.drop_last()) + assignment(values.last().0, values.last().1) + seq!['\n']
    }
}

spec fn assignments(values: ValuesModel) -> Seq<Seq<char>> {
    values.map_values(|e: (Seq<char>, DmemValue)| assignment(e.0, e.1))
}

proof fn lemma_listing_lines(values: ValuesModel)
    requires
        regions_ok(values),
    ensures
        text::lines(listing(values)) == assignments(values),
        listing(values).len() > 0 ==> listing(values).last() == '\n',
    decreases values.len(),
{
    if values.len() == 0 {
        assert(text::lines(Seq::<char>::empty()) =~= Seq::<Seq<char>>::empty());
        assert(assignments(values) =~= Seq::<Seq<char>>::empty());
    } else {
        let front = values.drop_last();
        let (region, value) = values.last();
        assert forall|i: int| 0 <= i < front.len() implies region_ok(#[trigger] front[i].0) by {
            assert(front[i] == values[i]);
        }
        assert(region_ok(values[values.len() - 1].0));
        lemma_listing_lines(front);
        lemma_assignment(region, value);
        text::lemma_lines_append(listing(front), assignment(region, value));
        assert(assignments(values) =~= assignments(front).push(assignment(region, value)));
    }
}

proof fn lemma_listing_read(values: ValuesModel, i: int)
    requires
        table::ordered(values),
        regions_ok(values),
        0 <= i <= values.len(),
    ensures
        dmem_lines(assignments(values).skip(i), values.take(i)) == Ok::<ValuesModel, &'static str>(
            values,
        ),
    decreases values.len() - i,
{
    let lines = assignments(values).skip(i);
    if i == values.len() {
        assert(values.take(i) =~= values);
    } else {
        let (region, value) = values[i];
        assert(region_ok(values[i].0));
        lemma_assignment(region, value);
        assert(lines[0] == assignment(region, value));
        let known = values.take(i);
        assert forall|j: int| 0 <= j < known.len() implies table::before(
            #[trigger] known[j].0,
            region,
        ) by {
            assert(known[j] == values[j]);
            assert(table::before(values[j].0, values[i].0));
        }
        table::lemma_put_last(known, region, value);
        assert(known.push((region, value)) =~= values.take(i + 1));
        assert(lines.drop_first() =~= assignments(values).skip(i + 1));
        lemma_listing_read(values, i + 1);
    }
}

/// A file that lists limits is read as those limits.
pub proof fn listing_reads_back(values: ValuesModel)
    requires
        table::ordered(values),
        regions_ok(values),
    ensures
        dmem_values(listing(values)) == Ok::<ValuesModel, &'static str>(values),
{
    lemma_listing_lines(values);
    assert(assignments(values).skip(0) =~= assignments(values));
    assert(values.take(0) =~= Seq::<(Seq<char>, DmemValue)>::empty());
    lemma_listing_read(values, 0);
}

impl DmemValue {
    /// Reads a limit.
    pub fn parse(value: &str) -> (parsed: Result<Self, &'static str>)
        ensures
            match value_of(value@) {
                Some(v) => parsed == Ok::<DmemValue, &'static str>(v),
                None => parsed == Err::<DmemValue, &'static str>("invalid dmem value"),
            },
    {
        if text::same_text(value, "max") {
            Ok(DmemValue::Max)
        } else {
            match text::read_number(value) {
                Some(n) => Ok(DmemValue::Finite(n)),
                None => Err("invalid dmem value"),
            }
        }
    }

    /// Writes a limit.
    pub fn text(&self) -> (word: String)
        ensures
            word@ == value_text(*self),
    {
        match self {
            DmemValue::Finite(n) => text::decimal_text(*n),
            DmemValue::Max => "max".to_owned(),
        }
    }

    /// The larger of two limits.
    pub fn larger(self, other: DmemValue) -> (max: DmemValue)
        ensures
            max == larger(self, other),
            max == self || max == other,
            match (self, other) {
                (DmemValue::Finite(x), DmemValue::Finite(y)) => max matches DmemValue::Finite(z)
                    && z >= x && z >= y,
                _ => max == DmemValue::Max,
            },
    {
        match (self, other) {
            (_, DmemValue::Max) => other,
            (DmemValue::Max, DmemValue::Finite(_)) => self,
            (DmemValue::Finite(x), DmemValue::Finite(y)) => if x <= y {
                other
            } else {
                self
            },
        }
    }
}

/// Whether a text names a region.
pub fn valid_region(region: &str) -> (valid: bool)
    ensures
        valid == region_ok(region@),
{
    !region.is_empty() && !text::has_white_space(region)
}

fn read_dmem_line(line: &String) -> (read: Result<(String, DmemValue), &'static str>)
    ensures
        match dmem_line(line@) {
            Ok((region, value)) => read matches Ok(r) && r.0@ == region && r.1 == value,
            Err(error) => read matches Err(e) && e == error,
        },
{
    let words = text::split_words(line.as_str());
    proof {
        assert(words@.len() == text::words(line@).len());
    }
    if words.len() == 0 {
        return Err("missing dmem region");
    }
    if words.len() == 1 {
        return Err("missing dmem value");
    }
    proof {
        assert(text::texts(words@)[0] == words@[0]@);
        assert(text::texts(words@)[1] == words@[1]@);
    }
    if words.len() > 2 || !valid_region(words[0].as_str()) {
        return Err("invalid dmem line");
    }
    match DmemValue::parse(words[1].as_str()) {
        Ok(value) => Ok((words[0].clone(), value)),
        Err(error) => Err(error),
    }
}

/// Reads the limits that a `dmem` file lists.
pub fn parse_dmem_values(input: &str) -> (parsed: Result<DmemValues, &'static str>)
    ensures
        match dmem_values(input@) {
            Ok(values) => parsed matches Ok(p) && p@ == values,
            Err(error) => parsed matches Err(e) && e == error,
        },
{
    let lines = text::split_lines(input);
    let ghost all = text::lines(input@);
    let mut values: DmemValues = RegionMap::new();
    let mut i: usize = 0;
    proof {
        assert(all.skip(0) =~= all);
    }
    while i < lines.len()
        invariant
            text::texts(lines@) == all,
            all == text::lines(input@),
            i <= all.len(),
            all.len() == lines@.len(),
            dmem_lines(all.skip(i as int), values@) == dmem_values(input@),
        decreases all.len() - i,
    {
        proof {
            assert(all[i as int] == lines@[i as int]@);
            assert(all.skip(i as int)[0] == all[i as int]);
            assert(all.skip(i as int).drop_first() =~= all.skip(i + 1));
        }
        match read_dmem_line(&lines[i]) {
            Ok((region, value)) => {
                if values.insert(region, value) {
                    return Err("duplicate dmem region");
                }
            },
            Err(error) => {
                return Err(error);
            },
        }
        i = i + 1;
    }
    Ok(values)
}

/// What to write to a `dmem` file to set one region's limit.
pub fn dmem_assignment(region: &str, value: DmemValue) -> (line: String)
    ensures
        line@ == assignment(region@, value),
{
    let mut line = region.to_owned();
    line.append(" ");
    line.append(value.text().as_str());
    line
}

/// Numbers are compared as numbers, and `Max` is above all of them.
pub proof fn limits_are_ordered(x: u64, y: u64)
    ensures
        at_most(DmemValue::Finite(x), DmemValue::Finite(y)) <==> x <= y,
        at_most(DmemValue::Finite(x), DmemValue::Max),
        !at_most(DmemValue::Max, DmemValue::Finite(x)),
        at_most(DmemValue::Max, DmemValue::Max),
{
}

/// The larger of two limits is one of the two, and neither is above it. It does not
/// matter which comes first.
pub proof fn the_larger_limit_is_above_both(a: DmemValue, b: DmemValue)
    ensures
        larger(a, b) == a || larger(a, b) == b,
        match (a, b) {
            (DmemValue::Finite(x), DmemValue::Finite(y)) => larger(a, b) matches DmemValue::Finite(
                z,
            ) && z >= x && z >= y,
            _ => larger(a, b) == DmemValue::Max,
        },
        at_most(a, larger(a, b)),
        at_most(b, larger(a, b)),
        larger(a, b) == larger(b, a),
{
}

/// No region occurs twice.
pub open spec fn regions_differ<V>(entries: Seq<(Seq<char>, V)>) -> bool {
    forall|i: int, j: int|
        0 <= i < j < entries.len() ==> (#[trigger] entries[i]).0 != (#[trigger] entries[j]).0
}

/// What lines say in any order, and what was known before, is what is known then.
proof fn lemma_listing_any(entries: ValuesModel, i: int, known: ValuesModel)
    requires
        regions_ok(entries),
        regions_differ(entries),
        0 <= i <= entries.len(),
        table::ordered(known),
        forall|k: int| i <= k < entries.len() ==> table::find(known, (#[trigger] entries[k]).0) is None,
    ensures
        dmem_lines(assignments(entries).skip(i), known) matches Ok(values) && table::ordered(values)
            && (forall|k: int|
            i <= k < entries.len() ==> table::find(values, (#[trigger] entries[k]).0) == Some(
                entries[k].1,
            )) && (forall|region: Seq<char>|
            (forall|k: int| i <= k < entries.len() ==> (#[trigger] entries[k]).0 != region)
                ==> #[trigger] table::find(values, region) == table::find(known, region)),
    decreases entries.len() - i,
{
    let lines = assignments(entries).skip(i);
    if i < entries.len() {
        let (region, value) = entries[i];
        assert(region_ok(entries[i].0));
        lemma_assignment(region, value);
        assert(lines[0] == assignment(region, value));
        assert(table::find(known, entries[i].0) is None);
        let more = table::put(known, region, value);
        table::lemma_put(known, region, value);
        assert forall|k: int| i + 1 <= k < entries.len() implies table::find(
            more,
            (#[trigger] entries[k]).0,
        ) is None by {
            assert(entries[i].0 != entries[k].0);
            assert(table::find(known, entries[k].0) is None);
        }
        assert(lines.drop_first() =~= assignments(entries).skip(i + 1));
        lemma_listing_any(entries, i + 1, more);
        if let Ok(values) = dmem_lines(assignments(entries).skip(i + 1), more) {
            assert forall|k: int| i <= k < entries.len() implies table::find(
                values,
                (#[trigger] entries[k]).0,
            ) == Some(entries[k].1) by {
                if k == i {
                    assert forall|m: int| i + 1 <= m < entries.len() implies (
                    #[trigger] entries[m]).0 != region by {
                        assert(entries[i].0 != entries[m].0);
                    }
                    assert(table::find(values, region) == table::find(more, region));
                }
            }
            assert forall|other: Seq<char>|
                (forall|k: int| i <= k < entries.len() ==> (#[trigger] entries[k]).0
                    != other) implies #[trigger] table::find(values, other) == table::find(
                known,
                other,
            ) by {
                assert(entries[i].0 != other);
                assert forall|k: int| i + 1 <= k < entries.len() implies (#[trigger] entries[k]).0
                    != other by {}
                assert(table::find(values, other) == table::find(more, other));
            }
        }
    }
}

/// A file that lists regions in any order, each once, is read as what it lists: every
/// region has the limit of its line, and no other region has one.
pub proof fn a_listing_in_any_order_is_read(entries: ValuesModel)
    requires
        regions_ok(entries),
        regions_differ(entries),
    ensures
        dmem_values(listing(entries)) matches Ok(values) && (forall|k: int|
            0 <= k < entries.len() ==> table::find(values, (#[trigger] entries[k]).0) == Some(
                entries[k].1,
            )) && (forall|region: Seq<char>|
            (forall|k: int| 0 <= k < entries.len() ==> (#[trigger] entries[k]).0 != region)
                ==> #[trigger] table::find(values, region) is None),
{
    lemma_listing_lines(entries);
    assert(assignments(entries).skip(0) =~= assignments(entries));
    lemma_listing_any(entries, 0, Seq::empty());
}

/// A word stands for no limit exactly if it is `max`, and for a number exactly if it is that
/// number.
pub proof fn words_for_limits(word: Seq<char>)
    ensures
        value_of(word) == Some(DmemValue::Max) <==> word == seq!['m', 'a', 'x'],
        text::number(word) matches Some(n) ==> value_of(word) == Some(DmemValue::Finite(n)),
        value_of(word) matches Some(DmemValue::Finite(n)) ==> text::number(word) == Some(n),
        value_of(word) is None <==> word != seq!['m', 'a', 'x'] && text::number(word) is None,
{
    reveal_strlit("max");
    assert("max"@ =~= seq!['m', 'a', 'x']);
    if word == "max"@ {
        assert(word[0] == 'm');
        assert(!text::is_digit(text::unsigned_digits(word)[0]));
    }
}

/// A region is named by any text that is not empty and holds no white space.
pub proof fn regions_are_texts_without_white_space(region: Seq<char>)
    ensures
        region_ok(region) <==> region.len() > 0 && forall|i: int|
            0 <= i < region.len() ==> {
                let c = #[trigger] region[i];
                !('\t' <= c <= '\r' || c == ' ' || c == '\u{85}' || c == '\u{a0}' || c == '\u{1680}'
                    || '\u{2000}' <= c <= '\u{200a}' || '\u{2028}' <= c <= '\u{2029}' || c
                    == '\u{202f}' || c == '\u{205f}' || c == '\u{3000}')
            },
{
    assert forall|i: int| 0 <= i < region.len() implies text::is_white_space(#[trigger] region[i])
        == ('\t' <= region[i] <= '\r' || region[i] == ' ' || region[i] == '\u{85}' || region[i]
        == '\u{a0}' || region[i] == '\u{1680}' || '\u{2000}' <= region[i] <= '\u{200a}'
        || '\u{2028}' <= region[i] <= '\u{2029}' || region[i] == '\u{202f}' || region[i]
        == '\u{205f}' || region[i] == '\u{3000}') by {
        text::white_space_is(region[i]);
    }
}

/// A text of blanks only.
pub open spec fn all_blank(gap: Seq<char>) -> bool {
    forall|i: int| 0 <= i < gap.len() ==> text::blank(#[trigger] gap[i])
}

/// Blanks in front of a text add no word to it.
proof fn lemma_blanks_before(gap: Seq<char>, rest: Seq<char>)
    requires
        all_blank(gap),
    ensures
        text::words(gap + rest) == text::words(rest),
    decreases gap.len(),
{
    if gap.len() > 0 {
        let fewer = gap.drop_first();
        assert forall|i: int| 0 <= i < fewer.len() implies text::blank(#[trigger] fewer[i]) by {
            assert(fewer[i] == gap[i + 1]);
        }
        assert(text::blank(gap[0]));
        lemma_blanks_before(fewer, rest);
        text::words_stand_between_blanks(Seq::empty(), gap[0], fewer + rest);
        assert(gap + rest =~= seq![gap[0]] + (fewer + rest));
    } else {
        assert(gap + rest =~= rest);
    }
}

/// A word and blanks behind it.
proof fn lemma_word_then_blanks(word: Seq<char>, gap: Seq<char>, rest: Seq<char>)
    requires
        word.len() > 0,
        forall|i: int| 0 <= i < word.len() ==> !text::blank(#[trigger] word[i]),
        all_blank(gap),
        gap.len() > 0 || rest.len() == 0,
    ensures
        text::words(word + gap + rest) == seq![word] + text::words(rest),
{
    if gap.len() > 0 {
        let fewer = gap.drop_first();
        assert forall|i: int| 0 <= i < fewer.len() implies text::blank(#[trigger] fewer[i]) by {
            assert(fewer[i] == gap[i + 1]);
        }
        assert(text::blank(gap[0]));
        text::words_stand_between_blanks(word, gap[0], fewer + rest);
        lemma_blanks_before(fewer, rest);
        assert(word + gap + rest =~= word + seq![gap[0]] + (fewer + rest));
    } else {
        assert(text::blank(' '));
        text::words_stand_between_blanks(word, ' ', Seq::empty());
        assert(rest =~= Seq::<char>::empty());
        assert(word + gap + rest =~= word);
        assert(seq![word] + text::words(rest) =~= seq![word]);
    }
}

/// A line that holds a region's name and a word for a limit, with blanks between them and
/// around them as one likes, says that the region has this limit.
pub proof fn a_line_names_a_region_and_its_limit(
    before: Seq<char>,
    region: Seq<char>,
    between: Seq<char>,
    word: Seq<char>,
    behind: Seq<char>,
)
    requires
        all_blank(before),
        all_blank(between),
        all_blank(behind),
        between.len() > 0,
        region_ok(region),
        value_of(word) is Some,
    ensures
        dmem_line(before + region + between + word + behind) == Ok::<
            (Seq<char>, DmemValue),
            &'static str,
        >((region, value_of(word)->0)),
{
    assert forall|i: int| 0 <= i < region.len() implies !text::blank(#[trigger] region[i]) by {
        assert(!text::is_white_space(region[i]));
    }
    lemma_word_characters(word);
    let tail = word + behind;
    let rest = region + between + tail;
    assert(before + region + between + word + behind =~= before + rest);
    assert(word + behind + Seq::<char>::empty() =~= tail);
    lemma_blanks_before(before, rest);
    lemma_word_then_blanks(region, between, tail);
    lemma_word_then_blanks(word, behind, Seq::empty());
    text::words_stand_between_blanks(Seq::empty(), ' ', Seq::empty());
    assert(seq![word] + Seq::<Seq<char>>::empty() =~= seq![word]);
    assert(text::words(rest) =~= seq![region, word]);
}

/// A word for a limit is not empty and holds no blank.
pub proof fn lemma_word_characters(word: Seq<char>)
    requires
        value_of(word) is Some,
    ensures
        word.len() > 0,
        forall|i: int| 0 <= i < word.len() ==> !text::blank(#[trigger] word[i]),
        !word.contains(' '),
        !word.contains('\t'),
{
    reveal_strlit("max");
    if word != "max"@ {
        let digits = text::unsigned_digits(word);
        assert forall|i: int| 0 <= i < word.len() implies !text::blank(#[trigger] word[i]) by {
            if digits == word {
                assert(text::is_digit(digits[i]));
            } else if i > 0 {
                assert(digits[i - 1] == word[i]);
                assert(text::is_digit(digits[i - 1]));
            }
        }
    }
    assert forall|i: int| 0 <= i < word.len() implies word[i] != ' ' && word[i] != '\t' by {
        assert(!text::blank(word[i]));
    }
}

/// A line says that a region has a limit only if it holds two words: the region's name,
/// and a word for that limit.
pub proof fn only_a_region_and_its_limit_make_a_line(line: Seq<char>)
    ensures
        dmem_line(line) matches Ok((region, value)) ==> text::words(line).len() == 2
            && text::words(line)[0] == region && value_of(text::words(line)[1]) == Some(value)
            && region_ok(region),
        text::words(line).len() == 0 ==> dmem_line(line) == Err::<
            (Seq<char>, DmemValue),
            &'static str,
        >("missing dmem region"),
        text::words(line).len() == 1 ==> dmem_line(line) == Err::<
            (Seq<char>, DmemValue),
            &'static str,
        >("missing dmem value"),
        text::words(line).len() > 2 ==> dmem_line(line) == Err::<
            (Seq<char>, DmemValue),
            &'static str,
        >("invalid dmem line"),
        text::words(line).len() == 2 && !region_ok(text::words(line)[0]) ==> dmem_line(line)
            == Err::<(Seq<char>, DmemValue), &'static str>("invalid dmem line"),
        text::words(line).len() == 2 && region_ok(text::words(line)[0]) && value_of(
            text::words(line)[1],
        ) is None ==> dmem_line(line) == Err::<(Seq<char>, DmemValue), &'static str>(
            "invalid dmem value",
        ),
{
}

/// Whether lines all make sense and name different regions.
pub open spec fn lines_agree(lines: Seq<Seq<char>>) -> bool {
    &&& forall|i: int| 0 <= i < lines.len() ==> dmem_line(#[trigger] lines[i]) is Ok
    &&& forall|i: int, j: int|
        0 <= i < j < lines.len() ==> dmem_line(#[trigger] lines[i])->Ok_0.0 != dmem_line(
            #[trigger] lines[j],
        )->Ok_0.0
}

/// Whether one of the lines says that a region has a limit.
pub open spec fn said(lines: Seq<Seq<char>>, region: Seq<char>, value: DmemValue) -> bool {
    exists|i: int|
        0 <= i < lines.len() && dmem_line(#[trigger] lines[i]) == Ok::<
            (Seq<char>, DmemValue),
            &'static str,
        >((region, value))
}

/// Lines that are read make sense, name different regions, and none that is known.
proof fn lemma_lines_read(lines: Seq<Seq<char>>, known: ValuesModel)
    requires
        table::ordered(known),
        dmem_lines(lines, known) is Ok,
    ensures
        lines_agree(lines),
        forall|i: int|
            0 <= i < lines.len() ==> table::find(known, dmem_line(#[trigger] lines[i])->Ok_0.0) is None,
    decreases lines.len(),
{
    if lines.len() > 0 {
        let rest = lines.drop_first();
        let (region, value) = dmem_line(lines[0])->Ok_0;
        let more = table::put(known, region, value);
        table::lemma_put(known, region, value);
        lemma_lines_read(rest, more);
        assert forall|i: int| 0 <= i < lines.len() implies dmem_line(#[trigger] lines[i]) is Ok
            && table::find(known, dmem_line(lines[i])->Ok_0.0) is None by {
            if i > 0 {
                assert(lines[i] == rest[i - 1]);
                assert(table::find(more, dmem_line(rest[i - 1])->Ok_0.0) is None);
            }
        }
        assert forall|i: int, j: int| 0 <= i < j < lines.len() implies dmem_line(
            #[trigger] lines[i],
        )->Ok_0.0 != dmem_line(#[trigger] lines[j])->Ok_0.0 by {
            assert(lines[j] == rest[j - 1]);
            assert(table::find(more, dmem_line(rest[j - 1])->Ok_0.0) is None);
            if i > 0 {
                assert(lines[i] == rest[i - 1]);
            }
        }
    }
}

/// Lines that make sense and name different regions, none of which is known, are read.
proof fn lemma_lines_readable(lines: Seq<Seq<char>>, known: ValuesModel)
    requires
        table::ordered(known),
        lines_agree(lines),
        forall|i: int|
            0 <= i < lines.len() ==> table::find(known, dmem_line(#[trigger] lines[i])->Ok_0.0) is None,
    ensures
        dmem_lines(lines, known) is Ok,
    decreases lines.len(),
{
    if lines.len() > 0 {
        let rest = lines.drop_first();
        assert(dmem_line(lines[0]) is Ok);
        let (region, value) = dmem_line(lines[0])->Ok_0;
        let more = table::put(known, region, value);
        table::lemma_put(known, region, value);
        assert(table::find(known, dmem_line(lines[0])->Ok_0.0) is None);
        assert forall|i: int| 0 <= i < rest.len() implies dmem_line(#[trigger] rest[i]) is Ok
            && table::find(more, dmem_line(rest[i])->Ok_0.0) is None by {
            assert(rest[i] == lines[i + 1]);
            assert(dmem_line(lines[0])->Ok_0.0 != dmem_line(lines[i + 1])->Ok_0.0);
            assert(table::find(known, dmem_line(lines[i + 1])->Ok_0.0) is None);
        }
        assert forall|i: int, j: int| 0 <= i < j < rest.len() implies dmem_line(
            #[trigger] rest[i],
        )->Ok_0.0 != dmem_line(#[trigger] rest[j])->Ok_0.0 by {
            assert(rest[i] == lines[i + 1] && rest[j] == lines[j + 1]);
        }
        lemma_lines_readable(rest, more);
    }
}

/// What is known once lines are read: what was known, and what they say.
proof fn lemma_lines_contents(
    lines: Seq<Seq<char>>,
    known: ValuesModel,
    region: Seq<char>,
    value: DmemValue,
)
    requires
        table::ordered(known),
        dmem_lines(lines, known) is Ok,
    ensures
        table::find(dmem_lines(lines, known)->Ok_0, region) == Some(value) <==> table::find(known, region)
            == Some(value) || said(lines, region, value),
    decreases lines.len(),
{
    if lines.len() > 0 {
        let rest = lines.drop_first();
        let (first, limit) = dmem_line(lines[0])->Ok_0;
        let more = table::put(known, first, limit);
        table::lemma_put(known, first, limit);
        lemma_lines_contents(rest, more, region, value);
        if said(rest, region, value) {
            let i = choose|i: int|
                0 <= i < rest.len() && dmem_line(#[trigger] rest[i]) == Ok::<
                    (Seq<char>, DmemValue),
                    &'static str,
                >((region, value));
            assert(lines[i + 1] == rest[i]);
        }
        if said(lines, region, value) {
            let i = choose|i: int|
                0 <= i < lines.len() && dmem_line(#[trigger] lines[i]) == Ok::<
                    (Seq<char>, DmemValue),
                    &'static str,
                >((region, value));
            if i > 0 {
                assert(rest[i - 1] == lines[i]);
                assert(said(rest, region, value));
            } else {
                assert(table::find(more, region) == Some(value));
            }
        }
        if table::find(more, region) == Some(value) && table::find(known, region) != Some(value) {
            assert(region == first && value == limit);
            assert(dmem_line(lines[0]) == Ok::<(Seq<char>, DmemValue), &'static str>((region, value)));
        }
        if table::find(known, region) == Some(value) {
            assert(region != first);
        }
    }
}

/// A file is read if and only if each of its lines names a region and its limit, and no two
/// lines name the same region. A region then has the limit of the line that names it.
pub proof fn a_file_is_read_line_by_line(content: Seq<char>)
    ensures
        dmem_values(content) is Ok <==> lines_agree(text::lines(content)),
        dmem_values(content) matches Ok(values) ==> (forall|region: Seq<char>, value: DmemValue|
            table::find(values, region) == Some(value) <==> #[trigger] said(
                text::lines(content),
                region,
                value,
            )),
{
    let lines = text::lines(content);
    let none = Seq::<(Seq<char>, DmemValue)>::empty();
    if dmem_values(content) is Ok {
        lemma_lines_read(lines, none);
        assert forall|region: Seq<char>, value: DmemValue|
            table::find(dmem_values(content)->Ok_0, region) == Some(value)
                <==> #[trigger] said(lines, region, value) by {
            lemma_lines_contents(lines, none, region, value);
        }
    }
    if lines_agree(lines) {
        lemma_lines_readable(lines, none);
    }
}

/// What is written for a region is its name, a space, and the word for its limit.
pub proof fn an_assignment_is_a_region_and_its_limit(region: Seq<char>, value: DmemValue)
    ensures
        exists|word: Seq<char>|
            assignment(region, value) == #[trigger] (region + seq![' '] + word) && value_of(word)
                == Some(value),
{
    reveal_strlit(" ");
    value_reads_back(value);
    assert(" "@ =~= seq![' ']);
    assert(assignment(region, value) == region + seq![' '] + value_text(value));
}

/// Where the lines of a file do not agree, the first one that is wrong decides the error:
/// one that makes no sense, or one that names a region that was named before.
pub proof fn the_first_wrong_line_decides(
    content: Seq<char>,
    before: Seq<Seq<char>>,
    line: Seq<char>,
    behind: Seq<Seq<char>>,
)
    requires
        text::lines(content) == before + (seq![line] + behind),
        lines_agree(before),
    ensures
        dmem_line(line) matches Err(error) ==> dmem_values(content) == Err::<
            ValuesModel,
            &'static str,
        >(error),
        (dmem_line(line) is Ok && exists|value: DmemValue| #[trigger]
            said(before, dmem_line(line)->Ok_0.0, value)) ==> dmem_values(content) == Err::<
            ValuesModel,
            &'static str,
        >("duplicate dmem region"),
{
    let none = Seq::<(Seq<char>, DmemValue)>::empty();
    let rest = seq![line] + behind;
    lemma_dmem_lines_joined(before, rest, none);
    lemma_lines_readable(before, none);
    assert(rest[0] == line);
    if dmem_line(line) is Ok && exists|value: DmemValue| #[trigger]
        said(before, dmem_line(line)->Ok_0.0, value) {
        let region = dmem_line(line)->Ok_0.0;
        let value = choose|value: DmemValue| #[trigger] said(before, region, value);
        lemma_lines_contents(before, none, region, value);
    }
}

}
