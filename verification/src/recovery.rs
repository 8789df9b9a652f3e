//! The recovery record: the limits that a boost replaced, kept on the cgroup so
//! that they can be restored, also after a crash.

use crate::cgroup;
use crate::cgroup::{DmemValue, DmemValues, ValuesModel};
use crate::table;
use crate::table::RegionMap;
use crate::text;
use vstd::prelude::*;
use vstd::string::*;
use vstd::utf8::*;

verus! {

/// A region's limit before a boost, and the limit that the boost set.
#[derive(Clone, Copy, Debug, Eq, PartialEq, Structural)]
pub struct StateEntry {
    pub baseline: DmemValue,
    pub applied: DmemValue,
}

/// The boosted regions of one cgroup.
pub type RecoveryState = RegionMap<StateEntry>;

/// A recovery record as a table.
pub type RecordModel = Seq<(Seq<char>, StateEntry)>;

/// What a line of a record says: a region, its baseline and its applied limit,
/// with one space between them.
pub open spec fn record_line(line: Seq<char>) -> Result<(Seq<char>, StateEntry), &'static str> {
    let parts = text::pieces(line);
    if line.len() == 0 || line.contains('\t') || line[0] == ' ' || line.last() == ' ' {
        Err("invalid whitespace in state")
    } else if parts.len() != 3 || !cgroup::region_ok(parts[0]) {
        Err("invalid state line")
    } else {
        match (cgroup::value_of(parts[1]), cgroup::value_of(parts[2])) {
            (Some(baseline), Some(applied)) => Ok((parts[0], StateEntry { baseline, applied })),
            _ => Err("invalid dmem value"),
        }
    }
}

/// The entries that lines add to those known. The first line that is wrong
/// decides the error; a region may occur only once.
pub open spec fn record_lines(lines: Seq<Seq<char>>, known: RecordModel) -> Result<
    RecordModel,
    &'static str,
>
    decreases lines.len(),
{
    if lines.len() == 0 {
        Ok(known)
    } else {
        match record_line(lines[0]) {
            Err(error) => Err(error),
            Ok((region, entry)) => if table::find(known, region) is Some {
                Err("duplicate state region")
            } else {
                record_lines(lines.drop_first(), table::put(known, region, entry))
            },
        }
    }
}

/// The record that a text holds: a version line, then at least one entry.
pub open spec fn record_of_text(content: Seq<char>) -> Result<RecordModel, &'static str> {
    let lines = text::lines(content);
    if lines.len() == 0 || lines[0] != "v1"@ {
        Err("unsupported state version")
    } else {
        match record_lines(lines.drop_first(), Seq::empty()) {
            Err(error) => Err(error),
            Ok(record) => if record.len() == 0 {
                Err("state has no regions")
            } else {
                Ok(record)
            },
        }
    }
}

/// The record that bytes hold.
pub open spec fn record_of(bytes: Seq<u8>) -> Result<RecordModel, &'static str> {
    match text::utf8_text(bytes) {
        None => Err("state is not UTF-8"),
        Some(content) => record_of_text(content),
    }
}

/// The line for an entry, without its ending.
pub open spec fn entry_text(region: Seq<char>, entry: StateEntry) -> Seq<char> {
    region + " "@ + cgroup::value_text(entry.baseline) + " "@ + cgroup::value_text(entry.applied)
}

/// The text of a record.
pub open spec fn record_text(record: RecordModel) -> Seq<char>
    decreases record.len(),
{
    if record.len() == 0 {
        "v1\n"@
    } else {
        record_text(record.drop_last()) + entry_text(record.last().0, record.last().1) + "\n"@
    }
}

/// The bytes of a record.
pub open spec fn record_bytes(record: RecordModel) -> Seq<u8> {
    encode_utf8(record_text(record))
}

/// The record of a boost: every region whose capacity is larger than its limit.
pub open spec fn boosts(capacity: ValuesModel, current: ValuesModel) -> RecordModel
    decreases capacity.len(),
{
    if capacity.len() == 0 {
        Seq::empty()
    } else {
        let rest = boosts(capacity.drop_last(), current);
        let (region, limit) = capacity.last();
        match table::find(current, region) {
            Some(baseline) => {
                let applied = cgroup::larger(baseline, limit);
                if applied != baseline {
                    rest.push((region, StateEntry { baseline, applied }))
                } else {
                    rest
                }
            },
            None => rest,
        }
    }
}

/// How the limit that a region has now relates to its entry.
pub enum Standing {
    /// It is the applied limit.
    Applied,
    /// It is the baseline.
    Baseline,
    /// It is one of the two.
    Known,
}

pub open spec fn stands(standing: Standing, entry: StateEntry, now: Option<DmemValue>) -> bool {
    match standing {
        Standing::Applied => now == Some(entry.applied),
        Standing::Baseline => now == Some(entry.baseline),
        Standing::Known => now == Some(entry.baseline) || now == Some(entry.applied),
    }
}

/// The entries whose regions have a limit of that standing.
pub open spec fn select(record: RecordModel, current: ValuesModel, standing: Standing) -> RecordModel
    decreases record.len(),
{
    if record.len() == 0 {
        Seq::empty()
    } else {
        let rest = select(record.drop_last(), current, standing);
        let (region, entry) = record.last();
        if stands(standing, entry, table::find(current, region)) {
            rest.push((region, entry))
        } else {
            rest
        }
    }
}

proof fn lemma_record_lines(lines: Seq<Seq<char>>, known: RecordModel)
    requires
        table::ordered(known),
        cgroup::regions_ok(known),
    ensures
        record_lines(lines, known) matches Ok(record) ==> table::ordered(record)
            && cgroup::regions_ok(record),
    decreases lines.len(),
{
    if lines.len() > 0 {
        if let Ok((region, entry)) = record_line(lines[0]) {
            if table::find(known, region) is None {
                let more = table::put(known, region, entry);
                table::lemma_put(known, region, entry);
                assert forall|i: int| 0 <= i < more.len() implies cgroup::region_ok(
                    #[trigger] more[i].0,
                ) by {
                    if more[i] != (region, entry) {
                        let k = choose|k: int| 0 <= k < known.len() && known[k] == more[i];
                        assert(cgroup::region_ok(known[k].0));
                    }
                }
                lemma_record_lines(lines.drop_first(), more);
            }
        }
    }
}

/// The regions of a record that was read are valid names, each of which occurs
/// once, in order, and there is at least one.
pub proof fn parsed_record_is_ordered(bytes: Seq<u8>)
    ensures
        record_of(bytes) matches Ok(record) ==> table::ordered(record) && cgroup::regions_ok(
            record,
        ) && record.len() > 0,
{
    if let Some(content) = text::utf8_text(bytes) {
        lemma_record_lines(text::lines(content).drop_first(), Seq::empty());
    }
}

proof fn lemma_pieces_cons(first: Seq<char>, rest: Seq<char>)
    requires
        forall|i: int| 0 <= i < first.len() ==> #[trigger] first[i] != ' ',
    ensures
        text::pieces(first + seq![' '] + rest) == seq![first] + text::pieces(rest),
{
    let all = first + seq![' '] + rest;
    let n = first.len() as int;
    assert forall|i: int| 0 <= i < n implies !text::is_break(
        text::Break::Space,
        #[trigger] all[i],
    ) by {
        assert(all[i] == first[i]);
    }
    text::lemma_span(all, text::Break::Space, n);
    assert(all.take(n) =~= first);
    assert(all.skip(n + 1) =~= rest);
}

/// Three words with a space between them split into those words.
proof fn lemma_three_pieces(first: Seq<char>, second: Seq<char>, third: Seq<char>)
    requires
        forall|i: int| 0 <= i < first.len() ==> #[trigger] first[i] != ' ',
        forall|i: int| 0 <= i < second.len() ==> #[trigger] second[i] != ' ',
        forall|i: int| 0 <= i < third.len() ==> #[trigger] third[i] != ' ',
    ensures
        text::pieces(first + seq![' '] + second + seq![' '] + third) == seq![first, second, third],
{
    let line = first + seq![' '] + second + seq![' '] + third;
    assert(line =~= first + seq![' '] + (second + seq![' '] + third));
    lemma_pieces_cons(first, second + seq![' '] + third);
    lemma_pieces_cons(second, third);
    text::lemma_span(third, text::Break::Space, third.len() as int);
    assert(text::pieces(third) =~= seq![third]);
    assert(text::pieces(line) =~= seq![first, second, third]);
}

/// Three words with a space between them hold no other blank than the spaces.
proof fn lemma_three_blanks(first: Seq<char>, second: Seq<char>, third: Seq<char>)
    requires
        forall|i: int| 0 <= i < first.len() ==> !text::is_ascii_blank(#[trigger] first[i]),
        forall|i: int| 0 <= i < second.len() ==> !text::is_ascii_blank(#[trigger] second[i]),
        forall|i: int| 0 <= i < third.len() ==> !text::is_ascii_blank(#[trigger] third[i]),
    ensures
        ({
            let line = first + seq![' '] + second + seq![' '] + third;
            forall|i: int|
                0 <= i < line.len() ==> #[trigger] line[i] != '\n' && line[i] != '\r' && line[i]
                    != '\t'
        }),
{
    let line = first + seq![' '] + second + seq![' '] + third;
    let n = first.len() as int;
    let m = n + 1 + second.len() as int;
    assert forall|i: int| 0 <= i < line.len() implies #[trigger] line[i] != '\n' && line[i] != '\r'
        && line[i] != '\t' by {
        if i < n {
            assert(line[i] == first[i]);
        } else if n < i < m {
            assert(line[i] == second[i - n - 1]);
        } else if i > m {
            assert(line[i] == third[i - m - 1]);
        }
    }
}

proof fn lemma_region_blanks(region: Seq<char>)
    requires
        cgroup::region_ok(region),
    ensures
        region.len() > 0,
        forall|i: int| 0 <= i < region.len() ==> !text::is_ascii_blank(#[trigger] region[i]),
{
    assert forall|i: int| 0 <= i < region.len() implies !text::is_ascii_blank(
        #[trigger] region[i],
    ) by {
        assert(!text::is_white_space(region[i]));
    }
}

proof fn lemma_three_ends(first: Seq<char>, second: Seq<char>, third: Seq<char>)
    requires
        first.len() > 0,
        third.len() > 0,
    ensures
        ({
            let line = first + seq![' '] + second + seq![' '] + third;
            line.len() > 0 && line[0] == first[0] && line.last() == third.last()
        }),
{
}

/// The line for an entry reads as that entry.
proof fn lemma_entry_text(region: Seq<char>, entry: StateEntry)
    requires
        cgroup::region_ok(region),
    ensures
        record_line(entry_text(region, entry)) == Ok::<(Seq<char>, StateEntry), &'static str>(
            (region, entry),
        ),
        forall|i: int|
            0 <= i < entry_text(region, entry).len() ==> #[trigger] entry_text(region, entry)[i]
                != '\n' && entry_text(region, entry)[i] != '\r',
{
    let first = cgroup::value_text(entry.baseline);
    let second = cgroup::value_text(entry.applied);
    let line = entry_text(region, entry);
    assert(line == region + seq![' '] + first + seq![' '] + second) by {
        reveal_strlit(" ");
        assert(" "@ =~= seq![' ']);
    }
    lemma_region_blanks(region);
    cgroup::value_reads_back(entry.baseline);
    cgroup::value_reads_back(entry.applied);
    lemma_three_blanks(region, first, second);
    lemma_three_ends(region, first, second);
    assert(!text::is_ascii_blank(region[0]));
    assert(!text::is_ascii_blank(second[second.len() - 1]));
    assert(text::pieces(line) == seq![region, first, second]) by {
        lemma_three_pieces(region, first, second);
    }
    assert(!line.contains('\t'));
    let parts = text::pieces(line);
    assert(parts.len() == 3 && parts[0] == region && parts[1] == first && parts[2] == second);
}

/// The lines of a record.
pub open spec fn entry_lines(record: RecordModel) -> Seq<Seq<char>> {
    record.map_values(|e: (Seq<char>, StateEntry)| entry_text(e.0, e.1))
}

proof fn lemma_record_text_lines(record: RecordModel)
    requires
        cgroup::regions_ok(record),
    ensures
        text::lines(record_text(record)) == seq!["v1"@] + entry_lines(record),
        record_text(record).len() > 0,
        record_text(record).last() == '\n',
    decreases record.len(),
{
    reveal_strlit("v1\n");
    reveal_strlit("v1");
    reveal_strlit("\n");
    if record.len() == 0 {
        text::lemma_lines_append(Seq::empty(), "v1"@);
        assert("v1\n"@ =~= Seq::<char>::empty() + "v1"@ + seq!['\n']);
        assert(text::lines(Seq::<char>::empty()) =~= Seq::<Seq<char>>::empty());
        assert(entry_lines(record) =~= Seq::<Seq<char>>::empty());
        assert(seq!["v1"@] + entry_lines(record) =~= Seq::<Seq<char>>::empty().push("v1"@));
    } else {
        let front = record.drop_last();
        assert forall|i: int| 0 <= i < front.len() implies cgroup::region_ok(
            #[trigger] front[i].0,
        ) by {
            assert(front[i] == record[i]);
        }
        lemma_record_text_lines(front);
        let (region, entry) = record.last();
        assert(cgroup::region_ok(record[record.len() - 1].0));
        lemma_entry_text(region, entry);
        text::lemma_lines_append(record_text(front), entry_text(region, entry));
        assert("\n"@ =~= seq!['\n']);
        assert(entry_lines(record) =~= entry_lines(front).push(entry_text(region, entry)));
        assert((seq!["v1"@] + entry_lines(front)).push(entry_text(region, entry)) =~= seq!["v1"@]
            + entry_lines(record));
    }
}

proof fn lemma_record_lines_read(record: RecordModel, i: int)
    requires
        table::ordered(record),
        cgroup::regions_ok(record),
        0 <= i <= record.len(),
    ensures
        record_lines(entry_lines(record).skip(i), record.take(i)) == Ok::<
            RecordModel,
            &'static str,
        >(record),
    decreases record.len() - i,
{
    let lines = entry_lines(record).skip(i);
    if i == record.len() {
        assert(record.take(i) =~= record);
    } else {
        let (region, entry) = record[i];
        assert(cgroup::region_ok(record[i].0));
        lemma_entry_text(region, entry);
        assert(lines[0] == entry_text(region, entry));
        let known = record.take(i);
        assert forall|j: int| 0 <= j < known.len() implies table::before(
            #[trigger] known[j].0,
            region,
        ) by {
            assert(known[j] == record[j]);
            assert(table::before(record[j].0, record[i].0));
        }
        table::lemma_put_last(known, region, entry);
        assert(known.push((region, entry)) =~= record.take(i + 1));
        assert(lines.drop_first() =~= entry_lines(record).skip(i + 1));
        lemma_record_lines_read(record, i + 1);
    }
}

/// Reading what was written for a record gives the record back.
pub proof fn record_reads_back(record: RecordModel)
    requires
        table::ordered(record),
        cgroup::regions_ok(record),
        record.len() > 0,
    ensures
        record_of(record_bytes(record)) == Ok::<RecordModel, &'static str>(record),
{
    let content = record_text(record);
    encode_utf8_valid_utf8(content);
    encode_utf8_decode_utf8(content);
    lemma_record_text_lines(record);
    let lines = text::lines(content);
    assert(lines[0] == "v1"@);
    assert(lines.drop_first() =~= entry_lines(record).skip(0));
    assert(record.take(0) =~= Seq::<(Seq<char>, StateEntry)>::empty());
    lemma_record_lines_read(record, 0);
}

/// Whether a line is written as the lines of a record are: a region and two limits in the
/// notation that is written.
pub open spec fn canonical_line(line: Seq<char>) -> bool {
    let parts = text::pieces(line);
    &&& parts.len() == 3
    &&& cgroup::canonical_value(parts[1])
    &&& cgroup::canonical_value(parts[2])
}

/// Whether a text is written as records are: every line, also the last, ends with a line
/// feed that follows no carriage return, and the lines behind the version line are those of
/// regions in ascending order, with limits in the notation that is written.
pub open spec fn canonical(content: Seq<char>) -> bool {
    let lines = text::lines(content);
    &&& content.len() > 0
    &&& content.last() == '\n'
    &&& !content.contains('\r')
    &&& forall|i: int| 1 <= i < lines.len() ==> canonical_line(#[trigger] lines[i])
    &&& forall|i: int, j: int|
        1 <= i < j < lines.len() ==> table::before(
            text::pieces(#[trigger] lines[i])[0],
            text::pieces(#[trigger] lines[j])[0],
        )
}

proof fn lemma_entry_pieces(region: Seq<char>, entry: StateEntry)
    requires
        cgroup::region_ok(region),
    ensures
        text::pieces(entry_text(region, entry)) == seq![
            region,
            cgroup::value_text(entry.baseline),
            cgroup::value_text(entry.applied),
        ],
{
    let first = cgroup::value_text(entry.baseline);
    let second = cgroup::value_text(entry.applied);
    let line = entry_text(region, entry);
    assert(line == region + seq![' '] + first + seq![' '] + second) by {
        reveal_strlit(" ");
        assert(" "@ =~= seq![' ']);
    }
    lemma_region_blanks(region);
    cgroup::value_reads_back(entry.baseline);
    cgroup::value_reads_back(entry.applied);
    assert forall|i: int| 0 <= i < region.len() implies #[trigger] region[i] != ' ' by {
        assert(!text::is_ascii_blank(region[i]));
    }
    assert forall|i: int| 0 <= i < first.len() implies #[trigger] first[i] != ' ' by {
        assert(!text::is_ascii_blank(first[i]));
    }
    assert forall|i: int| 0 <= i < second.len() implies #[trigger] second[i] != ' ' by {
        assert(!text::is_ascii_blank(second[i]));
    }
    lemma_three_pieces(region, first, second);
}

/// No carriage return is written.
proof fn lemma_record_text_returns(record: RecordModel)
    requires
        cgroup::regions_ok(record),
    ensures
        !record_text(record).contains('\r'),
    decreases record.len(),
{
    reveal_strlit("v1\n");
    reveal_strlit("\n");
    let content = record_text(record);
    if record.len() == 0 {
        assert forall|i: int| 0 <= i < content.len() implies content[i] != '\r' by {}
    } else {
        let front = record.drop_last();
        assert forall|i: int| 0 <= i < front.len() implies cgroup::region_ok(
            #[trigger] front[i].0,
        ) by {
            assert(front[i] == record[i]);
        }
        lemma_record_text_returns(front);
        let before = record_text(front);
        let (region, entry) = record.last();
        assert(cgroup::region_ok(record[record.len() - 1].0));
        lemma_entry_text(region, entry);
        let line = entry_text(region, entry);
        assert forall|i: int| 0 <= i < content.len() implies content[i] != '\r' by {
            if i < before.len() {
                assert(content[i] == before[i]);
                assert(before.contains(before[i]));
            } else if i < before.len() + line.len() {
                assert(content[i] == line[i - before.len()]);
            } else {
                assert(content[i] == "\n"@[i - before.len() - line.len()]);
            }
        }
    }
}

/// A line in the notation that is written is the line for what it says.
proof fn lemma_canonical_line(line: Seq<char>)
    requires
        record_line(line) is Ok,
        canonical_line(line),
    ensures
        record_line(line) matches Ok(said) && cgroup::region_ok(said.0) && said.0 == text::pieces(
            line,
        )[0] && entry_text(said.0, said.1) == line,
{
    let parts = text::pieces(line);
    if let Ok((region, entry)) = record_line(line) {
        cgroup::value_is_written_back(parts[1]);
        cgroup::value_is_written_back(parts[2]);
        lemma_entry_pieces(region, entry);
        assert(text::pieces(entry_text(region, entry)) =~= parts);
        text::lemma_same_pieces(entry_text(region, entry), line);
    }
}

/// Lines in ascending order are read in their order.
proof fn lemma_ascending_lines(lines: Seq<Seq<char>>, known: RecordModel)
    requires
        record_lines(lines, known) is Ok,
        forall|i: int| 0 <= i < lines.len() ==> canonical_line(#[trigger] lines[i]),
        forall|i: int, j: int|
            0 <= i < j < lines.len() ==> table::before(
                text::pieces(#[trigger] lines[i])[0],
                text::pieces(#[trigger] lines[j])[0],
            ),
        forall|i: int, j: int|
            0 <= i < known.len() && 0 <= j < lines.len() ==> table::before(
                (#[trigger] known[i]).0,
                text::pieces(#[trigger] lines[j])[0],
            ),
    ensures
        record_lines(lines, known) matches Ok(record) && record.len() == known.len() + lines.len()
            && entry_lines(record) == entry_lines(known) + lines,
    decreases lines.len(),
{
    if lines.len() == 0 {
        assert(entry_lines(known) + lines =~= entry_lines(known));
    } else {
        assert(canonical_line(lines[0]));
        lemma_canonical_line(lines[0]);
        if let Ok((region, entry)) = record_line(lines[0]) {
            let rest = lines.drop_first();
            let more = known.push((region, entry));
            assert forall|i: int| 0 <= i < known.len() implies table::before(
                (#[trigger] known[i]).0,
                region,
            ) by {
                assert(table::before(known[i].0, text::pieces(lines[0])[0]));
            }
            table::lemma_put_last(known, region, entry);
            assert forall|i: int| 0 <= i < rest.len() implies canonical_line(
                #[trigger] rest[i],
            ) by {
                assert(rest[i] == lines[i + 1]);
            }
            assert forall|i: int, j: int| 0 <= i < j < rest.len() implies table::before(
                text::pieces(#[trigger] rest[i])[0],
                text::pieces(#[trigger] rest[j])[0],
            ) by {
                assert(rest[i] == lines[i + 1] && rest[j] == lines[j + 1]);
            }
            assert forall|i: int, j: int|
                0 <= i < more.len() && 0 <= j < rest.len() implies table::before(
                (#[trigger] more[i]).0,
                text::pieces(#[trigger] rest[j])[0],
            ) by {
                assert(rest[j] == lines[j + 1]);
                if i < known.len() {
                    assert(more[i] == known[i]);
                } else {
                    assert(table::before(
                        text::pieces(lines[0])[0],
                        text::pieces(lines[j + 1])[0],
                    ));
                }
            }
            lemma_ascending_lines(rest, more);
            assert(entry_lines(more) =~= entry_lines(known).push(lines[0]));
            assert(entry_lines(more) + rest =~= entry_lines(known) + lines);
        }
    }
}

/// The bytes that are written for a record are those that it was read from exactly if these
/// hold a text that is written as records are.
pub proof fn record_is_written_back(bytes: Seq<u8>)
    ensures
        record_of(bytes) matches Ok(record) ==> (record_bytes(record) == bytes <==> canonical(
            decode_utf8(bytes),
        )),
{
    if let Ok(record) = record_of(bytes) {
        let content = decode_utf8(bytes);
        let written = record_text(record);
        parsed_record_is_ordered(bytes);
        encode_utf8_decode_utf8(written);
        decode_utf8_encode_utf8(bytes);
        lemma_record_text_lines(record);
        lemma_record_text_returns(record);
        let lines = text::lines(written);
        assert forall|i: int| 1 <= i < lines.len() implies canonical_line(#[trigger] lines[i])
            && text::pieces(lines[i])[0] == record[i - 1].0 by {
            let (region, entry) = record[i - 1];
            assert(cgroup::region_ok(record[i - 1].0));
            assert(lines[i] == entry_lines(record)[i - 1]);
            assert(lines[i] == entry_text(region, entry));
            lemma_entry_pieces(region, entry);
            cgroup::value_reads_back(entry.baseline);
            cgroup::value_reads_back(entry.applied);
            cgroup::value_is_written_back(cgroup::value_text(entry.baseline));
            cgroup::value_is_written_back(cgroup::value_text(entry.applied));
        }
        assert(canonical(written)) by {
            assert forall|i: int, j: int| 1 <= i < j < lines.len() implies table::before(
                text::pieces(#[trigger] lines[i])[0],
                text::pieces(#[trigger] lines[j])[0],
            ) by {
                assert(canonical_line(lines[i]) && canonical_line(lines[j]));
                assert(table::before(record[i - 1].0, record[j - 1].0));
            }
        }
        if canonical(content) {
            let read = text::lines(content);
            let rest = read.drop_first();
            let none = Seq::<(Seq<char>, StateEntry)>::empty();
            assert forall|i: int| 0 <= i < rest.len() implies canonical_line(
                #[trigger] rest[i],
            ) by {
                assert(rest[i] == read[i + 1]);
            }
            assert forall|i: int, j: int| 0 <= i < j < rest.len() implies table::before(
                text::pieces(#[trigger] rest[i])[0],
                text::pieces(#[trigger] rest[j])[0],
            ) by {
                assert(rest[i] == read[i + 1] && rest[j] == read[j + 1]);
            }
            lemma_ascending_lines(rest, none);
            assert(entry_lines(none) + rest =~= rest);
            assert(seq!["v1"@] + entry_lines(record) =~= read);
            text::lemma_same_lines(written, content);
        }
    }
}

/// Bytes that hold the same record are rewritten as the same bytes, in the form that
/// records are written in.
pub proof fn rewriting_is_canonical(first: Seq<u8>, second: Seq<u8>)
    requires
        record_of(first) is Ok,
        record_of(second) == record_of(first),
    ensures
        record_of(first) matches Ok(one) && record_of(second) matches Ok(other) && record_bytes(
            one,
        ) == record_bytes(other) && canonical(decode_utf8(record_bytes(one))),
{
    if let Ok(record) = record_of(first) {
        parsed_record_is_ordered(first);
        record_reads_back(record);
        record_is_written_back(record_bytes(record));
    }
}

/// A boost's record is ordered and names the regions of the capacity table.
pub proof fn lemma_boosts(capacity: ValuesModel, current: ValuesModel)
    requires
        table::ordered(capacity),
    ensures
        table::ordered(boosts(capacity, current)),
        forall|i: int|
            0 <= i < boosts(capacity, current).len() ==> exists|k: int|
                0 <= k < capacity.len() && #[trigger] capacity[k].0 == (#[trigger] boosts(
                    capacity,
                    current,
                )[i]).0,
    decreases capacity.len(),
{
    if capacity.len() > 0 {
        let front = capacity.drop_last();
        table::lemma_ordered_front(capacity);
        lemma_boosts(front, current);
        let rest = boosts(front, current);
        let result = boosts(capacity, current);
        assert forall|i: int| 0 <= i < result.len() implies exists|k: int|
            0 <= k < capacity.len() && #[trigger] capacity[k].0 == (#[trigger] result[i]).0 by {
            if i < rest.len() {
                assert(result[i] == rest[i]);
                let k = choose|k: int| 0 <= k < front.len() && #[trigger] front[k].0 == rest[i].0;
                assert(capacity[k].0 == result[i].0);
            } else {
                assert(capacity[capacity.len() - 1].0 == result[i].0);
            }
        }
        assert forall|i: int, j: int| 0 <= i < j < result.len() implies table::before(
            #[trigger] result[i].0,
            #[trigger] result[j].0,
        ) by {
            assert(result[i] == rest[i]);
            if j < rest.len() {
                assert(result[j] == rest[j]);
            } else {
                let k = choose|k: int| 0 <= k < front.len() && #[trigger] front[k].0 == rest[i].0;
                assert(table::before(capacity[k].0, capacity[capacity.len() - 1].0));
            }
        }
    }
}

/// Whether an entry is one of a record, of that standing.
pub open spec fn is_entry(
    record: RecordModel,
    current: ValuesModel,
    standing: Standing,
    entry: (Seq<char>, StateEntry),
) -> bool {
    record.contains(entry) && stands(standing, entry.1, table::find(current, entry.0))
}

/// Selected entries are ordered entries of the record, of the standing asked for.
pub proof fn lemma_select(record: RecordModel, current: ValuesModel, standing: Standing)
    requires
        table::ordered(record),
    ensures
        table::ordered(select(record, current, standing)),
        forall|i: int|
            0 <= i < select(record, current, standing).len() ==> is_entry(
                record,
                current,
                standing,
                #[trigger] select(record, current, standing)[i],
            ),
    decreases record.len(),
{
    if record.len() > 0 {
        let front = record.drop_last();
        table::lemma_ordered_front(record);
        lemma_select(front, current, standing);
        let rest = select(front, current, standing);
        let result = select(record, current, standing);
        assert forall|i: int| 0 <= i < result.len() implies is_entry(
            record,
            current,
            standing,
            #[trigger] result[i],
        ) by {
            if i < rest.len() {
                assert(result[i] == rest[i]);
                let k = choose|k: int| 0 <= k < front.len() && front[k] == rest[i];
                assert(record[k] == result[i]);
            } else {
                assert(record[record.len() - 1] == result[i]);
            }
        }
        assert forall|i: int, j: int| 0 <= i < j < result.len() implies table::before(
            #[trigger] result[i].0,
            #[trigger] result[j].0,
        ) by {
            assert(result[i] == rest[i]);
            if j < rest.len() {
                assert(result[j] == rest[j]);
            } else {
                let k = choose|k: int| 0 <= k < front.len() && front[k] == rest[i];
                assert(table::before(record[k].0, record[record.len() - 1].0));
            }
        }
    }
}

/// Which entry a selection has for a region: the record's, if its standing is the one
/// asked for.
pub proof fn lemma_find_selected(
    record: RecordModel,
    current: ValuesModel,
    standing: Standing,
    region: Seq<char>,
)
    requires
        table::ordered(record),
    ensures
        table::find(select(record, current, standing), region) == match table::find(
            record,
            region,
        ) {
            Some(entry) => if stands(standing, entry, table::find(current, region)) {
                Some(entry)
            } else {
                None
            },
            None => None,
        },
    decreases record.len(),
{
    if record.len() > 0 {
        let front = record.drop_last();
        table::lemma_ordered_front(record);
        lemma_find_selected(front, current, standing, region);
        let rest = select(front, current, standing);
        let result = select(record, current, standing);
        if record.last().0 == region && table::find(front, region) is Some {
            let i = table::lemma_find_index(front, region);
            assert(table::before(record[i].0, record[record.len() - 1].0));
            table::lemma_before_irreflexive(region);
        }
        if result.len() > rest.len() {
            assert(result.drop_last() =~= rest);
        }
    }
}

/// Which entry the record of a boost has for a region.
pub proof fn lemma_find_boost(capacity: ValuesModel, current: ValuesModel, region: Seq<char>)
    requires
        table::ordered(capacity),
    ensures
        table::find(boosts(capacity, current), region) == match (
            table::find(capacity, region),
            table::find(current, region),
        ) {
            (Some(limit), Some(baseline)) => if cgroup::larger(baseline, limit) != baseline {
                Some(StateEntry { baseline, applied: cgroup::larger(baseline, limit) })
            } else {
                None
            },
            _ => None,
        },
    decreases capacity.len(),
{
    if capacity.len() > 0 {
        let front = capacity.drop_last();
        table::lemma_ordered_front(capacity);
        lemma_find_boost(front, current, region);
        let rest = boosts(front, current);
        let result = boosts(capacity, current);
        if capacity.last().0 == region && table::find(front, region) is Some {
            let i = table::lemma_find_index(front, region);
            assert(table::before(capacity[i].0, capacity[capacity.len() - 1].0));
            table::lemma_before_irreflexive(region);
        }
        if result.len() > rest.len() {
            assert(result.drop_last() =~= rest);
        }
    }
}

fn read_record_line(line: &String) -> (read: Result<(String, StateEntry), &'static str>)
    ensures
        match record_line(line@) {
            Ok((region, entry)) => read matches Ok(r) && r.0@ == region && r.1 == entry,
            Err(error) => read matches Err(e) && e == error,
        },
{
    let chars = text::characters(line.as_str());
    let mut tab = false;
    let mut i: usize = 0;
    while i < chars.len()
        invariant
            chars@ == line@,
            i <= line@.len(),
            tab == exists|j: int| 0 <= j < i && line@[j] == '\t',
        decreases line@.len() - i,
    {
        if chars[i] == '\t' {
            tab = true;
        }
        i = i + 1;
    }
    assert(tab == line@.contains('\t'));
    if chars.len() == 0 || tab || chars[0] == ' ' || chars[chars.len() - 1] == ' ' {
        return Err("invalid whitespace in state");
    }
    let parts = text::split_pieces(line.as_str());
    proof {
        assert(parts@.len() == text::pieces(line@).len());
    }
    if parts.len() != 3 {
        return Err("invalid state line");
    }
    proof {
        assert(text::texts(parts@)[0] == parts@[0]@);
        assert(text::texts(parts@)[1] == parts@[1]@);
        assert(text::texts(parts@)[2] == parts@[2]@);
    }
    if !cgroup::valid_region(parts[0].as_str()) {
        return Err("invalid state line");
    }
    match DmemValue::parse(parts[1].as_str()) {
        Err(error) => Err(error),
        Ok(baseline) => match DmemValue::parse(parts[2].as_str()) {
            Err(error) => Err(error),
            Ok(applied) => Ok((parts[0].clone(), StateEntry { baseline, applied })),
        },
    }
}

/// Reads a recovery record.
pub fn parse_state(input: &[u8]) -> (parsed: Result<RecoveryState, &'static str>)
    ensures
        match record_of(input@) {
            Ok(record) => parsed matches Ok(p) && p@ == record,
            Err(error) => parsed matches Err(e) && e == error,
        },
{
    let content = match text::utf8(input) {
        Some(content) => content,
        None => {
            return Err("state is not UTF-8");
        },
    };
    let lines = text::split_lines(content);
    let ghost all = text::lines(content@);
    proof {
        assert(all.len() == lines@.len());
    }
    if lines.len() == 0 {
        return Err("unsupported state version");
    }
    proof {
        assert(all[0] == lines@[0]@);
        assert(all.skip(1) =~= all.drop_first());
    }
    if !text::same_text(lines[0].as_str(), "v1") {
        return Err("unsupported state version");
    }
    let mut state: RecoveryState = RegionMap::new();
    let mut i: usize = 1;
    while i < lines.len()
        invariant
            text::texts(lines@) == all,
            all.len() == lines@.len(),
            1 <= i <= all.len(),
            record_lines(all.skip(i as int), state@) == record_lines(all.skip(1), Seq::empty()),
            match record_lines(all.skip(1), Seq::empty()) {
                Err(error) => record_of(input@) == Err::<RecordModel, &'static str>(error),
                Ok(record) => record_of(input@) == if record.len() == 0 {
                    Err("state has no regions")
                } else {
                    Ok(record)
                },
            },
        decreases all.len() - i,
    {
        proof {
            assert(all[i as int] == lines@[i as int]@);
            assert(all.skip(i as int)[0] == all[i as int]);
            assert(all.skip(i as int).drop_first() =~= all.skip(i + 1));
        }
        match read_record_line(&lines[i]) {
            Ok((region, entry)) => {
                if state.insert(region, entry) {
                    return Err("duplicate state region");
                }
            },
            Err(error) => {
                return Err(error);
            },
        }
        i = i + 1;
    }
    if state.is_empty() {
        return Err("state has no regions");
    }
    Ok(state)
}

/// Writes a recovery record.
pub fn serialize_state(state: &RecoveryState) -> (bytes: Vec<u8>)
    ensures
        bytes@ == record_bytes(state@),
{
    let mut output = "v1\n".to_owned();
    let mut i: usize = 0;
    proof {
        assert(state@.take(0) =~= Seq::<(Seq<char>, StateEntry)>::empty());
    }
    while i < state.len()
        invariant
            i <= state@.len(),
            output@ == record_text(state@.take(i as int)),
        decreases state@.len() - i,
    {
        let entry = state.value(i);
        proof {
            assert(state@.take(i + 1).drop_last() =~= state@.take(i as int));
            assert(state@.take(i + 1).last() == state@[i as int]);
        }
        output.append(state.region(i).as_str());
        output.append(" ");
        output.append(entry.baseline.text().as_str());
        output.append(" ");
        output.append(entry.applied.text().as_str());
        output.append("\n");
        proof {
            assert(output@ =~= record_text(state@.take(i as int)) + entry_text(
                state@[i as int].0,
                entry,
            ) + "\n"@);
        }
        i = i + 1;
    }
    proof {
        assert(state@.take(i as int) =~= state@);
    }
    output.as_str().as_bytes_vec()
}

/// The record of a boost.
pub fn plan_boost(capacity: &DmemValues, current: &DmemValues) -> (record: RecoveryState)
    ensures
        record@ == boosts(capacity@, current@),
{
    let mut record: RecoveryState = RegionMap::new();
    let mut i: usize = 0;
    let count: usize = capacity.len();
    proof {
        assert(capacity@.take(0) =~= Seq::<(Seq<char>, DmemValue)>::empty());
    }
    while i < count
        invariant
            count == capacity@.len(),
            i <= count,
            table::ordered(capacity@),
            record@ == boosts(capacity@.take(i as int), current@),
        decreases count - i,
    {
        let region = capacity.region(i);
        let limit = capacity.value(i);
        let ghost seen = capacity@.take(i as int);
        let ghost more = capacity@.take(i + 1);
        proof {
            assert(more.drop_last() =~= seen);
            assert(more.last() == capacity@[i as int]);
        }
        if let Some(baseline) = current.get(region) {
            let applied = baseline.larger(limit);
            if applied != baseline {
                proof {
                    assert forall|a: int, b: int| 0 <= a < b < seen.len() implies table::before(
                        #[trigger] seen[a].0,
                        #[trigger] seen[b].0,
                    ) by {
                        assert(seen[a] == capacity@[a] && seen[b] == capacity@[b]);
                    }
                    lemma_boosts(seen, current@);
                    assert forall|a: int| 0 <= a < record@.len() implies table::before(
                        #[trigger] record@[a].0,
                        region@,
                    ) by {
                        let k = choose|k: int|
                            0 <= k < seen.len() && #[trigger] seen[k].0 == record@[a].0;
                        assert(table::before(capacity@[k].0, capacity@[i as int].0));
                    }
                    table::lemma_put_last(record@, region@, StateEntry { baseline, applied });
                }
                record.insert(region.clone(), StateEntry { baseline, applied });
            }
        }
        i = i + 1;
    }
    proof {
        assert(capacity@.take(i as int) =~= capacity@);
    }
    record
}

fn has_standing(standing: &Standing, entry: StateEntry, now: Option<DmemValue>) -> (has: bool)
    ensures
        has == stands(*standing, entry, now),
{
    match now {
        None => false,
        Some(value) => match standing {
            Standing::Applied => value == entry.applied,
            Standing::Baseline => value == entry.baseline,
            Standing::Known => value == entry.baseline || value == entry.applied,
        },
    }
}

/// The entries whose regions have a limit of that standing.
pub fn select_entries(
    record: &RecoveryState,
    current: &DmemValues,
    standing: Standing,
) -> (selected: RecoveryState)
    ensures
        selected@ == select(record@, current@, standing),
{
    let mut selected: RecoveryState = RegionMap::new();
    let mut i: usize = 0;
    let count: usize = record.len();
    proof {
        assert(record@.take(0) =~= Seq::<(Seq<char>, StateEntry)>::empty());
    }
    while i < count
        invariant
            count == record@.len(),
            i <= count,
            table::ordered(record@),
            selected@ == select(record@.take(i as int), current@, standing),
        decreases count - i,
    {
        let region = record.region(i);
        let entry = record.value(i);
        let ghost seen = record@.take(i as int);
        let ghost more = record@.take(i + 1);
        proof {
            assert(more.drop_last() =~= seen);
            assert(more.last() == record@[i as int]);
        }
        if has_standing(&standing, entry, current.get(region)) {
            proof {
                assert forall|a: int, b: int| 0 <= a < b < seen.len() implies table::before(
                    #[trigger] seen[a].0,
                    #[trigger] seen[b].0,
                ) by {
                    assert(seen[a] == record@[a] && seen[b] == record@[b]);
                }
                lemma_select(seen, current@, standing);
                assert forall|a: int| 0 <= a < selected@.len() implies table::before(
                    #[trigger] selected@[a].0,
                    region@,
                ) by {
                    let k = choose|k: int| 0 <= k < seen.len() && seen[k] == selected@[a];
                    assert(table::before(record@[k].0, record@[i as int].0));
                }
                table::lemma_put_last(selected@, region@, entry);
            }
            selected.insert(region.clone(), entry);
        }
        i = i + 1;
    }
    proof {
        assert(record@.take(i as int) =~= record@);
    }
    selected
}

/// Whether two records say the same.
pub fn same_record(a: &RecoveryState, b: &RecoveryState) -> (same: bool)
    ensures
        same == (a@ == b@),
{
    let count: usize = a.len();
    if count != b.len() {
        return false;
    }
    let mut i: usize = 0;
    while i < count
        invariant
            count == a@.len(),
            count == b@.len(),
            i <= count,
            forall|j: int| 0 <= j < i ==> a@[j] == #[trigger] b@[j],
        decreases count - i,
    {
        if *a.region(i) != *b.region(i) || a.value(i) != b.value(i) {
            return false;
        }
        i = i + 1;
    }
    assert(a@ =~= b@);
    true
}

/// A line of a record is a region, a space, its baseline, a space and its applied limit, and
/// nothing else is.
pub proof fn a_line_is_a_region_and_two_limits(
    region: Seq<char>,
    first: Seq<char>,
    second: Seq<char>,
)
    requires
        cgroup::region_ok(region),
        cgroup::value_of(first) is Some,
        cgroup::value_of(second) is Some,
    ensures
        record_line(region + seq![' '] + first + seq![' '] + second) == Ok::<
            (Seq<char>, StateEntry),
            &'static str,
        >(
            (
                region,
                StateEntry {
                    baseline: cgroup::value_of(first)->0,
                    applied: cgroup::value_of(second)->0,
                },
            ),
        ),
{
    let line = region + seq![' '] + first + seq![' '] + second;
    lemma_region_blanks(region);
    cgroup::lemma_word_characters(first);
    cgroup::lemma_word_characters(second);
    assert forall|i: int| 0 <= i < first.len() implies !text::is_ascii_blank(
        #[trigger] first[i],
    ) by {
        assert(!text::blank(first[i]));
    }
    assert forall|i: int| 0 <= i < second.len() implies !text::is_ascii_blank(
        #[trigger] second[i],
    ) by {
        assert(!text::blank(second[i]));
    }
    lemma_three_blanks(region, first, second);
    lemma_three_ends(region, first, second);
    assert(!text::is_ascii_blank(region[0]));
    assert(!text::is_ascii_blank(second[second.len() - 1]));
    assert forall|i: int| 0 <= i < region.len() implies #[trigger] region[i] != ' ' by {
        assert(!text::is_ascii_blank(region[i]));
    }
    lemma_three_pieces(region, first, second);
    assert(!line.contains('\t'));
    let parts = text::pieces(line);
    assert(parts.len() == 3 && parts[0] == region && parts[1] == first && parts[2] == second);
}

/// Three pieces with a space between them are the text.
proof fn lemma_three_joined(line: Seq<char>)
    requires
        text::pieces(line).len() == 3,
    ensures
        ({
            let parts = text::pieces(line);
            line == parts[0] + seq![' '] + parts[1] + seq![' '] + parts[2]
        }),
{
    let parts = text::pieces(line);
    text::lemma_span_meaning(line, text::Break::Space);
    let n = text::span(line, text::Break::Space) as int;
    let rest = line.skip(n + 1);
    assert(text::pieces(line)[0] == line.take(n));
    assert(text::pieces(line).drop_first() =~= text::pieces(rest));
    text::lemma_span_meaning(rest, text::Break::Space);
    let m = text::span(rest, text::Break::Space) as int;
    assert(text::pieces(rest).len() == 2);
    let last = rest.skip(m + 1);
    assert(text::pieces(rest)[0] == rest.take(m));
    assert(text::pieces(rest).drop_first() =~= text::pieces(last));
    assert(text::pieces(last).len() == 1);
    text::lemma_span_meaning(last, text::Break::Space);
    if text::span(last, text::Break::Space) < last.len() {
        text::lemma_some_pieces(last.skip(text::span(last, text::Break::Space) as int + 1));
        assert(text::pieces(last).len() >= 2);
    }
    assert(text::pieces(last)[0] == last);
    assert(parts[1] == text::pieces(rest)[0]);
    assert(parts[2] == text::pieces(rest)[1]);
    assert(text::pieces(rest)[1] == text::pieces(rest).drop_first()[0]);
    assert(line =~= line.take(n) + seq![' '] + rest);
    assert(rest =~= rest.take(m) + seq![' '] + last);
    assert(line =~= parts[0] + seq![' '] + parts[1] + seq![' '] + parts[2]);
}

/// A line that is read is a region, a space, its baseline, a space and its applied limit.
pub proof fn only_a_region_and_two_limits_make_a_line(line: Seq<char>)
    requires
        record_line(line) is Ok,
    ensures
        ({
            let (region, entry) = record_line(line)->Ok_0;
            &&& cgroup::region_ok(region)
            &&& exists|first: Seq<char>, second: Seq<char>|
                line == #[trigger] (region + seq![' '] + first + seq![' '] + second)
                    && cgroup::value_of(first) == Some(entry.baseline) && cgroup::value_of(second)
                    == Some(entry.applied)
        }),
{
    let parts = text::pieces(line);
    lemma_three_joined(line);
    let (region, entry) = record_line(line)->Ok_0;
    assert(line == region + seq![' '] + parts[1] + seq![' '] + parts[2]);
    assert(cgroup::value_of(parts[1]) == Some(entry.baseline));
}

/// Whether lines all make sense and name different regions.
pub open spec fn lines_agree(lines: Seq<Seq<char>>) -> bool {
    &&& forall|i: int| 0 <= i < lines.len() ==> record_line(#[trigger] lines[i]) is Ok
    &&& forall|i: int, j: int|
        0 <= i < j < lines.len() ==> record_line(#[trigger] lines[i])->Ok_0.0 != record_line(
            #[trigger] lines[j],
        )->Ok_0.0
}

/// Whether one of the lines says that a region has an entry.
pub open spec fn said(lines: Seq<Seq<char>>, region: Seq<char>, entry: StateEntry) -> bool {
    exists|i: int|
        0 <= i < lines.len() && record_line(#[trigger] lines[i]) == Ok::<
            (Seq<char>, StateEntry),
            &'static str,
        >((region, entry))
}

/// Lines that are read make sense, name different regions, and none that is known.
proof fn lemma_lines_read(lines: Seq<Seq<char>>, known: RecordModel)
    requires
        table::ordered(known),
        record_lines(lines, known) is Ok,
    ensures
        lines_agree(lines),
        forall|i: int|
            0 <= i < lines.len() ==> table::find(known, record_line(#[trigger] lines[i])->Ok_0.0) is None,
    decreases lines.len(),
{
    if lines.len() > 0 {
        let rest = lines.drop_first();
        let (region, value) = record_line(lines[0])->Ok_0;
        let more = table::put(known, region, value);
        table::lemma_put(known, region, value);
        lemma_lines_read(rest, more);
        assert forall|i: int| 0 <= i < lines.len() implies record_line(#[trigger] lines[i]) is Ok
            && table::find(known, record_line(lines[i])->Ok_0.0) is None by {
            if i > 0 {
                assert(lines[i] == rest[i - 1]);
                assert(table::find(more, record_line(rest[i - 1])->Ok_0.0) is None);
            }
        }
        assert forall|i: int, j: int| 0 <= i < j < lines.len() implies record_line(
            #[trigger] lines[i],
        )->Ok_0.0 != record_line(#[trigger] lines[j])->Ok_0.0 by {
            assert(lines[j] == rest[j - 1]);
            assert(table::find(more, record_line(rest[j - 1])->Ok_0.0) is None);
            if i > 0 {
                assert(lines[i] == rest[i - 1]);
            }
        }
    }
}

/// Lines that make sense and name different regions, none of which is known, are read.
proof fn lemma_lines_readable(lines: Seq<Seq<char>>, known: RecordModel)
    requires
        table::ordered(known),
        lines_agree(lines),
        forall|i: int|
            0 <= i < lines.len() ==> table::find(known, record_line(#[trigger] lines[i])->Ok_0.0) is None,
    ensures
        record_lines(lines, known) is Ok,
    decreases lines.len(),
{
    if lines.len() > 0 {
        let rest = lines.drop_first();
        assert(record_line(lines[0]) is Ok);
        let (region, value) = record_line(lines[0])->Ok_0;
        let more = table::put(known, region, value);
        table::lemma_put(known, region, value);
        assert(table::find(known, record_line(lines[0])->Ok_0.0) is None);
        assert forall|i: int| 0 <= i < rest.len() implies record_line(#[trigger] rest[i]) is Ok
            && table::find(more, record_line(rest[i])->Ok_0.0) is None by {
            assert(rest[i] == lines[i + 1]);
            assert(record_line(lines[0])->Ok_0.0 != record_line(lines[i + 1])->Ok_0.0);
            assert(table::find(known, record_line(lines[i + 1])->Ok_0.0) is None);
        }
        assert forall|i: int, j: int| 0 <= i < j < rest.len() implies record_line(
            #[trigger] rest[i],
        )->Ok_0.0 != record_line(#[trigger] rest[j])->Ok_0.0 by {
            assert(rest[i] == lines[i + 1] && rest[j] == lines[j + 1]);
        }
        lemma_lines_readable(rest, more);
    }
}

/// What is known once lines are read: what was known, and what they say.
proof fn lemma_lines_contents(
    lines: Seq<Seq<char>>,
    known: RecordModel,
    region: Seq<char>,
    value: StateEntry,
)
    requires
        table::ordered(known),
        record_lines(lines, known) is Ok,
    ensures
        table::find(record_lines(lines, known)->Ok_0, region) == Some(value) <==> table::find(known, region)
            == Some(value) || said(lines, region, value),
    decreases lines.len(),
{
    if lines.len() > 0 {
        let rest = lines.drop_first();
        let (first, limit) = record_line(lines[0])->Ok_0;
        let more = table::put(known, first, limit);
        table::lemma_put(known, first, limit);
        lemma_lines_contents(rest, more, region, value);
        if said(rest, region, value) {
            let i = choose|i: int|
                0 <= i < rest.len() && record_line(#[trigger] rest[i]) == Ok::<
                    (Seq<char>, StateEntry),
                    &'static str,
                >((region, value));
            assert(lines[i + 1] == rest[i]);
        }
        if said(lines, region, value) {
            let i = choose|i: int|
                0 <= i < lines.len() && record_line(#[trigger] lines[i]) == Ok::<
                    (Seq<char>, StateEntry),
                    &'static str,
                >((region, value));
            if i > 0 {
                assert(rest[i - 1] == lines[i]);
                assert(said(rest, region, value));
            } else {
                assert(table::find(more, region) == Some(value));
            }
        }
        if table::find(more, region) == Some(value) && table::find(known, region) != Some(value) {
            assert(region == first && value == limit);
            assert(record_line(lines[0]) == Ok::<(Seq<char>, StateEntry), &'static str>((region, value)));
        }
        if table::find(known, region) == Some(value) {
            assert(region != first);
        }
    }
}


/// A record is read if and only if it is UTF-8, its first line is the version, at least one
/// line follows, each of those names a region and two limits, and no two name the same
/// region, in whatever order. A region then has the entry of the line that names it.
pub proof fn a_record_is_read_line_by_line(bytes: Seq<u8>)
    ensures
        record_of(bytes) is Ok <==> {
            &&& valid_utf8(bytes)
            &&& text::lines(decode_utf8(bytes)).len() >= 2
            &&& text::lines(decode_utf8(bytes))[0] == seq!['v', '1']
            &&& lines_agree(text::lines(decode_utf8(bytes)).drop_first())
        },
        record_of(bytes) matches Ok(record) ==> (forall|region: Seq<char>, entry: StateEntry|
            table::find(record, region) == Some(entry) <==> #[trigger] said(
                text::lines(decode_utf8(bytes)).drop_first(),
                region,
                entry,
            )),
{
    reveal_strlit("v1");
    assert("v1"@ =~= seq!['v', '1']);
    if valid_utf8(bytes) {
        let all = text::lines(decode_utf8(bytes));
        let lines = all.drop_first();
        let none = Seq::<(Seq<char>, StateEntry)>::empty();
        if all.len() > 0 && record_lines(lines, none) is Ok {
            let record = record_lines(lines, none)->Ok_0;
            lemma_lines_read(lines, none);
            assert forall|region: Seq<char>, entry: StateEntry|
                table::find(record, region) == Some(entry) <==> #[trigger] said(
                    lines,
                    region,
                    entry,
                ) by {
                lemma_lines_contents(lines, none, region, entry);
            }
            if lines.len() > 0 {
                let (region, entry) = record_line(lines[0])->Ok_0;
                assert(said(lines, region, entry));
                assert(table::find(record, region) == Some(entry));
                assert(record.len() > 0);
            } else {
                assert(record == none);
            }
        }
        if all.len() >= 2 && lines_agree(lines) {
            lemma_lines_readable(lines, none);
        }
    }
}

/// What a boost records of a region: where the capacity is above the limit, the limit as the
/// baseline, and the capacity as the limit to apply. Where the capacity is not above the
/// limit, or one of the two is not known, there is nothing to record.
pub proof fn a_boost_records_what_it_raises(
    capacity: ValuesModel,
    current: ValuesModel,
    region: Seq<char>,
)
    requires
        table::ordered(capacity),
    ensures
        table::find(boosts(capacity, current), region) == match (
            table::find(capacity, region),
            table::find(current, region),
        ) {
            (Some(DmemValue::Finite(x)), Some(DmemValue::Finite(y))) => if x > y {
                Some(
                    StateEntry { baseline: DmemValue::Finite(y), applied: DmemValue::Finite(x) },
                )
            } else {
                None
            },
            (Some(DmemValue::Max), Some(DmemValue::Finite(y))) => Some(
                StateEntry { baseline: DmemValue::Finite(y), applied: DmemValue::Max },
            ),
            _ => None,
        },
{
    lemma_find_boost(capacity, current, region);
}

/// What is written for a record: the version line, and behind it one line for each entry.
pub proof fn a_record_is_written_line_by_line(
    record: RecordModel,
    region: Seq<char>,
    entry: StateEntry,
)
    ensures
        record_text(Seq::empty()) == seq!['v', '1', '\n'],
        exists|first: Seq<char>, second: Seq<char>|
            record_text(record.push((region, entry))) == record_text(record) + #[trigger] (region
                + seq![' '] + first + seq![' '] + second) + seq!['\n'] && cgroup::value_of(first)
                == Some(entry.baseline) && cgroup::value_of(second) == Some(entry.applied),
{
    reveal_strlit("v1\n");
    reveal_strlit("\n");
    reveal_strlit(" ");
    assert("v1\n"@ =~= seq!['v', '1', '\n']);
    assert("\n"@ =~= seq!['\n']);
    assert(" "@ =~= seq![' ']);
    let first = cgroup::value_text(entry.baseline);
    let second = cgroup::value_text(entry.applied);
    cgroup::value_reads_back(entry.baseline);
    cgroup::value_reads_back(entry.applied);
    assert(record.push((region, entry)).drop_last() =~= record);
    assert(entry_text(region, entry) == region + seq![' '] + first + seq![' '] + second);
}

}
