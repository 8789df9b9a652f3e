//! Plain text handling: lines, words, decimal numbers and UTF-8.
//!
//! Every function here works on whole characters. The executable functions
//! are proved against the mathematical description of the text that precedes
//! them.

use vstd::prelude::*;
use vstd::string::*;
use vstd::utf8::*;

verus! {

/// What ends a piece of text: the end of a line, one space, or any ASCII blank.
pub enum Break {
    Line,
    Space,
    Blank,
}

/// Space, tab, line feed, form feed and carriage return.
pub open spec fn is_ascii_blank(c: char) -> bool {
    c == ' ' || c == '\t' || c == '\n' || c == '\x0C' || c == '\r'
}

/// The characters with the Unicode property `White_Space`.
pub open spec fn is_white_space(c: char) -> bool {
    let n = c as u32;
    ||| 0x09 <= n <= 0x0D
    ||| n == 0x20
    ||| n == 0x85
    ||| n == 0xA0
    ||| n == 0x1680
    ||| 0x2000 <= n <= 0x200A
    ||| n == 0x2028
    ||| n == 0x2029
    ||| n == 0x202F
    ||| n == 0x205F
    ||| n == 0x3000
}

pub open spec fn is_break(kind: Break, c: char) -> bool {
    match kind {
        Break::Line => c == '\n',
        Break::Space => c == ' ',
        Break::Blank => is_ascii_blank(c),
    }
}

/// The number of characters before the first break.
pub open spec fn span(text: Seq<char>, kind: Break) -> nat
    decreases text.len(),
{
    if text.len() == 0 || is_break(kind, text[0]) {
        0
    } else {
        1 + span(text.drop_first(), kind)
    }
}

/// A line without the carriage return that belonged to its line ending.
pub open spec fn without_return(line: Seq<char>) -> Seq<char> {
    if line.len() > 0 && line.last() == '\r' {
        line.drop_last()
    } else {
        line
    }
}

/// The lines of a text. Each ends with a line feed, which may follow a carriage
/// return; the ending of the last line is optional.
pub open spec fn lines(text: Seq<char>) -> Seq<Seq<char>>
    decreases text.len(),
{
    let n = span(text, Break::Line);
    if text.len() == 0 {
        Seq::empty()
    } else if n < text.len() {
        seq![without_return(text.take(n as int))] + lines(text.skip(n as int + 1))
    } else {
        seq![text]
    }
}

/// The pieces between single spaces; two spaces in a row enclose an empty piece.
pub open spec fn pieces(text: Seq<char>) -> Seq<Seq<char>>
    decreases text.len(),
{
    let n = span(text, Break::Space);
    if n < text.len() {
        seq![text.take(n as int)] + pieces(text.skip(n as int + 1))
    } else {
        seq![text]
    }
}

/// The non-empty runs of characters between ASCII blanks.
pub open spec fn words(text: Seq<char>) -> Seq<Seq<char>>
    decreases text.len(),
{
    let n = span(text, Break::Blank);
    if text.len() == 0 {
        Seq::empty()
    } else if n == 0 {
        words(text.drop_first())
    } else {
        proof {
            lemma_span_meaning(text, Break::Blank);
        }
        seq![text.take(n as int)] + words(text.skip(n as int))
    }
}

pub open spec fn is_digit(c: char) -> bool {
    '0' <= c <= '9'
}

pub open spec fn all_digits(text: Seq<char>) -> bool {
    forall|i: int| 0 <= i < text.len() ==> is_digit(#[trigger] text[i])
}

/// The number that a run of decimal digits stands for.
pub open spec fn decimal_value(digits: Seq<char>) -> int
    decreases digits.len(),
{
    if digits.len() == 0 {
        0
    } else {
        10 * decimal_value(digits.drop_last()) + (digits.last() as int - '0' as int)
    }
}

/// The digits after an optional plus sign.
pub open spec fn unsigned_digits(text: Seq<char>) -> Seq<char> {
    if text.len() > 0 && text[0] == '+' {
        text.drop_first()
    } else {
        text
    }
}

/// An unsigned 64-bit number: decimal digits, at least one, after an optional
/// plus sign, and no larger than the type can hold.
pub open spec fn number(text: Seq<char>) -> Option<u64> {
    let digits = unsigned_digits(text);
    if digits.len() > 0 && all_digits(digits) && decimal_value(digits) <= u64::MAX {
        Some(decimal_value(digits) as u64)
    } else {
        None
    }
}

pub open spec fn digit(n: int) -> char {
    ('0' as int + n) as char
}

/// The shortest decimal notation of a number.
pub open spec fn decimal(n: nat) -> Seq<char>
    decreases n,
{
    if n < 10 {
        seq![digit(n as int)]
    } else {
        decimal(n / 10).push(digit((n % 10) as int))
    }
}

/// The text that bytes encode, where they are UTF-8.
pub open spec fn utf8_text(bytes: Seq<u8>) -> Option<Seq<char>> {
    if valid_utf8(bytes) {
        Some(decode_utf8(bytes))
    } else {
        None
    }
}

/// The texts of a sequence of strings.
pub open spec fn texts(strings: Seq<String>) -> Seq<Seq<char>> {
    strings.map_values(|s: String| s@)
}

/// `span` is the only place where the text before is free of breaks and a break
/// or the end follows.
pub proof fn lemma_span(text: Seq<char>, kind: Break, n: int)
    requires
        0 <= n <= text.len(),
        forall|i: int| 0 <= i < n ==> !is_break(kind, #[trigger] text[i]),
        n < text.len() ==> is_break(kind, text[n]),
    ensures
        span(text, kind) == n,
    decreases n,
{
    if n > 0 {
        assert(!is_break(kind, text[0]));
        let rest = text.drop_first();
        assert forall|i: int| 0 <= i < n - 1 implies !is_break(kind, #[trigger] rest[i]) by {
            assert(rest[i] == text[i + 1]);
        }
        lemma_span(rest, kind, n - 1);
    }
}

/// What `span` counts.
pub proof fn lemma_span_meaning(text: Seq<char>, kind: Break)
    ensures
        span(text, kind) <= text.len(),
        forall|i: int| 0 <= i < span(text, kind) ==> !is_break(kind, #[trigger] text[i]),
        span(text, kind) < text.len() ==> is_break(kind, text[span(text, kind) as int]),
    decreases text.len(),
{
    if text.len() > 0 && !is_break(kind, text[0]) {
        let rest = text.drop_first();
        lemma_span_meaning(rest, kind);
        assert forall|i: int| 0 <= i < span(text, kind) implies !is_break(
            kind,
            #[trigger] text[i],
        ) by {
            if i > 0 {
                assert(text[i] == rest[i - 1]);
            }
        }
    }
}

/// The decimal notation of a number reads as that number.
pub proof fn lemma_decimal(n: nat)
    ensures
        decimal(n).len() > 0,
        all_digits(decimal(n)),
        decimal_value(decimal(n)) == n,
    decreases n,
{
    if n < 10 {
        let text = seq![digit(n as int)];
        assert(text.drop_last() =~= Seq::<char>::empty());
        assert(decimal_value(text.drop_last()) == 0);
    } else {
        lemma_decimal(n / 10);
        let head = decimal(n / 10);
        let text = head.push(digit((n % 10) as int));
        assert(text.drop_last() =~= head);
        assert forall|i: int| 0 <= i < text.len() implies is_digit(#[trigger] text[i]) by {
            if i < head.len() {
                assert(text[i] == head[i]);
            }
        }
    }
}

/// Writing a 64-bit number in decimal and reading it again gives it back.
pub proof fn number_reads_decimal(n: u64)
    ensures
        number(decimal(n as nat)) == Some(n),
{
    lemma_decimal(n as nat);
    assert(is_digit(decimal(n as nat)[0]));
}

proof fn lemma_decimal_value_grows(digits: Seq<char>, n: int)
    requires
        all_digits(digits),
        0 <= n <= digits.len(),
    ensures
        0 <= decimal_value(digits.take(n)) <= decimal_value(digits),
    decreases digits.len(),
{
    if n < digits.len() {
        let front = digits.drop_last();
        assert forall|i: int| 0 <= i < front.len() implies is_digit(#[trigger] front[i]) by {
            assert(front[i] == digits[i]);
        }
        lemma_decimal_value_grows(front, n);
        assert(front.take(n) =~= digits.take(n));
        assert(is_digit(digits.last()));
    } else {
        assert(digits.take(n) =~= digits);
        if n > 0 {
            let front = digits.drop_last();
            assert forall|i: int| 0 <= i < front.len() implies is_digit(#[trigger] front[i]) by {
                assert(front[i] == digits[i]);
            }
            lemma_decimal_value_grows(front, n - 1);
            assert(front.take(n - 1) =~= front);
            assert(is_digit(digits.last()));
        }
    }
}

/// Appending a line to complete lines appends it to their sequence.
pub proof fn lemma_lines_append(content: Seq<char>, line: Seq<char>)
    requires
        content.len() > 0 ==> content.last() == '\n',
        forall|i: int| 0 <= i < line.len() ==> #[trigger] line[i] != '\n' && line[i] != '\r',
    ensures
        lines(content + line + seq!['\n']) == lines(content).push(line),
    decreases content.len(),
{
    let all = content + line + seq!['\n'];
    if content.len() == 0 {
        let n = line.len() as int;
        assert forall|i: int| 0 <= i < n implies !is_break(
            Break::Line,
            #[trigger] all[i],
        ) by {
            assert(all[i] == line[i]);
        }
        lemma_span(all, Break::Line, n);
        assert(all.take(n) =~= line);
        assert(all.skip(n + 1) =~= Seq::<char>::empty());
        assert(lines(Seq::<char>::empty()) =~= Seq::<Seq<char>>::empty());
        assert(lines(content) =~= Seq::<Seq<char>>::empty());
        assert(lines(all) =~= seq![line]);
    } else {
        lemma_span_meaning(content, Break::Line);
        let n = span(content, Break::Line) as int;
        if n == content.len() {
            assert(!is_break(Break::Line, content[content.len() - 1]));
        }
        assert forall|i: int| 0 <= i < n implies !is_break(
            Break::Line,
            #[trigger] all[i],
        ) by {
            assert(all[i] == content[i]);
        }
        assert(all[n] == content[n]);
        lemma_span(all, Break::Line, n);
        let rest = content.skip(n + 1);
        assert(all.take(n) =~= content.take(n));
        assert(all.skip(n + 1) =~= rest + line + seq!['\n']);
        if rest.len() > 0 {
            assert(rest.last() == content.last());
        }
        lemma_lines_append(rest, line);
        assert(lines(all) =~= lines(content).push(line));
    }
}

/// A number in its shortest decimal notation.
pub open spec fn shortest(digits: Seq<char>) -> bool {
    digits.len() > 0 && all_digits(digits) && (digits.len() > 1 ==> digits[0] != '0')
}

/// What is read from a shortest notation is written in the same notation.
pub proof fn shortest_is_written_back(digits: Seq<char>)
    requires
        shortest(digits),
    ensures
        decimal_value(digits) >= 0,
        decimal(decimal_value(digits) as nat) == digits,
        digits[0] != '0' ==> decimal_value(digits) > 0,
    decreases digits.len(),
{
    let front = digits.drop_last();
    assert(is_digit(digits[digits.len() - 1]));
    if digits.len() == 1 {
        assert(front =~= Seq::<char>::empty());
        assert(decimal_value(front) == 0);
        assert(decimal(decimal_value(digits) as nat) =~= digits);
    } else {
        assert forall|i: int| 0 <= i < front.len() implies is_digit(#[trigger] front[i]) by {
            assert(front[i] == digits[i]);
        }
        shortest_is_written_back(front);
        let head = decimal_value(front);
        let n = decimal_value(digits);
        assert(front[0] == digits[0]);
        assert(n / 10 == head && n % 10 == digits.last() as int - '0' as int);
        assert(decimal(n as nat) =~= front.push(digits.last()));
    }
}

/// The notation that is written is the shortest.
pub proof fn written_is_shortest(n: nat)
    ensures
        shortest(decimal(n)),
        n > 0 ==> decimal(n)[0] != '0',
    decreases n,
{
    lemma_decimal(n);
    if n >= 10 {
        written_is_shortest(n / 10);
        lemma_decimal(n / 10);
    }
}

/// A text that ends its lines with lone line feeds is made of its lines: two such texts
/// with the same lines are the same.
pub proof fn lemma_same_lines(a: Seq<char>, b: Seq<char>)
    requires
        a.len() > 0 ==> a.last() == '\n',
        b.len() > 0 ==> b.last() == '\n',
        !a.contains('\r'),
        !b.contains('\r'),
        lines(a) == lines(b),
    ensures
        a == b,
    decreases a.len(),
{
    assert(lines(Seq::<char>::empty()) =~= Seq::<Seq<char>>::empty());
    if a.len() == 0 || b.len() == 0 {
        if a.len() > 0 {
            assert(lines(a).len() > 0);
            assert(b =~= Seq::<char>::empty());
        }
        if b.len() > 0 {
            assert(lines(b).len() > 0);
            assert(a =~= Seq::<char>::empty());
        }
        assert(a =~= b);
    } else {
        lemma_first_line(a);
        lemma_first_line(b);
        let n = span(a, Break::Line) as int;
        let m = span(b, Break::Line) as int;
        assert(a.take(n) == lines(a)[0]);
        assert(b.take(m) == lines(b)[0]);
        assert(n == m);
        assert(lines(a).drop_first() =~= lines(a.skip(n + 1)));
        assert(lines(b).drop_first() =~= lines(b.skip(m + 1)));
        lemma_same_lines(a.skip(n + 1), b.skip(m + 1));
        assert forall|i: int| 0 <= i < a.len() implies a[i] == b[i] by {
            if i < n {
                assert(a[i] == a.take(n)[i]);
                assert(b[i] == b.take(m)[i]);
            } else if i > n {
                assert(a[i] == a.skip(n + 1)[i - n - 1]);
                assert(b[i] == b.skip(m + 1)[i - n - 1]);
            }
        }
        assert(a.len() == n + 1 + a.skip(n + 1).len());
        assert(b.len() == m + 1 + b.skip(m + 1).len());
        assert(a =~= b);
    }
}

/// The first line of a text that ends its lines with lone line feeds, and the rest.
proof fn lemma_first_line(text: Seq<char>)
    requires
        text.len() > 0,
        text.last() == '\n',
        !text.contains('\r'),
    ensures
        ({
            let n = span(text, Break::Line) as int;
            let rest = text.skip(n + 1);
            &&& n < text.len()
            &&& text[n] == '\n'
            &&& lines(text) == seq![text.take(n)] + lines(rest)
            &&& rest.len() > 0 ==> rest.last() == '\n'
            &&& !rest.contains('\r')
        }),
{
    lemma_span_meaning(text, Break::Line);
    let n = span(text, Break::Line) as int;
    if n == text.len() {
        assert(!is_break(Break::Line, text[text.len() - 1]));
    }
    let first = text.take(n);
    let rest = text.skip(n + 1);
    if first.len() > 0 {
        assert(text[n - 1] == first.last());
        assert(text.contains(text[n - 1]));
    }
    assert(without_return(first) == first);
    if rest.contains('\r') {
        let k = choose|k: int| 0 <= k < rest.len() && rest[k] == '\r';
        assert(text[n + 1 + k] == '\r');
    }
}

/// A text is made of its pieces: two texts with the same pieces are the same.
pub proof fn lemma_same_pieces(a: Seq<char>, b: Seq<char>)
    requires
        pieces(a) == pieces(b),
    ensures
        a == b,
    decreases a.len(),
{
    lemma_span_meaning(a, Break::Space);
    lemma_span_meaning(b, Break::Space);
    let n = span(a, Break::Space) as int;
    let m = span(b, Break::Space) as int;
    if n < a.len() && m < b.len() {
        assert(pieces(a)[0] == a.take(n));
        assert(pieces(b)[0] == b.take(m));
        assert(n == m);
        assert(pieces(a).drop_first() =~= pieces(a.skip(n + 1)));
        assert(pieces(b).drop_first() =~= pieces(b.skip(m + 1)));
        lemma_same_pieces(a.skip(n + 1), b.skip(m + 1));
        assert(a.len() == n + 1 + a.skip(n + 1).len());
        assert(b.len() == m + 1 + b.skip(m + 1).len());
        assert forall|i: int| 0 <= i < a.len() implies a[i] == b[i] by {
            if i < n {
                assert(a[i] == a.take(n)[i]);
                assert(b[i] == b.take(m)[i]);
            } else if i > n {
                assert(a[i] == a.skip(n + 1)[i - n - 1]);
                assert(b[i] == b.skip(m + 1)[i - n - 1]);
            }
        }
        assert(a =~= b);
    } else if n < a.len() {
        lemma_some_pieces(a.skip(n + 1));
        assert(pieces(a).len() >= 2);
        assert(pieces(b).len() == 1);
    } else if m < b.len() {
        lemma_some_pieces(b.skip(m + 1));
        assert(pieces(b).len() >= 2);
        assert(pieces(a).len() == 1);
    } else {
        assert(pieces(a)[0] == a);
        assert(pieces(b)[0] == b);
    }
}

/// Every text has a piece.
pub proof fn lemma_some_pieces(text: Seq<char>)
    ensures
        pieces(text).len() > 0,
{
}

/// The lines of two texts one behind the other, the first of which ends its last line,
/// are the lines of the first and then those of the second.
pub proof fn lemma_lines_joined(first: Seq<char>, second: Seq<char>)
    requires
        first.len() > 0 ==> first.last() == '\n',
    ensures
        lines(first + second) == lines(first) + lines(second),
    decreases first.len(),
{
    let all = first + second;
    if first.len() == 0 {
        assert(all =~= second);
        assert(lines(first) =~= Seq::<Seq<char>>::empty());
        assert(lines(first) + lines(second) =~= lines(second));
    } else {
        lemma_span_meaning(first, Break::Line);
        let n = span(first, Break::Line) as int;
        if n == first.len() {
            assert(!is_break(Break::Line, first[first.len() - 1]));
        }
        assert forall|i: int| 0 <= i < n implies !is_break(Break::Line, #[trigger] all[i]) by {
            assert(all[i] == first[i]);
        }
        assert(all[n] == first[n]);
        lemma_span(all, Break::Line, n);
        let rest = first.skip(n + 1);
        assert(all.take(n) =~= first.take(n));
        assert(all.skip(n + 1) =~= rest + second);
        if rest.len() > 0 {
            assert(rest.last() == first.last());
        }
        lemma_lines_joined(rest, second);
        assert(lines(all) =~= lines(first) + lines(second));
    }
}

/// Decodes UTF-8 with `std::str::from_utf8`: the text that the bytes encode, or
/// nothing where they are not UTF-8.
#[verifier::external_body]
pub(crate) fn utf8(bytes: &[u8]) -> (text: Option<&str>)
    ensures
        text is Some <==> utf8_text(bytes@) is Some,
        text matches Some(t) ==> utf8_text(bytes@) == Some(t@),
{
    std::str::from_utf8(bytes).ok()
}

/// The characters of a text.
pub fn characters(text: &str) -> (chars: Vec<char>)
    ensures
        chars@ == text@,
{
    let mut chars: Vec<char> = Vec::new();
    for c in it: text.chars()
        invariant
            chars@ == text@.take(it.index()),
            it.seq() == text@,
    {
        chars.push(c);
    }
    proof {
        assert(text@.take(text@.len() as int) =~= text@);
    }
    chars
}

/// Whether two texts are the same.
pub fn same_text(a: &str, b: &str) -> (same: bool)
    ensures
        same == (a@ == b@),
{
    a.to_owned() == b.to_owned()
}

fn ends_piece(kind: &Break, c: char) -> (ends: bool)
    ensures
        ends == is_break(*kind, c),
{
    match kind {
        Break::Line => c == '\n',
        Break::Space => c == ' ',
        Break::Blank => c == ' ' || c == '\t' || c == '\n' || c == '\x0C' || c == '\r',
    }
}

/// The index of the first break at or after `from`, or the end of the text.
fn next_break(chars: &Vec<char>, from: usize, kind: &Break) -> (end: usize)
    requires
        from <= chars@.len(),
    ensures
        from <= end <= chars@.len(),
        end - from == span(chars@.skip(from as int), *kind),
{
    let mut end: usize = from;
    while end < chars.len() && !ends_piece(kind, chars[end])
        invariant
            from <= end <= chars@.len(),
            forall|i: int| from <= i < end ==> !is_break(*kind, #[trigger] chars@[i]),
        decreases chars@.len() - end,
    {
        end = end + 1;
    }
    proof {
        let rest = chars@.skip(from as int);
        assert forall|i: int| 0 <= i < end - from implies !is_break(*kind, #[trigger] rest[i]) by {
            assert(rest[i] == chars@[i + from]);
        }
        lemma_span(rest, *kind, end - from);
    }
    end
}

proof fn lemma_texts_push(strings: Seq<String>, s: String)
    ensures
        texts(strings.push(s)) == texts(strings).push(s@),
{
    assert(texts(strings.push(s)) =~= texts(strings).push(s@));
}

/// Splits a text into its lines.
pub fn split_lines(text: &str) -> (found: Vec<String>)
    ensures
        texts(found@) == lines(text@),
{
    let chars = characters(text);
    let mut found: Vec<String> = Vec::new();
    let mut from: usize = 0;
    proof {
        assert(text@.skip(0) =~= text@);
        assert(texts(found@) =~= Seq::<Seq<char>>::empty());
    }
    while from < chars.len()
        invariant
            chars@ == text@,
            from <= text@.len(),
            texts(found@) + lines(text@.skip(from as int)) == lines(text@),
        decreases text@.len() - from,
    {
        let end: usize = next_break(&chars, from, &Break::Line);
        let ghost rest = text@.skip(from as int);
        let ghost before = texts(found@);
        if end < chars.len() {
            let stop: usize = if end > from && chars[end - 1] == '\r' {
                end - 1
            } else {
                end
            };
            let line = text.substring_char(from, stop).to_owned();
            proof {
                assert(rest.take(end - from) =~= text@.subrange(from as int, end as int));
                assert(line@ =~= without_return(rest.take(end - from)));
                assert(rest.skip(end - from + 1) =~= text@.skip(end + 1));
                lemma_texts_push(found@, line);
                assert(before + (seq![line@] + lines(text@.skip(end + 1))) =~= before.push(line@)
                    + lines(text@.skip(end + 1)));
            }
            found.push(line);
            from = end + 1;
        } else {
            let line = text.substring_char(from, end).to_owned();
            proof {
                assert(line@ =~= rest);
                assert(text@.skip(end as int) =~= Seq::<char>::empty());
                lemma_texts_push(found@, line);
                assert(before + seq![line@] =~= before.push(line@) + lines(
                    text@.skip(end as int),
                ));
            }
            found.push(line);
            from = end;
        }
    }
    proof {
        assert(text@.skip(from as int) =~= Seq::<char>::empty());
        assert(texts(found@) + Seq::<Seq<char>>::empty() =~= texts(found@));
    }
    found
}

/// Splits a text at its spaces.
pub fn split_pieces(text: &str) -> (found: Vec<String>)
    ensures
        texts(found@) == pieces(text@),
{
    let chars = characters(text);
    let mut found: Vec<String> = Vec::new();
    let mut from: usize = 0;
    let mut end: usize = next_break(&chars, 0, &Break::Space);
    proof {
        assert(text@.skip(0) =~= text@);
        assert(texts(found@) + pieces(text@) =~= pieces(text@));
    }
    while end < chars.len()
        invariant
            chars@ == text@,
            from <= end <= text@.len(),
            end - from == span(text@.skip(from as int), Break::Space),
            texts(found@) + pieces(text@.skip(from as int)) == pieces(text@),
        decreases text@.len() - end,
    {
        let ghost rest = text@.skip(from as int);
        let ghost before = texts(found@);
        let piece = text.substring_char(from, end).to_owned();
        proof {
            assert(rest.take(end - from) =~= piece@);
            assert(rest.skip(end - from + 1) =~= text@.skip(end + 1));
            lemma_texts_push(found@, piece);
            assert(before + (seq![piece@] + pieces(text@.skip(end + 1))) =~= before.push(piece@)
                + pieces(text@.skip(end + 1)));
        }
        found.push(piece);
        from = end + 1;
        end = next_break(&chars, from, &Break::Space);
    }
    let piece = text.substring_char(from, end).to_owned();
    proof {
        assert(piece@ =~= text@.skip(from as int));
        lemma_texts_push(found@, piece);
        assert(texts(found@) + seq![piece@] =~= texts(found@).push(piece@));
    }
    found.push(piece);
    found
}

/// Splits a text into its words.
pub fn split_words(text: &str) -> (found: Vec<String>)
    ensures
        texts(found@) == words(text@),
{
    let chars = characters(text);
    let mut found: Vec<String> = Vec::new();
    let mut from: usize = 0;
    proof {
        assert(text@.skip(0) =~= text@);
        assert(texts(found@) + words(text@) =~= words(text@));
    }
    while from < chars.len()
        invariant
            chars@ == text@,
            from <= text@.len(),
            texts(found@) + words(text@.skip(from as int)) == words(text@),
        decreases text@.len() - from,
    {
        let end: usize = next_break(&chars, from, &Break::Blank);
        let ghost rest = text@.skip(from as int);
        if end == from {
            proof {
                assert(rest.drop_first() =~= text@.skip(from + 1));
            }
            from = from + 1;
        } else {
            let ghost before = texts(found@);
            let word = text.substring_char(from, end).to_owned();
            proof {
                assert(rest.take(end - from) =~= word@);
                assert(rest.skip(end - from) =~= text@.skip(end as int));
                lemma_texts_push(found@, word);
                assert(before + (seq![word@] + words(text@.skip(end as int))) =~= before.push(word@)
                    + words(text@.skip(end as int)));
            }
            found.push(word);
            from = end;
        }
    }
    proof {
        assert(text@.skip(from as int) =~= Seq::<char>::empty());
        assert(texts(found@) + Seq::<Seq<char>>::empty() =~= texts(found@));
    }
    found
}

/// Whether a text holds a character with the Unicode property `White_Space`.
pub fn has_white_space(text: &str) -> (found: bool)
    ensures
        found == exists|i: int| 0 <= i < text@.len() && is_white_space(#[trigger] text@[i]),
{
    let chars = characters(text);
    let mut i: usize = 0;
    while i < chars.len()
        invariant
            chars@ == text@,
            i <= text@.len(),
            forall|j: int| 0 <= j < i ==> !is_white_space(#[trigger] text@[j]),
        decreases text@.len() - i,
    {
        let n: u32 = chars[i] as u32;
        if (0x09 <= n && n <= 0x0D) || n == 0x20 || n == 0x85 || n == 0xA0 || n == 0x1680 || (0x2000
            <= n && n <= 0x200A) || n == 0x2028 || n == 0x2029 || n == 0x202F || n == 0x205F || n
            == 0x3000 {
            assert(is_white_space(text@[i as int]));
            return true;
        }
        i = i + 1;
    }
    false
}

/// Reads an unsigned 64-bit number.
pub fn read_number(text: &str) -> (value: Option<u64>)
    ensures
        value == number(text@),
{
    let chars = characters(text);
    let start: usize = if chars.len() > 0 && chars[0] == '+' {
        1
    } else {
        0
    };
    let ghost digits = unsigned_digits(text@);
    proof {
        assert(digits =~= text@.skip(start as int));
    }
    if start == chars.len() {
        return None;
    }
    let mut value: u64 = 0;
    let mut i: usize = start;
    while i < chars.len()
        invariant
            chars@ == text@,
            digits == unsigned_digits(text@),
            digits == text@.skip(start as int),
            start <= i <= text@.len(),
            all_digits(digits.take(i - start)),
            value == decimal_value(digits.take(i - start)),
        decreases text@.len() - i,
    {
        let c: u32 = chars[i] as u32;
        let ghost read = digits.take(i - start);
        let ghost longer = digits.take(i + 1 - start);
        proof {
            char_u32_cast(chars@[i as int], c);
            assert(longer.drop_last() =~= read);
            assert(longer.last() == text@[i as int]);
        }
        if c < '0' as u32 || c > '9' as u32 {
            assert(!is_digit(digits[i - start]));
            return None;
        }
        let d: u64 = (c - '0' as u32) as u64;
        assert forall|j: int| 0 <= j < longer.len() implies is_digit(#[trigger] longer[j]) by {
            if j < read.len() {
                assert(longer[j] == read[j]);
            } else {
                assert(longer[j] == text@[i as int]);
            }
        }
        if value > u64::MAX / 10 || (value == u64::MAX / 10 && d > u64::MAX % 10) {
            proof {
                assert(decimal_value(longer) > u64::MAX);
                if all_digits(digits) {
                    lemma_decimal_value_grows(digits, i + 1 - start);
                }
            }
            return None;
        }
        value = value * 10 + d;
        i = i + 1;
    }
    proof {
        assert(digits.take(i - start) =~= digits);
    }
    Some(value)
}

fn digit_text(d: u64) -> (text: &'static str)
    requires
        d < 10,
    ensures
        text@ == seq![digit(d as int)],
{
    proof {
        reveal_strlit("0");
        reveal_strlit("1");
        reveal_strlit("2");
        reveal_strlit("3");
        reveal_strlit("4");
        reveal_strlit("5");
        reveal_strlit("6");
        reveal_strlit("7");
        reveal_strlit("8");
        reveal_strlit("9");
    }
    let text = match d {
        0 => "0",
        1 => "1",
        2 => "2",
        3 => "3",
        4 => "4",
        5 => "5",
        6 => "6",
        7 => "7",
        8 => "8",
        _ => "9",
    };
    assert(text@ =~= seq![digit(d as int)]);
    text
}

/// Writes a number in decimal.
pub fn decimal_text(n: u64) -> (text: String)
    ensures
        text@ == decimal(n as nat),
    decreases n,
{
    if n < 10 {
        digit_text(n).to_owned()
    } else {
        let mut text = decimal_text(n / 10);
        text.append(digit_text(n % 10));
        proof {
            assert(text@ =~= decimal((n / 10) as nat).push(digit((n % 10) as int)));
        }
        text
    }
}

/// One digit is the number that it shows, with or without a plus sign.
pub proof fn a_digit_is_a_number(c: char)
    requires
        '0' <= c <= '9',
    ensures
        number(seq![c]) == Some((c as int - '0' as int) as u64),
        number(seq!['+', c]) == Some((c as int - '0' as int) as u64),
{
    let one = seq![c];
    assert(one.drop_last() =~= Seq::<char>::empty());
    assert(decimal_value(one.drop_last()) == 0);
    assert(decimal_value(one) == c as int - '0' as int);
    assert(all_digits(one));
    assert(unsigned_digits(one) == one);
    assert(seq!['+', c].drop_first() =~= one);
}

/// One more digit makes a number ten times as large, and adds the digit. What is too large
/// is no number, and neither is what anything but a digit has been appended to.
pub proof fn a_number_grows_by_digits(text: Seq<char>, c: char)
    ensures
        '0' <= c <= '9' ==> (number(text) matches Some(n) ==> number(text.push(c)) == if 10 * n + (
        c as int - '0' as int) <= u64::MAX {
            Some((10 * n + (c as int - '0' as int)) as u64)
        } else {
            None
        }),
        !('0' <= c <= '9') ==> number(text.push(c)) is None,
        number(text) is None && (text.len() > 1 || text.len() == 1 && text[0] != '+')
            ==> number(text.push(c)) is None,
        number(Seq::empty()) is None,
        number(seq!['+']) is None,
{
    let more = text.push(c);
    let digits = unsigned_digits(text);
    let grown = unsigned_digits(more);
    assert(unsigned_digits(seq!['+']) =~= Seq::<char>::empty());
    if text.len() > 0 {
        assert(more[0] == text[0]);
        assert(grown =~= digits.push(c));
        assert(grown.drop_last() =~= digits);
        if all_digits(grown) {
            assert forall|i: int| 0 <= i < digits.len() implies is_digit(#[trigger] digits[i]) by {
                assert(digits[i] == grown[i]);
            }
            lemma_decimal_value_grows(grown, digits.len() as int);
            assert(grown.take(digits.len() as int) =~= digits);
        }
        if all_digits(digits) && is_digit(c) {
            assert forall|i: int| 0 <= i < grown.len() implies is_digit(#[trigger] grown[i]) by {
                if i < digits.len() {
                    assert(grown[i] == digits[i]);
                }
            }
        }
        if !is_digit(c) {
            assert(!is_digit(grown[digits.len() as int]));
        }
    } else {
        assert(more =~= seq![c]);
        if c == '+' {
            assert(grown =~= Seq::<char>::empty());
        } else if !is_digit(c) {
            assert(!is_digit(grown[0]));
        }
    }
}

/// The characters that count as white space.
pub proof fn white_space_is(c: char)
    ensures
        is_white_space(c) <==> '\t' <= c <= '\r' || c == ' ' || c == '\u{85}' || c == '\u{a0}' || c
            == '\u{1680}' || '\u{2000}' <= c <= '\u{200a}' || '\u{2028}' <= c <= '\u{2029}' || c
            == '\u{202f}' || c == '\u{205f}' || c == '\u{3000}',
{
}

/// A text is taken apart at its spaces, and only there.
pub proof fn pieces_stand_between_spaces(first: Seq<char>, rest: Seq<char>)
    requires
        !first.contains(' '),
    ensures
        pieces(first) == seq![first],
        pieces(first + seq![' '] + rest) == seq![first] + pieces(rest),
{
    let all = first + seq![' '] + rest;
    let n = first.len() as int;
    assert forall|i: int| 0 <= i < n implies !is_break(Break::Space, #[trigger] first[i]) by {
        assert(first.contains(first[i]));
    }
    assert forall|i: int| 0 <= i < n implies !is_break(Break::Space, #[trigger] all[i]) by {
        assert(all[i] == first[i]);
        assert(!is_break(Break::Space, first[i]));
    }
    lemma_span(first, Break::Space, n);
    lemma_span(all, Break::Space, n);
    assert(all.take(n) =~= first);
    assert(all.skip(n + 1) =~= rest);
}

/// Whether a character is one of the blanks between words.
pub open spec fn blank(c: char) -> bool {
    c == ' ' || c == '\t' || c == '\n' || c == '\x0C' || c == '\r'
}

/// Words are what stands between blanks: blanks count for nothing themselves, and as many
/// as one likes may stand between two words.
pub proof fn words_stand_between_blanks(first: Seq<char>, c: char, rest: Seq<char>)
    requires
        blank(c),
        forall|i: int| 0 <= i < first.len() ==> !blank(#[trigger] first[i]),
    ensures
        words(Seq::empty()) == Seq::<Seq<char>>::empty(),
        words(seq![c] + rest) == words(rest),
        first.len() > 0 ==> words(first) == seq![first],
        first.len() > 0 ==> words(first + seq![c] + rest) == seq![first] + words(rest),
{
    let behind = seq![c] + rest;
    assert(words(Seq::<char>::empty()) =~= Seq::<Seq<char>>::empty());
    lemma_span(behind, Break::Blank, 0);
    assert(behind.drop_first() =~= rest);
    assert(words(behind) == words(rest));
    if first.len() > 0 {
        let all = first + seq![c] + rest;
        let n = first.len() as int;
        assert forall|i: int| 0 <= i < n implies !is_break(Break::Blank, #[trigger] first[i]) by {
            assert(!blank(first[i]));
        }
        assert forall|i: int| 0 <= i < n implies !is_break(Break::Blank, #[trigger] all[i]) by {
            assert(all[i] == first[i]);
            assert(!blank(first[i]));
        }
        lemma_span(first, Break::Blank, n);
        lemma_span(all, Break::Blank, n);
        assert(first.take(n) =~= first);
        assert(first.skip(n) =~= Seq::<char>::empty());
        assert(words(first) =~= seq![first]);
        assert(all.take(n) =~= first);
        assert(all.skip(n) =~= behind);
        assert(words(all) == seq![first] + words(behind));
    }
}

/// Lines end with a line feed, before which one carriage return belongs to the ending. The
/// last line need not end, and there is none behind the last ending.
pub proof fn lines_end_with_line_feeds(line: Seq<char>, rest: Seq<char>)
    requires
        !line.contains('\n'),
    ensures
        lines(Seq::empty()) == Seq::<Seq<char>>::empty(),
        line.len() > 0 ==> lines(line) == seq![line],
        (line.len() == 0 || line.last() != '\r') ==> lines(line + seq!['\n'] + rest) == seq![line]
            + lines(rest),
        lines(line + seq!['\r', '\n'] + rest) == seq![line] + lines(rest),
{
    assert(lines(Seq::<char>::empty()) =~= Seq::<Seq<char>>::empty());
    let n = line.len() as int;
    assert forall|i: int| 0 <= i < n implies !is_break(Break::Line, #[trigger] line[i]) by {
        assert(line.contains(line[i]));
    }
    lemma_span(line, Break::Line, n);
    let one = line + seq!['\n'] + rest;
    assert forall|i: int| 0 <= i < n implies !is_break(Break::Line, #[trigger] one[i]) by {
        assert(one[i] == line[i]);
        assert(!is_break(Break::Line, line[i]));
    }
    lemma_span(one, Break::Line, n);
    assert(one.take(n) =~= line);
    assert(one.skip(n + 1) =~= rest);
    let two = line + seq!['\r', '\n'] + rest;
    assert forall|i: int| 0 <= i < n + 1 implies !is_break(Break::Line, #[trigger] two[i]) by {
        if i < n {
            assert(two[i] == line[i]);
            assert(!is_break(Break::Line, line[i]));
        } else {
            assert(two[i] == '\r');
        }
    }
    assert(two[n + 1] == '\n');
    lemma_span(two, Break::Line, n + 1);
    assert(two.take(n + 1) =~= line.push('\r'));
    assert(line.push('\r').drop_last() =~= line);
    assert(two.skip(n + 2) =~= rest);
}

}
