//! The text form of records: one `key=value` line for each.
use vstd::prelude::*;
use vstd::string::StringExecFns;

verus! {

/// Taken on trust, not proved here: `String::push` of the standard library
/// appends the given character to the end of the string, so that the
/// characters of the string afterwards are those before, followed by `c`.
pub assume_specification[ String::push ](s: &mut String, c: char)
    ensures
        final(s)@ == old(s)@.push(c),
;

/// The character that parts a key from its value.
pub const SEPARATOR: char = '=';

/// The character that ends a record.
pub const NEWLINE: char = '\n';

/// A record as the text form sees it: the characters of a key and of a value.
pub type Record = (Seq<char>, Seq<char>);

/// The index of the first `c` in `s`, or the length of `s` where there is none.
pub open spec fn first_index(s: Seq<char>, c: char) -> nat
    decreases s.len(),
{
    if s.len() == 0 || s[0] == c {
        0
    } else {
        1 + first_index(s.drop_first(), c)
    }
}

/// The record that a line holds: what stands before its first separator is
/// the key, what stands after it the value, further separators included. A
/// line without a separator holds none.
pub open spec fn line_record(line: Seq<char>) -> Option<Record> {
    let at = first_index(line, SEPARATOR) as int;
    if at < line.len() {
        Some((line.take(at), line.skip(at + 1)))
    } else {
        None
    }
}

/// The records of a text, in the order of its lines. A newline ends a line;
/// the last line may lack it.
pub open spec fn records(text: Seq<char>) -> Seq<Record>
    decreases text.len(),
{
    if text.len() == 0 {
        Seq::empty()
    } else {
        let end = first_index(text, NEWLINE) as int;
        let first = match line_record(text.take(end)) {
            Some(record) => seq![record],
            None => Seq::empty(),
        };
        if end < text.len() {
            first + records(text.skip(end + 1))
        } else {
            first
        }
    }
}

/// The line that stores one record: key, separator, value, newline.
pub open spec fn render_record(record: Record) -> Seq<char> {
    record.0.push(SEPARATOR) + record.1.push(NEWLINE)
}

/// The text that stores the given records, one line each, in their order.
pub open spec fn render(records: Seq<Record>) -> Seq<char>
    decreases records.len(),
{
    if records.len() == 0 {
        Seq::empty()
    } else {
        render(records.drop_last()) + render_record(records.last())
    }
}

/// A record that the text form gives back as it was: its key holds neither
/// separator nor newline, its value no newline.
pub open spec fn storable(record: Record) -> bool {
    &&& !record.0.contains(SEPARATOR)
    &&& !record.0.contains(NEWLINE)
    &&& !record.1.contains(NEWLINE)
}

/// Records held in strings as the text form sees them.
pub open spec fn records_view(parsed: Seq<(String, String)>) -> Seq<Record> {
    parsed.map_values(|r: (String, String)| (r.0@, r.1@))
}

/// An index with no `c` before it, which holds `c` or is the length, is the
/// first index of `c`.
pub proof fn lemma_first_index_is(s: Seq<char>, c: char, n: int)
    requires
        0 <= n <= s.len(),
        forall|j: int| 0 <= j < n ==> s[j] != c,
        n < s.len() ==> s[n] == c,
    ensures
        first_index(s, c) == n,
    decreases s.len(),
{
    if s.len() == 0 || s[0] == c {
    } else {
        let t = s.drop_first();
        assert forall|j: int| 0 <= j < n - 1 implies t[j] != c by {
            assert(t[j] == s[j + 1]);
        }
        lemma_first_index_is(t, c, n - 1);
    }
}

/// Rendering puts the line of the first record before the lines of the rest.
pub proof fn lemma_render_first(first: Record, rest: Seq<Record>)
    ensures
        render(seq![first] + rest) == render_record(first) + render(rest),
    decreases rest.len(),
{
    let all = seq![first] + rest;
    if rest.len() == 0 {
        assert(render(all) == render(all.drop_last()) + render_record(first));
    } else {
        assert(all.drop_last() =~= seq![first] + rest.drop_last());
        lemma_render_first(first, rest.drop_last());
    }
}

/// A text that begins with the line of a storable record holds that record
/// first, and then the records of what follows the line.
pub proof fn lemma_records_after_line(record: Record, text: Seq<char>)
    requires
        storable(record),
    ensures
        records(render_record(record) + text) == seq![record] + records(text),
{
    let (key, value) = record;
    let whole = render_record(record) + text;
    let split = key.len() as int;
    let end = split + 1 + value.len();
    assert forall|j: int| 0 <= j < end implies whole[j] != NEWLINE by {
        if j < split {
            assert(whole[j] == key[j]);
        } else if j > split {
            assert(whole[j] == value[j - split - 1]);
        }
    }
    lemma_first_index_is(whole, NEWLINE, end);
    let line = whole.take(end);
    assert forall|j: int| 0 <= j < split implies line[j] != SEPARATOR by {
        assert(line[j] == key[j]);
    }
    lemma_first_index_is(line, SEPARATOR, split);
    assert(line.take(split) =~= key);
    assert(line.skip(split + 1) =~= value);
    assert(whole.skip(end + 1) =~= text);
}

/// Reading what was rendered gives the records back, where each of them is
/// storable.
pub proof fn lemma_records_of_render(stored: Seq<Record>)
    requires
        forall|i: int| 0 <= i < stored.len() ==> storable(#[trigger] stored[i]),
    ensures
        records(render(stored)) == stored,
    decreases stored.len(),
{
    if stored.len() > 0 {
        let first = stored[0];
        let rest = stored.drop_first();
        assert(stored =~= seq![first] + rest);
        lemma_render_first(first, rest);
        lemma_records_after_line(first, render(rest));
        assert forall|i: int| 0 <= i < rest.len() implies storable(#[trigger] rest[i]) by {
            assert(rest[i] == stored[i + 1]);
        }
        lemma_records_of_render(rest);
    }
}

/// What a reader knows in the middle of a line: the line began at `start`
/// and has no newline before `upto`; with `in_value` its first separator
/// stands at `at`, without it the line has none before `upto`.
spec fn within_line(text: Seq<char>, start: int, upto: int, in_value: bool, at: int) -> bool {
    &&& 0 <= start <= upto <= text.len()
    &&& forall|j: int| start <= j < upto ==> text[j] != NEWLINE
    &&& if in_value {
        &&& start <= at < upto
        &&& text[at] == SEPARATOR
        &&& forall|j: int| start <= j < at ==> text[j] != SEPARATOR
    } else {
        forall|j: int| start <= j < upto ==> text[j] != SEPARATOR
    }
}

/// The record of the line from `start` to `end`, by what `within_line` knows.
spec fn record_within(text: Seq<char>, start: int, end: int, in_value: bool, at: int) -> Seq<
    Record,
> {
    if in_value {
        seq![(text.subrange(start, at), text.subrange(at + 1, end))]
    } else {
        Seq::empty()
    }
}

/// The line from `start` to `end` holds what `record_within` says.
proof fn lemma_line_record(text: Seq<char>, start: int, end: int, in_value: bool, at: int)
    requires
        within_line(text, start, end, in_value, at),
    ensures
        record_within(text, start, end, in_value, at) == (match line_record(
            text.subrange(start, end),
        ) {
            Some(record) => seq![record],
            None => Seq::empty(),
        }),
{
    let line = text.subrange(start, end);
    if in_value {
        lemma_first_index_is(line, SEPARATOR, at - start);
        assert(line.take(at - start) =~= text.subrange(start, at));
        assert(line.skip(at - start + 1) =~= text.subrange(at + 1, end));
    } else {
        lemma_first_index_is(line, SEPARATOR, end - start);
    }
}

/// The records from a line start on, where the line ends in a newline at
/// `end`.
proof fn lemma_records_at_newline(text: Seq<char>, start: int, end: int, in_value: bool, at: int)
    requires
        within_line(text, start, end, in_value, at),
        end < text.len(),
        text[end] == NEWLINE,
    ensures
        records(text.skip(start)) == record_within(text, start, end, in_value, at) + records(
            text.skip(end + 1),
        ),
{
    let rest = text.skip(start);
    lemma_first_index_is(rest, NEWLINE, end - start);
    assert(rest.take(end - start) =~= text.subrange(start, end));
    assert(rest.skip(end - start + 1) =~= text.skip(end + 1));
    lemma_line_record(text, start, end, in_value, at);
}

/// The records from a line start on, where the line runs to the end of the
/// text.
proof fn lemma_records_at_end(text: Seq<char>, start: int, in_value: bool, at: int)
    requires
        within_line(text, start, text.len() as int, in_value, at),
    ensures
        records(text.skip(start)) == record_within(text, start, text.len() as int, in_value, at),
{
    let rest = text.skip(start);
    if rest.len() > 0 {
        lemma_first_index_is(rest, NEWLINE, rest.len() as int);
        assert(rest.take(rest.len() as int) =~= text.subrange(start, text.len() as int));
        lemma_line_record(text, start, text.len() as int, in_value, at);
    }
}

/// Reads the records of a text.
pub fn parse_records(text: &str) -> (parsed: Vec<(String, String)>)
    ensures
        records_view(parsed@) == records(text@),
{
    let mut parsed: Vec<(String, String)> = Vec::new();
    let mut key = String::new();
    let mut value = String::new();
    let mut in_value = false;
    let ghost mut start: int = 0;
    let ghost mut at: int = 0;
    proof {
        assert(text@.skip(0) =~= text@);
    }
    for c in it: text.chars()
        invariant
            it.seq() == text@,
            within_line(text@, start, it.index() as int, in_value, at),
            records_view(parsed@) + records(text@.skip(start)) == records(text@),
            key@ == text@.subrange(start, if in_value { at } else { it.index() as int }),
            value@ == (if in_value {
                text@.subrange(at + 1, it.index() as int)
            } else {
                Seq::empty()
            }),
    {
        let ghost i = it.index() as int;
        if c == NEWLINE {
            proof {
                lemma_records_at_newline(text@, start, i, in_value, at);
            }
            if in_value {
                parsed.push((key, value));
            }
            key = String::new();
            value = String::new();
            in_value = false;
            proof {
                start = i + 1;
            }
        } else if in_value {
            value.push(c);
        } else if c == SEPARATOR {
            in_value = true;
            proof {
                at = i;
            }
        } else {
            key.push(c);
        }
    }
    proof {
        lemma_records_at_end(text@, start, in_value, at);
    }
    if in_value {
        parsed.push((key, value));
    }
    parsed
}

/// Appends the line that stores the record of `key` and `value`.
pub fn write_record(out: &mut String, key: &str, value: &str)
    ensures
        final(out)@ == old(out)@ + render_record((key@, value@)),
{
    out.append(key);
    out.push(SEPARATOR);
    out.append(value);
    out.push(NEWLINE);
}

} // verus!
