use crate::error::PipelineError;
use crate::region::RegionEntry;
use vstd::prelude::*;
use vstd::std_specs::iter::IteratorSpec;
use vstd::string::{spec_iter, StrSliceExecFns};

verus! {

/// Whether `c` is one of the decimal digits `0` to `9`.
pub open spec fn is_digit(c: char) -> bool {
    48 <= c as u32 <= 57
}

/// The number that a decimal digit stands for.
pub open spec fn digit_value(c: char) -> int {
    c as u32 - 48
}

/// Whether every character of `text` is a decimal digit.
pub open spec fn all_digits(text: Seq<char>) -> bool {
    forall|i: int| 0 <= i < text.len() ==> is_digit(#[trigger] text[i])
}

/// The number that a run of decimal digits stands for.
pub open spec fn digits_value(digits: Seq<char>) -> int
    decreases digits.len(),
{
    if digits.len() == 0 {
        0
    } else {
        10 * digits_value(digits.drop_last()) + digit_value(digits.last())
    }
}

/// `text` without the one `+` that may stand in front of a coordinate.
pub open spec fn unsigned_part(text: Seq<char>) -> Seq<char> {
    if text.len() > 0 && text[0] == '+' {
        text.drop_first()
    } else {
        text
    }
}

/// The coordinate that `text` denotes: an optional `+` and then one or more
/// decimal digits whose value fits in 64 bits. Anything else, the empty
/// text and surrounding blanks included, denotes none.
pub open spec fn coordinate_of(text: Seq<char>) -> Option<u64> {
    let digits = unsigned_part(text);
    if digits.len() > 0 && all_digits(digits) && digits_value(digits) <= u64::MAX {
        Some(digits_value(digits) as u64)
    } else {
        None
    }
}

/// Where the field that starts at `from` ends: at the next tab, or at the
/// end of the line.
pub open spec fn field_end(line: Seq<char>, from: int) -> int
    decreases line.len() - from,
{
    if from < 0 || from >= line.len() {
        line.len() as int
    } else if line[from] == '\t' {
        from
    } else {
        field_end(line, from + 1)
    }
}

/// The first three tab-separated fields of a line, if it has three.
pub open spec fn region_fields(line: Seq<char>) -> Option<(Seq<char>, Seq<char>, Seq<char>)> {
    let first = field_end(line, 0);
    let second = field_end(line, first + 1);
    let third = field_end(line, second + 1);
    if first < line.len() && second < line.len() {
        Some(
            (
                line.subrange(0, first),
                line.subrange(first + 1, second),
                line.subrange(second + 1, third),
            ),
        )
    } else {
        None
    }
}

/// What a line of a region source means: nothing if it has fewer than
/// three fields; otherwise a key and two coordinates, or malformed input
/// where the second or third field denotes no coordinate.
pub open spec fn parsed_line(line: Seq<char>) -> Result<Option<(Seq<char>, u64, u64)>, PipelineError> {
    match region_fields(line) {
        None => Ok(None),
        Some((key, start, end)) => match (coordinate_of(start), coordinate_of(end)) {
            (Some(low), Some(high)) => Ok(Some((key, low, high))),
            _ => Err(PipelineError::MalformedInput),
        },
    }
}

/// The entries that a run of well-formed lines yields, in their order.
pub open spec fn collected(lines: Seq<String>) -> Seq<(Seq<char>, u64, u64)>
    decreases lines.len(),
{
    if lines.len() == 0 {
        Seq::empty()
    } else {
        let before = collected(lines.drop_last());
        match parsed_line(lines.last()@) {
            Ok(Some(entry)) => before.push(entry),
            _ => before,
        }
    }
}

/// Whether some line is malformed.
pub open spec fn some_malformed(lines: Seq<String>) -> bool {
    exists|i: int| 0 <= i < lines.len() && parsed_line((#[trigger] lines[i])@) is Err
}

proof fn lemma_field_end_bounds(line: Seq<char>, from: int)
    requires
        0 <= from <= line.len(),
    ensures
        from <= field_end(line, from) <= line.len(),
        field_end(line, from) < line.len() ==> line[field_end(line, from)] == '\t',
        forall|i: int| from <= i < field_end(line, from) ==> line[i] != '\t',
    decreases line.len() - from,
{
    if from < line.len() && line[from] != '\t' {
        lemma_field_end_bounds(line, from + 1);
    }
}

proof fn lemma_value_of_prefix(digits: Seq<char>, upto: int)
    requires
        all_digits(digits),
        0 <= upto <= digits.len(),
    ensures
        0 <= digits_value(digits.take(upto)) <= digits_value(digits),
    decreases digits.len(),
{
    if upto == digits.len() {
        assert(digits.take(upto) =~= digits);
        if digits.len() > 0 {
            assert(all_digits(digits.drop_last()));
            lemma_value_of_prefix(digits.drop_last(), upto - 1);
            assert(is_digit(digits.last()));
        }
    } else {
        assert(all_digits(digits.drop_last()));
        assert(digits.drop_last().take(upto) =~= digits.take(upto));
        lemma_value_of_prefix(digits.drop_last(), upto);
        assert(is_digit(digits.last()));
    }
}

/// The characters of `text`.
fn chars_of(text: &str) -> (chars: Vec<char>)
    ensures
        chars@ == text@,
{
    let mut chars: Vec<char> = Vec::new();
    let ghost walk = spec_iter(text).remaining();
    for c in it: text.chars()
        invariant
            it.seq() == walk,
            chars@.len() == it.index(),
            forall|i: int| 0 <= i < chars@.len() ==> chars@[i] == walk[i],
    {
        chars.push(c);
    }
    assert(chars@ =~= text@);
    chars
}

/// The end of the field of `chars` that starts at `from`.
fn find_field_end(chars: &Vec<char>, from: usize) -> (end: usize)
    requires
        from <= chars.len(),
    ensures
        end == field_end(chars@, from as int),
        from <= end <= chars.len(),
{
    let mut at: usize = from;
    while at < chars.len() && chars[at] != '\t'
        invariant
            from <= at <= chars.len(),
            field_end(chars@, at as int) == field_end(chars@, from as int),
        decreases chars.len() - at,
    {
        at = at + 1;
    }
    at
}

/// The coordinate that the characters `from .. to` of `chars` denote.
fn coordinate_in(chars: &Vec<char>, from: usize, to: usize) -> (value: Option<u64>)
    requires
        from <= to <= chars.len(),
    ensures
        value == coordinate_of(chars@.subrange(from as int, to as int)),
{
    let ghost text = chars@.subrange(from as int, to as int);
    let start: usize = if from < to && chars[from] == '+' {
        from + 1
    } else {
        from
    };
    let ghost digits = unsigned_part(text);
    assert(digits =~= chars@.subrange(start as int, to as int));
    if start == to {
        return None;
    }
    let mut value: u64 = 0;
    let mut at: usize = start;
    while at < to
        invariant
            start <= at <= to <= chars.len(),
            from <= to,
            digits == chars@.subrange(start as int, to as int),
            digits == unsigned_part(chars@.subrange(from as int, to as int)),
            all_digits(digits.take(at - start)),
            value == digits_value(digits.take(at - start)),
        decreases to - at,
    {
        let code: u32 = chars[at] as u32;
        let ghost seen = digits.take(at - start);
        let ghost grown = digits.take(at - start + 1);
        proof {
            assert(grown.drop_last() =~= seen);
            assert(grown.last() == chars@[at as int]);
        }
        if code < 48 || code > 57 {
            assert(!is_digit(digits[at - start]));
            return None;
        }
        let digit: u64 = (code - 48) as u64;
        let scaled: u64 = match value.checked_mul(10) {
            Some(scaled) => scaled,
            None => {
                proof {
                    if all_digits(digits) {
                        lemma_value_of_prefix(digits, at - start + 1);
                    }
                }
                return None;
            },
        };
        value = match scaled.checked_add(digit) {
            Some(sum) => sum,
            None => {
                proof {
                    if all_digits(digits) {
                        lemma_value_of_prefix(digits, at - start + 1);
                    }
                }
                return None;
            },
        };
        proof {
            assert forall|i: int| 0 <= i < grown.len() implies is_digit(#[trigger] grown[i]) by {
                if i < seen.len() {
                    assert(grown[i] == seen[i]);
                }
            }
        }
        at = at + 1;
    }
    assert(digits.take(to - start) =~= digits);
    Some(value)
}

/// Reads a coordinate: an optional `+` and then decimal digits, nothing
/// else, with a value that fits in 64 bits.
pub fn parse_coordinate(text: &str) -> (value: Option<u64>)
    ensures
        value == coordinate_of(text@),
{
    let chars = chars_of(text);
    assert(chars@.subrange(0, chars@.len() as int) =~= chars@);
    coordinate_in(&chars, 0, chars.len())
}

/// Reads one line of a region source. The fields are separated by tabs;
/// the first three are the key, the start and the end. A line with fewer
/// than three fields is skipped. A line whose start or end is no
/// coordinate is malformed.
pub fn parse_region_line(line: &str) -> (outcome: Result<Option<RegionEntry>, PipelineError>)
    ensures
        match (outcome, parsed_line(line@)) {
            (Ok(None), Ok(None)) => true,
            (Ok(Some(entry)), Ok(Some(meant))) => entry@ == meant,
            (Err(error), Err(meant)) => error == meant,
            _ => false,
        },
{
    let chars = chars_of(line);
    let count = chars.len();
    let first = find_field_end(&chars, 0);
    if first >= count {
        return Ok(None);
    }
    let second = find_field_end(&chars, first + 1);
    if second >= count {
        return Ok(None);
    }
    let third = find_field_end(&chars, second + 1);
    let start = coordinate_in(&chars, first + 1, second);
    let end = coordinate_in(&chars, second + 1, third);
    match (start, end) {
        (Some(low), Some(high)) => {
            let key: String = line.substring_char(0, first).to_owned();
            Ok(Some(RegionEntry { key, start: low, end: high }))
        },
        _ => Err(PipelineError::MalformedInput),
    }
}

/// Reads the lines of a region source. Lines with fewer than three fields
/// are skipped; the first malformed line ends the reading.
pub fn parse_regions(lines: &Vec<String>) -> (outcome: Result<Vec<RegionEntry>, PipelineError>)
    ensures
        match outcome {
            Ok(entries) => !some_malformed(lines@) && entries@.map_values(|e: RegionEntry| e@)
                == collected(lines@),
            Err(error) => some_malformed(lines@) && error == PipelineError::MalformedInput,
        },
{
    let mut entries: Vec<RegionEntry> = Vec::new();
    let mut at: usize = 0;
    while at < lines.len()
        invariant
            at <= lines.len(),
            forall|i: int| 0 <= i < at ==> parsed_line((#[trigger] lines@[i])@) is Ok,
            entries@.map_values(|e: RegionEntry| e@) == collected(lines@.take(at as int)),
        decreases lines.len() - at,
    {
        let ghost before = entries@.map_values(|e: RegionEntry| e@);
        proof {
            assert(lines@.take(at + 1).drop_last() =~= lines@.take(at as int));
            assert(lines@.take(at + 1).last() == lines@[at as int]);
        }
        match parse_region_line(lines[at].as_str()) {
            Ok(Some(entry)) => {
                entries.push(entry);
                assert(entries@.map_values(|e: RegionEntry| e@) =~= before.push(entry@));
            },
            Ok(None) => {},
            Err(error) => {
                return Err(error);
            },
        }
        at = at + 1;
    }
    assert(lines@.take(lines@.len() as int) =~= lines@);
    Ok(entries)
}

} // verus!
