//! Reading one line: where the key ends, and what the reading is worth.
//!
//! A line is `key;reading`. The reading has a fixed shape, an optional minus
//! sign, one or two digits, a dot and one digit, and stands for a number of
//! tenths.

use vstd::prelude::*;

verus! {

/// The byte that ends a line.
pub const NEWLINE: u8 = 0x0a;

/// The byte between key and reading.
pub const DELIMITER: u8 = 0x3b;

/// The sign of a negative reading.
pub const MINUS: u8 = 0x2d;

/// The byte between the whole part and the tenth.
pub const DOT: u8 = 0x2e;

/// A reading that does not have the fixed decimal shape.
#[derive(Clone, Copy, Debug, PartialEq, Eq)]
pub struct FormatError;

/// One parsed line: the key as a view into the line, and the reading in tenths.
#[derive(Clone, Copy, Debug)]
pub struct ParsedLine<'a> {
    pub key: &'a [u8],
    pub reading: i32,
}

/// The index of the first `byte` in `s` at or after `from`, or `s.len()`
/// where there is none.
pub open spec fn first_at(s: Seq<u8>, byte: u8, from: int) -> int
    decreases s.len() - from,
{
    if from < 0 || from >= s.len() {
        s.len() as int
    } else if s[from] == byte {
        from
    } else {
        first_at(s, byte, from + 1)
    }
}

/// What `first_at` finds: nothing before it, from `from` on, is `byte`, and it
/// is `byte` itself unless it is the end.
pub proof fn lemma_first_at(s: Seq<u8>, byte: u8, from: int)
    requires
        0 <= from <= s.len(),
    ensures
        from <= first_at(s, byte, from) <= s.len(),
        first_at(s, byte, from) < s.len() ==> s[first_at(s, byte, from)] == byte,
        forall|i: int| from <= i < first_at(s, byte, from) ==> s[i] != byte,
    decreases s.len() - from,
{
    if from < s.len() && s[from] != byte {
        lemma_first_at(s, byte, from + 1);
    }
}

/// `first_at` is the only index with the properties that `lemma_first_at` gives.
pub proof fn lemma_first_at_unique(s: Seq<u8>, byte: u8, from: int, at: int)
    requires
        0 <= from <= at <= s.len(),
        at < s.len() ==> s[at] == byte,
        forall|i: int| from <= i < at ==> s[i] != byte,
    ensures
        first_at(s, byte, from) == at,
    decreases at - from,
{
    if from < at {
        lemma_first_at_unique(s, byte, from + 1, at);
    }
}

/// An ASCII decimal digit.
pub open spec fn is_digit(b: u8) -> bool {
    0x30 <= b <= 0x39
}

/// The number that a digit stands for.
pub open spec fn digit_value(b: u8) -> int {
    b - 0x30
}

/// One or two digits, a dot, one digit.
pub open spec fn magnitude_shape(s: Seq<u8>) -> bool {
    ||| s.len() == 3 && is_digit(s[0]) && s[1] == DOT && is_digit(s[2])
    ||| s.len() == 4 && is_digit(s[0]) && is_digit(s[1]) && s[2] == DOT && is_digit(s[3])
}

/// The tenths that a magnitude stands for.
pub open spec fn magnitude_value(s: Seq<u8>) -> int {
    if s.len() == 3 {
        digit_value(s[0]) * 10 + digit_value(s[2])
    } else {
        digit_value(s[0]) * 100 + digit_value(s[1]) * 10 + digit_value(s[3])
    }
}

/// The fixed shape of a reading: an optional minus sign, then a magnitude.
pub open spec fn reading_shape(s: Seq<u8>) -> bool {
    if s.len() > 0 && s[0] == MINUS {
        magnitude_shape(s.skip(1))
    } else {
        magnitude_shape(s)
    }
}

/// The tenths that a reading of the fixed shape stands for.
pub open spec fn reading_value(s: Seq<u8>) -> int {
    if s.len() > 0 && s[0] == MINUS {
        -magnitude_value(s.skip(1))
    } else {
        magnitude_value(s)
    }
}

/// A reading of the fixed shape lies strictly between -100.0 and 100.0.
pub proof fn lemma_reading_range(s: Seq<u8>)
    requires
        reading_shape(s),
    ensures
        -1000 < reading_value(s) < 1000,
{
}

/// Whether a line carries a record, that is, holds a delimiter.
pub open spec fn has_record(line: Seq<u8>) -> bool {
    first_at(line, DELIMITER, 0) < line.len()
}

/// The bytes before the first delimiter.
pub open spec fn line_key(line: Seq<u8>) -> Seq<u8> {
    line.take(first_at(line, DELIMITER, 0))
}

/// The bytes after the first delimiter.
pub open spec fn line_tail(line: Seq<u8>) -> Seq<u8> {
    line.skip(first_at(line, DELIMITER, 0) + 1)
}

/// A line that carries a record whose reading has not the fixed shape.
pub open spec fn line_malformed(line: Seq<u8>) -> bool {
    has_record(line) && !reading_shape(line_tail(line))
}

/// The tenths recorded on a line.
pub open spec fn line_reading(line: Seq<u8>) -> int {
    reading_value(line_tail(line))
}

/// Scans forward from `from` for `byte`; gives the end of `data` if it is not found.
pub fn find_byte(data: &[u8], byte: u8, from: usize) -> (at: usize)
    requires
        from <= data@.len(),
    ensures
        at == first_at(data@, byte, from as int),
        from <= at <= data@.len(),
{
    let mut at: usize = from;
    while at < data.len() && data[at] != byte
        invariant
            from <= at <= data@.len(),
            first_at(data@, byte, from as int) == first_at(data@, byte, at as int),
        decreases data@.len() - at,
    {
        at = at + 1;
    }
    proof {
        lemma_first_at(data@, byte, from as int);
    }
    at
}

fn digit(b: u8) -> (d: Option<i32>)
    ensures
        is_digit(b) ==> d == Some(digit_value(b) as i32),
        !is_digit(b) ==> d is None,
{
    if 0x30 <= b && b <= 0x39 {
        Some((b - 0x30) as i32)
    } else {
        None
    }
}

fn parse_magnitude(bytes: &[u8], from: usize) -> (r: Option<i32>)
    requires
        from <= bytes@.len(),
    ensures
        magnitude_shape(bytes@.skip(from as int)) ==> r == Some(
            magnitude_value(bytes@.skip(from as int)) as i32,
        ),
        !magnitude_shape(bytes@.skip(from as int)) ==> r is None,
{
    let n: usize = bytes.len() - from;
    if n == 3 {
        if bytes[from + 1] != DOT {
            return None;
        }
        match (digit(bytes[from]), digit(bytes[from + 2])) {
            (Some(a), Some(c)) => Some(a * 10 + c),
            _ => None,
        }
    } else if n == 4 {
        if bytes[from + 2] != DOT {
            return None;
        }
        match (digit(bytes[from]), digit(bytes[from + 1]), digit(bytes[from + 3])) {
            (Some(a), Some(b), Some(c)) => Some(a * 100 + b * 10 + c),
            _ => None,
        }
    } else {
        None
    }
}

/// Decodes a reading of the fixed shape into tenths; any other bytes are an error.
pub fn parse_reading(bytes: &[u8]) -> (r: Result<i32, FormatError>)
    ensures
        reading_shape(bytes@) ==> r == Ok::<i32, FormatError>(reading_value(bytes@) as i32),
        !reading_shape(bytes@) ==> r is Err,
{
    if bytes.len() > 0 && bytes[0] == MINUS {
        match parse_magnitude(bytes, 1) {
            Some(m) => Ok(-m),
            None => Err(FormatError),
        }
    } else {
        match parse_magnitude(bytes, 0) {
            Some(m) => Ok(m),
            None => Err(FormatError),
        }
    }
}

/// Splits a line at its first delimiter and decodes the reading behind it.
///
/// A line without a delimiter carries no record and gives `Ok(None)`; a line
/// whose reading has not the fixed shape is an error.
pub fn parse_line<'a>(line: &'a [u8]) -> (r: Result<Option<ParsedLine<'a>>, FormatError>)
    ensures
        match r {
            Ok(None) => !has_record(line@),
            Ok(Some(parsed)) => {
                &&& has_record(line@)
                &&& !line_malformed(line@)
                &&& parsed.key@ == line_key(line@)
                &&& parsed.reading == line_reading(line@)
            },
            Err(_) => line_malformed(line@),
        },
{
    let at = find_byte(line, DELIMITER, 0);
    if at == line.len() {
        return Ok(None);
    }
    let key = vstd::slice::slice_subrange(line, 0, at);
    let tail = vstd::slice::slice_subrange(line, at + 1, line.len());
    match parse_reading(tail) {
        Ok(reading) => Ok(Some(ParsedLine { key, reading })),
        Err(e) => Err(e),
    }
}

} // verus!
