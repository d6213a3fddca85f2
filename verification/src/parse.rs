//! Reading a trace from text.
//!
//! A trace is a text of lines, one frame each. A line holds five columns
//! separated by tabs: the body's position, the step size, the lower angle,
//! the upper angle and the head's position. A column is a decimal number
//! that fits in sixteen bits; a plus sign may stand before it. Lines end
//! with a line feed, before which a carriage return is dropped; the last
//! line need not end at all.
use crate::neck::Frame;
use vstd::prelude::*;
use vstd::slice::slice_subrange;

verus! {

/// The byte between columns.
pub const TAB: u8 = 9;

/// The byte that ends a line.
pub const LINE_FEED: u8 = 10;

/// The byte that is dropped before a line feed.
pub const CARRIAGE_RETURN: u8 = 13;

/// The sign that may stand before a number.
pub const PLUS: u8 = 43;

/// The digit zero.
pub const ZERO: u8 = 48;

/// The digit nine.
pub const NINE: u8 = 57;

/// What is wrong with a line.
#[derive(Clone, Copy, Debug, PartialEq, Eq)]
pub enum LineFault {
    /// The line has fewer than five columns.
    Missing,
    /// A column is not a number that fits in sixteen bits.
    NotNumber,
    /// The line has a sixth column.
    Extra,
}

/// The first line of a text that is not a frame.
#[derive(Clone, Copy, Debug, PartialEq, Eq)]
pub struct ParseError {
    /// The number of the line, counted from zero.
    pub line: usize,
    /// What is wrong with it.
    pub fault: LineFault,
}

/// Whether a byte is a decimal digit.
pub open spec fn is_digit(byte: u8) -> bool {
    ZERO <= byte <= NINE
}

/// Every byte is a decimal digit.
pub open spec fn all_digits(bytes: Seq<u8>) -> bool {
    forall|i: int| 0 <= i < bytes.len() ==> is_digit(#[trigger] bytes[i])
}

/// The number that a run of digits writes.
pub open spec fn decimal(digits: Seq<u8>) -> nat
    decreases digits.len(),
{
    if digits.len() == 0 {
        0
    } else {
        decimal(digits.drop_last()) * 10 + if is_digit(digits.last()) {
            (digits.last() - ZERO) as nat
        } else {
            0
        }
    }
}

/// A column without the plus sign that may stand before its digits.
pub open spec fn unsigned(column: Seq<u8>) -> Seq<u8> {
    if column.len() > 0 && column[0] == PLUS {
        column.skip(1)
    } else {
        column
    }
}

/// The number that a column writes: it has at least one digit, nothing but
/// digits after the sign, and fits in sixteen bits.
pub open spec fn field_value(column: Seq<u8>) -> Option<u16> {
    let digits = unsigned(column);
    if digits.len() > 0 && all_digits(digits) && decimal(digits) <= u16::MAX {
        Some(decimal(digits) as u16)
    } else {
        None
    }
}

/// The first position at or after `from` that holds `byte`, or the length
/// of the text where there is none.
pub open spec fn next_byte(text: Seq<u8>, byte: u8, from: int) -> int
    decreases text.len() - from,
{
    if from >= text.len() {
        text.len() as int
    } else if text[from] == byte {
        from
    } else {
        next_byte(text, byte, from + 1)
    }
}

/// Where column `n` of a line starts: column 0 at the front, every other
/// one behind the tab that ends the column before it.
pub open spec fn column_start(line: Seq<u8>, n: nat) -> int
    decreases n,
{
    if n == 0 {
        0
    } else {
        next_byte(line, TAB, column_start(line, (n - 1) as nat)) + 1
    }
}

/// The line has a column `n`.
pub open spec fn has_column(line: Seq<u8>, n: nat) -> bool {
    column_start(line, n) <= line.len()
}

/// Column `n` of a line: from its start up to the next tab.
pub open spec fn column(line: Seq<u8>, n: nat) -> Seq<u8> {
    line.subrange(column_start(line, n), next_byte(line, TAB, column_start(line, n)))
}

/// What is wrong with column `n` of a line, if anything.
pub open spec fn column_fault(line: Seq<u8>, n: nat) -> Option<LineFault> {
    if !has_column(line, n) {
        Some(LineFault::Missing)
    } else if field_value(column(line, n)) is None {
        Some(LineFault::NotNumber)
    } else {
        None
    }
}

/// The number in column `n` of a line.
pub open spec fn number_at(line: Seq<u8>, n: nat) -> u16 {
    field_value(column(line, n))->Some_0
}

/// The frame that a line writes, or the first thing wrong with it, going
/// through the columns from the left.
pub open spec fn line_outcome(line: Seq<u8>) -> Result<Frame, LineFault> {
    if column_fault(line, 0) is Some {
        Err(column_fault(line, 0)->Some_0)
    } else if column_fault(line, 1) is Some {
        Err(column_fault(line, 1)->Some_0)
    } else if column_fault(line, 2) is Some {
        Err(column_fault(line, 2)->Some_0)
    } else if column_fault(line, 3) is Some {
        Err(column_fault(line, 3)->Some_0)
    } else if column_fault(line, 4) is Some {
        Err(column_fault(line, 4)->Some_0)
    } else if has_column(line, 5) {
        if field_value(column(line, 5)) is None {
            Err(LineFault::NotNumber)
        } else {
            Err(LineFault::Extra)
        }
    } else {
        Ok(
            Frame {
                body_y: number_at(line, 0),
                angle_delta: number_at(line, 1),
                expected_lower_angle: number_at(line, 2),
                expected_upper_angle: number_at(line, 3),
                expected_brain_y: number_at(line, 4),
            },
        )
    }
}

/// Where line `n` of a text starts: line 0 at the front, every other one
/// behind the line feed that ends the line before it.
pub open spec fn line_start(text: Seq<u8>, n: nat) -> int
    decreases n,
{
    if n == 0 {
        0
    } else {
        next_byte(text, LINE_FEED, line_start(text, (n - 1) as nat)) + 1
    }
}

/// The text has a line `n`: something, if only a line feed, stands at its
/// start.
pub open spec fn has_line(text: Seq<u8>, n: nat) -> bool {
    line_start(text, n) < text.len()
}

/// Where line `n` stops: at its line feed, or at the carriage return
/// before that line feed, or at the end of the text.
pub open spec fn line_stop(text: Seq<u8>, n: nat) -> int {
    let start = line_start(text, n);
    let end = next_byte(text, LINE_FEED, start);
    if start < end < text.len() && text[end - 1] == CARRIAGE_RETURN {
        end - 1
    } else {
        end
    }
}

/// Line `n` of a text.
pub open spec fn line_at(text: Seq<u8>, n: nat) -> Seq<u8> {
    text.subrange(line_start(text, n), line_stop(text, n))
}

/// `frames` are the frames that the lines of `text` write.
pub open spec fn reads_as(text: Seq<u8>, frames: Seq<Frame>) -> bool {
    &&& forall|n: nat| #[trigger] has_line(text, n) <==> n < frames.len()
    &&& forall|n: nat|
        n < frames.len() ==> #[trigger] line_outcome(line_at(text, n)) == Ok::<Frame, LineFault>(
            frames[n as int],
        )
}

/// Line `at` is the first line of `text` that is not a frame, and `fault`
/// is what is wrong with it.
pub open spec fn fails_at(text: Seq<u8>, at: nat, fault: LineFault) -> bool {
    &&& has_line(text, at)
    &&& line_outcome(line_at(text, at)) == Err::<Frame, LineFault>(fault)
    &&& forall|n: nat| n < at ==> (#[trigger] line_outcome(line_at(text, n))) is Ok
}

/// Past the last line there is no line.
pub proof fn lemma_lines_end(text: Seq<u8>, n: nat, later: nat)
    requires
        !has_line(text, n),
        n <= later,
    ensures
        !has_line(text, later),
    decreases later,
{
    if n < later {
        lemma_lines_end(text, n, (later - 1) as nat);
    }
}

/// Finds the first position at or after `from` that holds `byte`.
pub fn find(text: &[u8], byte: u8, from: usize) -> (at: usize)
    requires
        from <= text.len(),
    ensures
        at == next_byte(text@, byte, from as int),
        from <= at <= text.len(),
        at < text.len() ==> text@[at as int] == byte,
{
    let mut at = from;
    while at < text.len() && text[at] != byte
        invariant
            from <= at <= text.len(),
            next_byte(text@, byte, from as int) == next_byte(text@, byte, at as int),
        decreases text.len() - at,
    {
        at += 1;
    }
    at
}

/// Reads the number that a column writes.
pub fn parse_field(column: &[u8]) -> (value: Option<u16>)
    ensures
        value == field_value(column@),
{
    let start: usize = if column.len() > 0 && column[0] == PLUS {
        1
    } else {
        0
    };
    let ghost digits = unsigned(column@);
    proof {
        assert(digits =~= column@.skip(start as int));
    }
    if start == column.len() {
        return None;
    }
    // The number read so far, counted no further than one past the
    // greatest that fits.
    let mut value: u32 = 0;
    let mut i: usize = start;
    while i < column.len()
        invariant
            start <= i <= column.len(),
            digits == unsigned(column@),
            digits == column@.skip(start as int),
            all_digits(digits.take(i - start)),
            value <= 0x1_0000,
            value == decimal(digits.take(i - start)) || (value == 0x1_0000 && decimal(
                digits.take(i - start),
            ) > 0x1_0000),
        decreases column.len() - i,
    {
        let byte = column[i];
        proof {
            assert(digits[i - start] == byte);
            assert(digits.take(i + 1 - start).drop_last() =~= digits.take(i - start));
            assert(digits.take(i + 1 - start).last() == byte);
        }
        if byte < ZERO || byte > NINE {
            proof {
                assert(!is_digit(digits[i - start]));
                assert(!all_digits(digits));
            }
            return None;
        }
        let grown: u32 = value * 10 + (byte - ZERO) as u32;
        value = if grown > 0x1_0000 {
            0x1_0000
        } else {
            grown
        };
        proof {
            let seen = digits.take(i + 1 - start);
            assert forall|j: int| 0 <= j < seen.len() implies is_digit(#[trigger] seen[j]) by {
                if j < i - start {
                    assert(digits.take(i - start)[j] == seen[j]);
                }
            }
        }
        i += 1;
    }
    proof {
        assert(digits.take(column.len() - start) =~= digits);
    }
    if value > 0xFFFF {
        None
    } else {
        Some(value as u16)
    }
}

/// `cursor` is where column `n` of the line starts, if there is one.
spec fn cursor_at(line: Seq<u8>, n: nat, cursor: Option<usize>) -> bool {
    match cursor {
        Some(start) => has_column(line, n) && column_start(line, n) == start,
        None => !has_column(line, n),
    }
}

/// Reads column `n` of a line and finds the start of the next.
fn read_column(line: &[u8], cursor: Option<usize>, Ghost(n): Ghost<nat>) -> (read: Result<
    (u16, Option<usize>),
    LineFault,
>)
    requires
        cursor_at(line@, n, cursor),
    ensures
        match read {
            Ok((value, next)) => {
                &&& column_fault(line@, n) is None
                &&& value == number_at(line@, n)
                &&& cursor_at(line@, n + 1, next)
            },
            Err(fault) => column_fault(line@, n) == Some(fault),
        },
{
    match cursor {
        None => Err(LineFault::Missing),
        Some(start) => {
            let end = find(line, TAB, start);
            let next = if end < line.len() {
                Some(end + 1)
            } else {
                None
            };
            match parse_field(slice_subrange(line, start, end)) {
                None => Err(LineFault::NotNumber),
                Some(value) => Ok((value, next)),
            }
        },
    }
}

/// Reads the frame that a line writes.
pub fn parse_line(line: &[u8]) -> (read: Result<Frame, LineFault>)
    ensures
        read == line_outcome(line@),
{
    let (body_y, cursor) = match read_column(line, Some(0), Ghost(0)) {
        Ok(found) => found,
        Err(fault) => {
            return Err(fault);
        },
    };
    let (angle_delta, cursor) = match read_column(line, cursor, Ghost(1)) {
        Ok(found) => found,
        Err(fault) => {
            return Err(fault);
        },
    };
    let (expected_lower_angle, cursor) = match read_column(line, cursor, Ghost(2)) {
        Ok(found) => found,
        Err(fault) => {
            return Err(fault);
        },
    };
    let (expected_upper_angle, cursor) = match read_column(line, cursor, Ghost(3)) {
        Ok(found) => found,
        Err(fault) => {
            return Err(fault);
        },
    };
    let (expected_brain_y, cursor) = match read_column(line, cursor, Ghost(4)) {
        Ok(found) => found,
        Err(fault) => {
            return Err(fault);
        },
    };
    match read_column(line, cursor, Ghost(5)) {
        Ok(_) => Err(LineFault::Extra),
        Err(LineFault::NotNumber) => Err(LineFault::NotNumber),
        Err(_) => Ok(
            Frame { body_y, angle_delta, expected_lower_angle, expected_upper_angle, expected_brain_y },
        ),
    }
}

/// Reads the frames that the lines of a text write, or finds the first
/// line that is not a frame.
pub fn parse_trace(text: &[u8]) -> (read: Result<Vec<Frame>, ParseError>)
    ensures
        match read {
            Ok(frames) => reads_as(text@, frames@),
            Err(error) => fails_at(text@, error.line as nat, error.fault),
        },
{
    let mut frames: Vec<Frame> = Vec::new();
    let mut from: usize = 0;
    while from < text.len()
        invariant
            from <= text.len(),
            frames@.len() <= from,
            line_start(text@, frames@.len()) == from,
            forall|n: nat| n < frames@.len() ==> #[trigger] has_line(text@, n),
            forall|n: nat|
                n < frames@.len() ==> #[trigger] line_outcome(line_at(text@, n)) == Ok::<
                    Frame,
                    LineFault,
                >(frames@[n as int]),
        decreases text.len() - from,
    {
        let ghost number = frames@.len();
        let ghost earlier = frames@;
        let end = find(text, LINE_FEED, from);
        let stop = if from < end && end < text.len() && text[end - 1] == CARRIAGE_RETURN {
            end - 1
        } else {
            end
        };
        let line = slice_subrange(text, from, stop);
        proof {
            assert(line@ == line_at(text@, number));
        }
        match parse_line(line) {
            Err(fault) => {
                proof {
                    assert forall|n: nat| n < number implies (#[trigger] line_outcome(
                        line_at(text@, n),
                    )) is Ok by {
                        assert(line_outcome(line_at(text@, n)) == Ok::<Frame, LineFault>(
                            frames@[n as int],
                        ));
                    }
                }
                return Err(ParseError { line: frames.len(), fault });
            },
            Ok(frame) => {
                frames.push(frame);
            },
        }
        proof {
            assert(line_start(text@, number + 1) == end + 1);
            assert forall|n: nat| n < frames@.len() implies #[trigger] line_outcome(
                line_at(text@, n),
            ) == Ok::<Frame, LineFault>(frames@[n as int]) by {
                if n < number {
                    assert(frames@[n as int] == earlier[n as int]);
                    assert(line_outcome(line_at(text@, n)) == Ok::<Frame, LineFault>(
                        earlier[n as int],
                    ));
                }
            }
        }
        if end == text.len() {
            proof {
                let count = frames@.len();
                assert(!has_line(text@, count));
                assert forall|n: nat| #[trigger] has_line(text@, n) <==> n < count by {
                    if n >= count {
                        lemma_lines_end(text@, count, n);
                    }
                }
            }
            return Ok(frames);
        }
        from = end + 1;
    }
    proof {
        let count = frames@.len();
        assert(!has_line(text@, count));
        assert forall|n: nat| #[trigger] has_line(text@, n) <==> n < count by {
            if n >= count {
                lemma_lines_end(text@, count, n);
            }
        }
    }
    Ok(frames)
}

} // verus!
