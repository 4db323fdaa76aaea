//! The errors that compiling a source can end in.

use vstd::prelude::*;
use vstd::string::*;
use crate::position::Pos;
use crate::text::{decimal, push_char};

verus! {

/// An error.
#[derive(Debug)]
pub enum Error {
    Eof,
    InvalidEscape { escape: String, pos: Pos },
    Msg(String),
    Unclosed { pos: Pos, token: &'static str },
    UnknownToken { pos: Pos, start: char },
}

/// The number of characters that a line number takes when it is printed:
/// the number of its decimal digits, and one for a number that is not
/// positive.
pub open spec fn text_size(num: int) -> nat {
    if num <= 0 {
        1
    } else {
        decimal(num as nat).len()
    }
}

/// The power of ten with the given exponent.
pub open spec fn power_of_ten(exponent: nat) -> nat
    decreases exponent,
{
    if exponent == 0 {
        1
    } else {
        10 * power_of_ten((exponent - 1) as nat)
    }
}

/// A number below a power of ten has no more digits than the exponent.
pub proof fn lemma_decimal_bound(n: nat, exponent: nat)
    requires
        exponent >= 1,
        n < power_of_ten(exponent),
    ensures
        decimal(n).len() <= exponent,
    decreases exponent,
{
    if n >= 10 {
        assert(exponent >= 2) by {
            reveal_with_fuel(power_of_ten, 2);
        }
        lemma_decimal_bound(n / 10, (exponent - 1) as nat);
    }
}

/// The number of characters that `num` takes when it is printed.
pub fn num_text_size(num: i64) -> (size: usize)
    ensures
        size == text_size(num as int),
{
    if num <= 0 {
        return 1;
    }
    let mut rest = num;
    let mut size: usize = 1;
    proof {
        assert(power_of_ten(19) == 10000000000000000000) by {
            reveal_with_fuel(power_of_ten, 20);
        }
        lemma_decimal_bound(num as nat, 19);
    }
    while rest >= 10
        invariant
            0 < rest <= num,
            size + decimal(rest as nat).len() == decimal(num as nat).len() + 1,
            decimal(num as nat).len() <= 19,
            decimal(rest as nat).len() >= 1,
        decreases rest,
    {
        rest = rest / 10;
        size = size + 1;
    }
    size
}

/// The words that say what is wrong.
pub open spec fn message_text(error: Error) -> Seq<char> {
    match error {
        Error::Eof => "end of file"@,
        Error::InvalidEscape { escape, .. } => "Invalid escape \\"@ + escape@,
        Error::Msg(text) => text@,
        Error::Unclosed { token, .. } => "Unclosed "@ + token@,
        Error::UnknownToken { start, .. } => "Unexpected start of token `"@.push(start).push('`'),
    }
}

impl Error {
    /// The words that say what is wrong.
    pub fn message(&self) -> (text: String)
        ensures
            text@ == message_text(*self),
    {
        match self {
            Error::Eof => String::from_str("end of file"),
            Error::InvalidEscape { escape, .. } => {
                let mut text = String::from_str("Invalid escape \\");
                text.append(escape.as_str());
                text
            },
            Error::Msg(text) => text.clone(),
            Error::Unclosed { token, .. } => {
                let mut text = String::from_str("Unclosed ");
                text.append(token);
                text
            },
            Error::UnknownToken { start, .. } => {
                let mut text = String::from_str("Unexpected start of token `");
                push_char(&mut text, *start);
                push_char(&mut text, '`');
                text
            },
        }
    }

    /// The place in the source that the error is about, if it has one.
    pub fn place(&self) -> (pos: Option<Pos>)
        ensures
            pos == match *self {
                Error::Eof => None,
                Error::InvalidEscape { pos, .. } => Some(pos),
                Error::Msg(_) => None,
                Error::Unclosed { pos, .. } => Some(pos),
                Error::UnknownToken { pos, .. } => Some(pos),
            },
    {
        match self {
            Error::Eof => None,
            Error::InvalidEscape { pos, .. } => Some(*pos),
            Error::Msg(_) => None,
            Error::Unclosed { pos, .. } => Some(*pos),
            Error::UnknownToken { pos, .. } => Some(*pos),
        }
    }
}

/// How many bytes of the source are read around the place of an error.
pub const WINDOW: usize = 4096;

/// The offset at which reading the source starts for an error at the byte
/// `byte`: half a window before it, or the start of the source.
pub open spec fn window_start(byte: u64) -> u64 {
    if 2048 <= byte <= i64::MAX {
        (byte - 2048) as u64
    } else {
        0
    }
}

/// The offset at which reading the source starts for an error at `byte`.
pub fn start_of_window(byte: u64) -> (start: u64)
    ensures
        start == window_start(byte),
{
    if byte >= 2048 && byte <= 0x7fff_ffff_ffff_ffff {
        byte - 2048
    } else {
        0
    }
}

/// Whether no byte of `buffer` from `from` up to `to` ends a line.
pub open spec fn one_line(buffer: Seq<u8>, from: int, to: int) -> bool {
    forall|i: int| from <= i < to ==> #[trigger] buffer[i] != 10
}

/// The part of a line that is shown with an error, and the mark under it.
pub struct Excerpt {
    /// Where in the buffer the line starts.
    pub start: usize,
    /// Where in the buffer the line ends.
    pub end: usize,
    /// How wide the margin with the line's number is.
    pub margin: usize,
    /// How many columns lie before the mark.
    pub indent: usize,
    /// How many columns the mark spans.
    pub marks: usize,
}

/// Whether `excerpt` shows the line of `buffer` that holds the byte at
/// `current`, or at the end of the buffer if that lies before: the line
/// starts after the last line end before that byte and ends at the first
/// line end from it on; the margin is as wide as the line's number; the
/// mark starts at the column of `pos`, within the line, and spans its
/// length.
pub open spec fn shows(excerpt: Excerpt, buffer: Seq<u8>, pos: Pos, current: int) -> bool {
    let here = if current < buffer.len() {
        current
    } else {
        buffer.len() as int
    };
    &&& 0 <= excerpt.start <= here <= excerpt.end <= buffer.len()
    &&& excerpt.start == 0 || buffer[excerpt.start - 1] == 10
    &&& excerpt.end == buffer.len() || buffer[excerpt.end as int] == 10
    &&& one_line(buffer, excerpt.start as int, excerpt.end as int)
    &&& excerpt.margin == text_size(pos.line as int)
    &&& excerpt.indent == if pos.column <= excerpt.end - excerpt.start {
        pos.column as int
    } else {
        excerpt.end - excerpt.start
    }
    &&& excerpt.marks == pos.length
}

/// Where the line that holds the byte at `current` starts.
pub fn start_of_line(buffer: &Vec<u8>, current: usize) -> (start: usize)
    requires
        current <= buffer@.len(),
    ensures
        start <= current,
        start == 0 || buffer@[start - 1] == 10,
        one_line(buffer@, start as int, current as int),
{
    let mut start = current;
    while start > 0 && buffer[start - 1] != 10
        invariant
            start <= current <= buffer@.len(),
            one_line(buffer@, start as int, current as int),
        decreases start,
    {
        start = start - 1;
    }
    start
}

/// Where the line that holds the byte at `current` ends.
pub fn end_of_line(buffer: &Vec<u8>, current: usize) -> (end: usize)
    requires
        current <= buffer@.len(),
    ensures
        current <= end <= buffer@.len(),
        end == buffer@.len() || buffer@[end as int] == 10,
        one_line(buffer@, current as int, end as int),
{
    let mut end = current;
    while end < buffer.len() && buffer[end] != 10
        invariant
            current <= end <= buffer@.len(),
            one_line(buffer@, current as int, end as int),
        decreases buffer@.len() - end,
    {
        end = end + 1;
    }
    end
}

/// The line to show for an error at `pos`, in the bytes `buffer` that were
/// read from the offset `start` of the source on.
pub fn excerpt(buffer: &Vec<u8>, pos: &Pos, start: u64) -> (result: Excerpt)
    requires
        start <= pos.byte,
    ensures
        shows(result, buffer@, *pos, pos.byte - start),
{
    let offset = pos.byte - start;
    let current = if offset < buffer.len() as u64 {
        offset as usize
    } else {
        buffer.len()
    };
    let first = start_of_line(buffer, current);
    let last = end_of_line(buffer, current);
    let length = last - first;
    let indent = if pos.column as u64 <= length as u64 {
        pos.column as usize
    } else {
        length
    };
    Excerpt {
        start: first,
        end: last,
        margin: num_text_size(pos.line as i64),
        indent,
        marks: pos.length,
    }
}

} // verus!
