//! The Bencode grammar as mathematical functions on a byte sequence.
//!
//! Each `read_*` function takes an input and gives either the rest of the
//! input behind the production that stands at its start, together with what
//! the production denotes, or the reason why no production stands there.

use vstd::prelude::*;
use crate::error::ParseError;

verus! {

/// What a decoded value denotes.
pub enum Bencode {
    /// `i<digits>e`
    Number(int),
    /// `<length>:<bytes>`
    Bytes(Seq<u8>),
    /// `l<values>e`
    List(Seq<Bencode>),
    /// `d<key value pairs>e`; of two pairs with one key the later stands.
    Dict(Map<Seq<u8>, Bencode>),
}

/// The result of reading a production: the input that is left, and what was read.
pub type Reading<T> = Result<(Seq<u8>, T), ParseError>;

/// `i`, the byte that begins an integer.
pub const INTEGER_START: u8 = 0x69;

/// `l`, the byte that begins a list.
pub const LIST_START: u8 = 0x6c;

/// `d`, the byte that begins a dictionary.
pub const DICT_START: u8 = 0x64;

/// `e`, the byte that ends an integer, a list or a dictionary.
pub const END: u8 = 0x65;

/// `-`, the sign of a negative integer.
pub const MINUS: u8 = 0x2d;

/// `:`, the byte between the length of a byte string and its bytes.
pub const COLON: u8 = 0x3a;

/// `0`, the least digit.
pub const DIGIT_ZERO: u8 = 0x30;

/// `9`, the greatest digit.
pub const DIGIT_NINE: u8 = 0x39;

/// `b` is an ASCII decimal digit.
pub open spec fn is_digit(b: u8) -> bool {
    DIGIT_ZERO <= b <= DIGIT_NINE
}

/// How many digits stand in `s` from `pos` on without a break.
pub open spec fn digit_run(s: Seq<u8>, pos: int) -> nat
    decreases s.len() - pos,
{
    if 0 <= pos < s.len() && is_digit(s[pos]) {
        1 + digit_run(s, pos + 1)
    } else {
        0
    }
}

/// The number that the digits `s[from..to]` write in base ten.
pub open spec fn decimal(s: Seq<u8>, from: int, to: int) -> nat
    decreases to - from,
{
    if to <= from {
        0
    } else {
        (decimal(s, from, to - 1) * 10 + (s[to - 1] - DIGIT_ZERO)) as nat
    }
}

/// The integer production: `i`, an optional `-`, one or more digits, `e`.
///
/// The digits may start with zeros, and `-0` is zero. A value outside the
/// 64-bit signed range is malformed, and so is any byte but `e` behind the
/// digits.
pub open spec fn read_number(s: Seq<u8>) -> Reading<int> {
    if s.len() == 0 {
        Err(ParseError::TruncatedInput)
    } else if s[0] != INTEGER_START {
        Err(ParseError::UnexpectedByte)
    } else {
        let negative = s.len() > 1 && s[1] == MINUS;
        let start: int = if negative { 2 } else { 1 };
        let end = start + digit_run(s, start);
        let magnitude = decimal(s, start, end);
        let value = if negative { -magnitude } else { magnitude as int };
        if end == start {
            Err(ParseError::MalformedNumber)
        } else if !(i64::MIN <= value <= i64::MAX) {
            Err(ParseError::MalformedNumber)
        } else if end >= s.len() {
            Err(ParseError::TruncatedInput)
        } else if s[end] != END {
            Err(ParseError::MalformedNumber)
        } else {
            Ok((s.skip(end + 1), value))
        }
    }
}

/// The length prefix of a byte string: one or more digits and `:`.
///
/// Any byte but `:` behind the digits is malformed, and so is a length that
/// does not fit `usize`.
pub open spec fn read_length(s: Seq<u8>) -> Reading<nat> {
    if s.len() == 0 {
        Err(ParseError::TruncatedInput)
    } else if !is_digit(s[0]) {
        Err(ParseError::UnexpectedByte)
    } else {
        let colon = digit_run(s, 0) as int;
        let length = decimal(s, 0, colon);
        if colon >= s.len() {
            Err(ParseError::TruncatedInput)
        } else if s[colon] != COLON {
            Err(ParseError::MalformedNumber)
        } else if length > usize::MAX {
            Err(ParseError::MalformedNumber)
        } else {
            Ok((s.skip(colon + 1), length))
        }
    }
}

/// The byte string production: a length prefix and as many bytes as it says.
///
/// A length that the rest of the input cannot supply leaves the input
/// truncated.
pub open spec fn read_bytes(s: Seq<u8>) -> Reading<Seq<u8>> {
    match read_length(s) {
        Err(e) => Err(e),
        Ok((rest, length)) => if length > rest.len() {
            Err(ParseError::TruncatedInput)
        } else {
            Ok((rest.skip(length as int), rest.take(length as int)))
        },
    }
}

/// The value production: the first byte selects integer (`i`), byte string
/// (a digit), list (`l`) or dictionary (`d`).
pub open spec fn read_value(s: Seq<u8>) -> Reading<Bencode>
    decreases s.len(), 1int,
{
    if s.len() == 0 {
        Err(ParseError::TruncatedInput)
    } else if s[0] == INTEGER_START {
        match read_number(s) {
            Ok((rest, n)) => Ok((rest, Bencode::Number(n))),
            Err(e) => Err(e),
        }
    } else if is_digit(s[0]) {
        match read_bytes(s) {
            Ok((rest, b)) => Ok((rest, Bencode::Bytes(b))),
            Err(e) => Err(e),
        }
    } else if s[0] == LIST_START {
        match read_list(s) {
            Ok((rest, items)) => Ok((rest, Bencode::List(items))),
            Err(e) => Err(e),
        }
    } else if s[0] == DICT_START {
        match read_dict(s) {
            Ok((rest, entries)) => Ok((rest, Bencode::Dict(entries))),
            Err(e) => Err(e),
        }
    } else {
        Err(ParseError::UnexpectedByte)
    }
}

/// The list production: `l`, one or more values, `e`.
pub open spec fn read_list(s: Seq<u8>) -> Reading<Seq<Bencode>>
    decreases s.len(), 0int,
{
    if s.len() == 0 {
        Err(ParseError::TruncatedInput)
    } else if s[0] != LIST_START {
        Err(ParseError::UnexpectedByte)
    } else {
        read_items(s.skip(1), Seq::empty())
    }
}

/// The dictionary production: `d`, one or more pairs of a byte string and a
/// value, `e`.
pub open spec fn read_dict(s: Seq<u8>) -> Reading<Map<Seq<u8>, Bencode>>
    decreases s.len(), 0int,
{
    if s.len() == 0 {
        Err(ParseError::TruncatedInput)
    } else if s[0] != DICT_START {
        Err(ParseError::UnexpectedByte)
    } else {
        read_entries(s.skip(1), Map::empty())
    }
}

/// The body of a list behind the items `done`: a value, then either the
/// closing `e` or the rest of the body.
///
/// So a list holds at least one value. The first failure of a value is the
/// failure of the list, and the input is truncated where nothing stands
/// behind a value. What a value leaves is always shorter than its input, so
/// the comparison with the length of `s` never decides; it is there for the
/// definition to end.
pub open spec fn read_items(s: Seq<u8>, done: Seq<Bencode>) -> Reading<Seq<Bencode>>
    decreases s.len(), 2int,
{
    match read_value(s) {
        Err(e) => Err(e),
        Ok((rest, item)) => {
            let items = done.push(item);
            if !(0 < rest.len() < s.len()) {
                Err(ParseError::TruncatedInput)
            } else if rest[0] == END {
                Ok((rest.skip(1), items))
            } else {
                read_items(rest, items)
            }
        },
    }
}

/// The body of a dictionary behind the pairs `done`: a byte string as key, a
/// value, then either the closing `e` or the rest of the body.
///
/// So a dictionary holds at least one pair. A key that occurs again takes
/// the later value. The keys are byte strings and need not be text. The
/// comparison with the length of `s` never decides, as in `read_items`.
pub open spec fn read_entries(s: Seq<u8>, done: Map<Seq<u8>, Bencode>) -> Reading<
    Map<Seq<u8>, Bencode>,
>
    decreases s.len(), 2int,
{
    match read_bytes(s) {
        Err(e) => Err(e),
        Ok((middle, key)) => match read_value(middle) {
            Err(e) => Err(e),
            Ok((rest, value)) => {
                let entries = done.insert(key, value);
                if !(0 < rest.len() < s.len()) {
                    Err(ParseError::TruncatedInput)
                } else if rest[0] == END {
                    Ok((rest.skip(1), entries))
                } else {
                    read_entries(rest, entries)
                }
            },
        },
    }
}

/// A digit run stays inside the input, holds digits only, and ends at the
/// end of the input or before a byte that is no digit.
pub proof fn lemma_digit_run(s: Seq<u8>, pos: int)
    requires
        0 <= pos <= s.len(),
    ensures
        pos + digit_run(s, pos) <= s.len(),
        forall|j: int| pos <= j < pos + digit_run(s, pos) ==> is_digit(#[trigger] s[j]),
        pos + digit_run(s, pos) < s.len() ==> !is_digit(s[pos + digit_run(s, pos)]),
    decreases s.len() - pos,
{
    if pos < s.len() && is_digit(s[pos]) {
        lemma_digit_run(s, pos + 1);
    }
}

/// Digits from `pos` up to `end`, with the end of the input or a byte that is
/// no digit at `end`, are the digit run at `pos`.
pub proof fn lemma_digit_run_is(s: Seq<u8>, pos: int, end: int)
    requires
        0 <= pos <= end <= s.len(),
        forall|j: int| pos <= j < end ==> is_digit(#[trigger] s[j]),
        end < s.len() ==> !is_digit(s[end]),
    ensures
        pos + digit_run(s, pos) == end,
    decreases end - pos,
{
    if pos < end {
        lemma_digit_run_is(s, pos + 1, end);
    }
}

/// More digits write no smaller a number.
pub proof fn lemma_decimal_grows(s: Seq<u8>, from: int, mid: int, to: int)
    requires
        0 <= from <= mid <= to <= s.len(),
        forall|j: int| from <= j < to ==> is_digit(#[trigger] s[j]),
    ensures
        decimal(s, from, mid) <= decimal(s, from, to),
    decreases to - mid,
{
    if mid < to {
        lemma_decimal_grows(s, from, mid, to - 1);
        assert(is_digit(s[to - 1]));
    }
}

/// What `decimal` reads depends on the bytes between `from` and `to` only.
pub proof fn lemma_decimal_shift(s: Seq<u8>, from: int, to: int, t: Seq<u8>, by: int)
    requires
        0 <= from <= to <= s.len(),
        0 <= from + by,
        to + by <= t.len(),
        forall|j: int| from <= j < to ==> s[j] == t[j + by],
    ensures
        decimal(s, from, to) == decimal(t, from + by, to + by),
    decreases to - from,
{
    if from < to {
        lemma_decimal_shift(s, from, to - 1, t, by);
    }
}

} // verus!
