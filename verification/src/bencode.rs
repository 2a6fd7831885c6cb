//! The value tree that decoding produces, and the decoder.

use vstd::prelude::*;
use vstd::slice::{slice_subrange, slice_to_vec};
use vstd::string::StringSliceAdditionalSpecFns;
use vstd::utf8::{decode_utf8, encode_utf8_decode_utf8, valid_utf8};
use crate::dict::Dict;
use crate::error::ParseError;
use crate::grammar::{
    decimal, digit_run, is_digit, lemma_decimal_grows, lemma_digit_run, lemma_digit_run_is,
    read_bytes, read_dict, read_entries, read_items, read_length, read_list, read_number,
    read_value, Bencode, COLON, DICT_START, DIGIT_NINE, DIGIT_ZERO, END, INTEGER_START,
    LIST_START, MINUS,
};
use crate::remainder::{lemma_read_bytes_shortens, lemma_read_value_shortens};

verus! {

/// A decoded Bencode value.
#[derive(Debug, PartialEq)]
pub enum BValue {
    /// An integer.
    BNumber(i64),
    /// A byte string, which need not be text.
    BBytes(Vec<u8>),
    /// A list of values.
    BList(Vec<BValue>),
    /// A dictionary from byte strings to values.
    BDict(Dict),
}

/// What the values of `items` denote, one by one.
pub open spec fn views(items: Seq<BValue>) -> Seq<Bencode>
    decreases items,
{
    Seq::new(
        items.len(),
        |i: int|
            if 0 <= i < items.len() {
                items[i].view()
            } else {
                Bencode::Number(0)
            },
    )
}

impl View for BValue {
    type V = Bencode;

    open spec fn view(&self) -> Bencode
        decreases self,
    {
        match self {
            BValue::BNumber(n) => Bencode::Number(*n as int),
            BValue::BBytes(b) => Bencode::Bytes(b@),
            BValue::BList(l) => Bencode::List(views(l@)),
            BValue::BDict(d) => Bencode::Dict(d.view()),
        }
    }
}

/// `r` is the outcome of decoding `i`: the value that stands at the start of
/// `i` with the bytes behind it, or the reason why none stands there.
pub open spec fn decoded(i: Seq<u8>, r: Result<(&[u8], BValue), ParseError>) -> bool {
    read_value(i) == (match r {
        Ok((rest, value)) => Ok((rest@, value@)),
        Err(e) => Err(e),
    })
}

/// Decoding does not depend on anything but its input: two outcomes for one
/// input fail with the same error, or give values that denote the same and
/// leave the same bytes.
pub proof fn lemma_decoding_repeats(
    i: Seq<u8>,
    first: Result<(&[u8], BValue), ParseError>,
    second: Result<(&[u8], BValue), ParseError>,
)
    requires
        decoded(i, first),
        decoded(i, second),
    ensures
        first is Err ==> second == first,
        first matches Ok((rest, value)) ==> second is Ok && second->Ok_0.0@ == rest@
            && second->Ok_0.1@ == value@,
{
}

/// `std::str::from_utf8`: the text that `bytes` hold, where they are valid
/// UTF-8, and nothing where they are not. The text has the bytes it was made
/// of. This is taken from the documentation of the function and not proved.
#[verifier::external_body]
fn text_of(bytes: &[u8]) -> (r: Option<&str>)
    ensures
        r is Some <==> valid_utf8(bytes@),
        r matches Some(text) ==> text.spec_bytes() == bytes@,
{
    match std::str::from_utf8(bytes) {
        Ok(text) => Some(text),
        Err(_) => None,
    }
}

/// The place behind the digits that stand in `i` from `start` on.
fn digits_end(i: &[u8], start: usize) -> (end: usize)
    requires
        start <= i@.len(),
    ensures
        end == start + digit_run(i@, start as int),
        end <= i@.len(),
{
    let mut end = start;
    while end < i.len() && DIGIT_ZERO <= i[end] && i[end] <= DIGIT_NINE
        invariant
            start <= end <= i@.len(),
            forall|j: int| start <= j < end ==> is_digit(#[trigger] i@[j]),
        decreases i@.len() - end,
    {
        end += 1;
    }
    proof {
        lemma_digit_run_is(i@, start as int, end as int);
    }
    end
}

/// The number that the digits `i[start..end]` write, unless it is above `limit`.
fn decimal_value(i: &[u8], start: usize, end: usize, limit: u64) -> (r: Option<u64>)
    requires
        start <= end <= i@.len(),
        forall|j: int| start <= j < end ==> is_digit(#[trigger] i@[j]),
    ensures
        r == (if decimal(i@, start as int, end as int) <= limit {
            Some(decimal(i@, start as int, end as int) as u64)
        } else {
            None
        }),
{
    let mut value: u64 = 0;
    let mut at = start;
    while at < end
        invariant
            start <= at <= end <= i@.len(),
            forall|j: int| start <= j < end ==> is_digit(#[trigger] i@[j]),
            value == decimal(i@, start as int, at as int),
            value <= limit,
        decreases end - at,
    {
        let digit = (i[at] - DIGIT_ZERO) as u64;
        proof {
            assert(is_digit(i@[at as int]));
            lemma_decimal_grows(i@, start as int, at + 1, end as int);
        }
        let shifted = match value.checked_mul(10) {
            Some(shifted) => shifted,
            None => { return None; },
        };
        let next = match shifted.checked_add(digit) {
            Some(next) => next,
            None => { return None; },
        };
        if next > limit {
            return None;
        }
        value = next;
        at += 1;
    }
    Some(value)
}

/// Reads the integer at the start of `i`.
pub fn parse_number(i: &[u8]) -> (r: Result<(&[u8], i64), ParseError>)
    ensures
        read_number(i@) == (match r {
            Ok((rest, n)) => Ok((rest@, n as int)),
            Err(e) => Err(e),
        }),
{
    if i.len() == 0 {
        return Err(ParseError::TruncatedInput);
    }
    if i[0] != INTEGER_START {
        return Err(ParseError::UnexpectedByte);
    }
    let negative = i.len() > 1 && i[1] == MINUS;
    let start: usize = if negative { 2 } else { 1 };
    let end = digits_end(i, start);
    if end == start {
        return Err(ParseError::MalformedNumber);
    }
    proof {
        lemma_digit_run(i@, start as int);
    }
    let most: u64 = i64::MAX as u64;
    let limit: u64 = if negative { most + 1 } else { most };
    let magnitude = match decimal_value(i, start, end, limit) {
        Some(magnitude) => magnitude,
        None => { return Err(ParseError::MalformedNumber); },
    };
    if end >= i.len() {
        return Err(ParseError::TruncatedInput);
    }
    if i[end] != END {
        return Err(ParseError::MalformedNumber);
    }
    let value: i64 = if !negative {
        magnitude as i64
    } else if magnitude > most {
        i64::MIN
    } else {
        -(magnitude as i64)
    };
    Ok((slice_subrange(i, end + 1, i.len()), value))
}

/// Reads the length prefix of the byte string at the start of `i`.
pub fn parse_length(i: &[u8]) -> (r: Result<(&[u8], usize), ParseError>)
    ensures
        read_length(i@) == (match r {
            Ok((rest, length)) => Ok((rest@, length as nat)),
            Err(e) => Err(e),
        }),
{
    if i.len() == 0 {
        return Err(ParseError::TruncatedInput);
    }
    let colon = digits_end(i, 0);
    if colon == 0 {
        return Err(ParseError::UnexpectedByte);
    }
    if colon >= i.len() {
        return Err(ParseError::TruncatedInput);
    }
    if i[colon] != COLON {
        return Err(ParseError::MalformedNumber);
    }
    proof {
        lemma_digit_run(i@, 0);
    }
    match decimal_value(i, 0, colon, usize::MAX as u64) {
        Some(length) => Ok((slice_subrange(i, colon + 1, i.len()), length as usize)),
        None => Err(ParseError::MalformedNumber),
    }
}

/// Reads the byte string at the start of `i`.
pub fn parse_bytes(i: &[u8]) -> (r: Result<(&[u8], Vec<u8>), ParseError>)
    ensures
        read_bytes(i@) == (match r {
            Ok((rest, bytes)) => Ok((rest@, bytes@)),
            Err(e) => Err(e),
        }),
{
    let (left, length) = match parse_length(i) {
        Ok(prefix) => prefix,
        Err(e) => { return Err(e); },
    };
    if length > left.len() {
        return Err(ParseError::TruncatedInput);
    }
    let bytes = slice_to_vec(slice_subrange(left, 0, length));
    Ok((slice_subrange(left, length, left.len()), bytes))
}

/// Reads the list at the start of `i`.
pub fn parse_list(i: &[u8]) -> (r: Result<(&[u8], Vec<BValue>), ParseError>)
    ensures
        read_list(i@) == (match r {
            Ok((rest, items)) => Ok((rest@, views(items@))),
            Err(e) => Err(e),
        }),
    decreases i@.len(), 0int,
{
    if i.len() == 0 {
        return Err(ParseError::TruncatedInput);
    }
    if i[0] != LIST_START {
        return Err(ParseError::UnexpectedByte);
    }
    let mut items: Vec<BValue> = Vec::new();
    let mut left = slice_subrange(i, 1, i.len());
    assert(views(items@) =~= Seq::empty());
    loop
        invariant
            left@.len() < i@.len(),
            read_list(i@) == read_items(left@, views(items@)),
        decreases left@.len(),
    {
        let (rest, item) = match BValue::from_bytes(left) {
            Ok(read) => read,
            Err(e) => { return Err(e); },
        };
        proof {
            lemma_read_value_shortens(left@);
            assert(views(items@.push(item)) =~= views(items@).push(item@));
        }
        items.push(item);
        if rest.len() == 0 {
            return Err(ParseError::TruncatedInput);
        }
        if rest[0] == END {
            return Ok((slice_subrange(rest, 1, rest.len()), items));
        }
        left = rest;
    }
}

/// Reads the dictionary at the start of `i`.
pub fn parse_dict(i: &[u8]) -> (r: Result<(&[u8], Dict), ParseError>)
    ensures
        read_dict(i@) == (match r {
            Ok((rest, entries)) => Ok((rest@, entries@)),
            Err(e) => Err(e),
        }),
    decreases i@.len(), 0int,
{
    if i.len() == 0 {
        return Err(ParseError::TruncatedInput);
    }
    if i[0] != DICT_START {
        return Err(ParseError::UnexpectedByte);
    }
    let mut entries = Dict::new();
    let mut left = slice_subrange(i, 1, i.len());
    loop
        invariant
            left@.len() < i@.len(),
            read_dict(i@) == read_entries(left@, entries@),
        decreases left@.len(),
    {
        let (middle, key) = match parse_bytes(left) {
            Ok(read) => read,
            Err(e) => { return Err(e); },
        };
        proof {
            lemma_read_bytes_shortens(left@);
        }
        let (rest, value) = match BValue::from_bytes(middle) {
            Ok(read) => read,
            Err(e) => { return Err(e); },
        };
        proof {
            lemma_read_value_shortens(middle@);
        }
        entries.insert(key, value);
        if rest.len() == 0 {
            return Err(ParseError::TruncatedInput);
        }
        if rest[0] == END {
            return Ok((slice_subrange(rest, 1, rest.len()), entries));
        }
        left = rest;
    }
}

impl BValue {
    /// Decodes the value at the start of `i`, and gives the bytes that stand
    /// behind it together with the value.
    ///
    /// The first byte selects the production: `i` an integer, a digit a
    /// byte string, `l` a list, `d` a dictionary. A list and a dictionary
    /// hold at least one item; `le` and `de` are refused. Integers may be
    /// written with leading zeros, and `-0` is zero. A failure anywhere in
    /// the value is the failure of the whole, and nothing of the value is
    /// given then.
    ///
    /// Lists and dictionaries are read as deep as the input nests them: a
    /// caller that reads input it does not trust limits its size.
    pub fn from_bytes(i: &[u8]) -> (r: Result<(&[u8], BValue), ParseError>)
        ensures
            decoded(i@, r),
        decreases i@.len(), 1int,
    {
        if i.len() == 0 {
            return Err(ParseError::TruncatedInput);
        }
        let first = i[0];
        if first == INTEGER_START {
            match parse_number(i) {
                Ok((rest, n)) => Ok((rest, BValue::BNumber(n))),
                Err(e) => Err(e),
            }
        } else if DIGIT_ZERO <= first && first <= DIGIT_NINE {
            match parse_bytes(i) {
                Ok((rest, bytes)) => Ok((rest, BValue::BBytes(bytes))),
                Err(e) => Err(e),
            }
        } else if first == LIST_START {
            match parse_list(i) {
                Ok((rest, items)) => Ok((rest, BValue::BList(items))),
                Err(e) => Err(e),
            }
        } else if first == DICT_START {
            match parse_dict(i) {
                Ok((rest, entries)) => Ok((rest, BValue::BDict(entries))),
                Err(e) => Err(e),
            }
        } else {
            Err(ParseError::UnexpectedByte)
        }
    }

    /// Decodes the value at the start of the bytes of `s`, as `from_bytes` does.
    pub fn from_string(s: &str) -> (r: Result<(&[u8], BValue), ParseError>)
        ensures
            decoded(s.spec_bytes(), r),
    {
        BValue::from_bytes(s.as_bytes())
    }

    /// The integer, if this is one.
    pub fn get_number(&self) -> (r: Option<&i64>)
        ensures
            r == (match *self {
                BValue::BNumber(n) => Some(&n),
                _ => None,
            }),
    {
        match self {
            BValue::BNumber(n) => Some(n),
            _ => None,
        }
    }

    /// The bytes, if this is a byte string.
    pub fn get_bytes(&self) -> (r: Option<&Vec<u8>>)
        ensures
            r == (match *self {
                BValue::BBytes(bytes) => Some(&bytes),
                _ => None,
            }),
    {
        match self {
            BValue::BBytes(bytes) => Some(bytes),
            _ => None,
        }
    }

    /// The items, if this is a list.
    pub fn get_list(&self) -> (r: Option<&Vec<BValue>>)
        ensures
            r == (match *self {
                BValue::BList(list) => Some(&list),
                _ => None,
            }),
    {
        match self {
            BValue::BList(list) => Some(list),
            _ => None,
        }
    }

    /// The byte string read as text, if this is a byte string: its
    /// characters where the bytes are valid UTF-8, `InvalidUtf8` where they
    /// are not.
    pub fn get_string(&self) -> (r: Option<Result<&str, ParseError>>)
        ensures
            match r {
                None => !(self is BBytes),
                Some(Ok(text)) => {
                    &&& self matches BValue::BBytes(bytes)
                    &&& valid_utf8(bytes@)
                    &&& text@ == decode_utf8(bytes@)
                    &&& text.spec_bytes() == bytes@
                },
                Some(Err(e)) => {
                    &&& self matches BValue::BBytes(bytes)
                    &&& !valid_utf8(bytes@)
                    &&& e == ParseError::InvalidUtf8
                },
            },
    {
        match self.get_bytes() {
            Some(bytes) => match text_of(bytes.as_slice()) {
                Some(text) => {
                    proof {
                        encode_utf8_decode_utf8(text@);
                    }
                    Some(Ok(text))
                },
                None => Some(Err(ParseError::InvalidUtf8)),
            },
            None => None,
        }
    }

    /// The dictionary, if this is one.
    pub fn get_dict(&self) -> (r: Option<&Dict>)
        ensures
            r == (match *self {
                BValue::BDict(map) => Some(&map),
                _ => None,
            }),
    {
        match self {
            BValue::BDict(map) => Some(map),
            _ => None,
        }
    }
}

} // verus!
