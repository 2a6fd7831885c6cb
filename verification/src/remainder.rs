//! What a reading leaves behind: always an end piece of its input, shorter
//! than the input, and the same whatever stands behind the production.

use vstd::prelude::*;
use crate::grammar::{
    digit_run, is_digit, lemma_decimal_shift, lemma_digit_run, lemma_digit_run_is, read_bytes,
    read_dict, read_entries, read_items, read_length, read_list, read_number, read_value,
    Bencode, Reading, DICT_START, END, INTEGER_START, LIST_START, MINUS,
};

verus! {

/// What a successful reading leaves is a proper end piece of its input.
pub open spec fn shortens<T>(s: Seq<u8>, reading: Reading<T>) -> bool {
    reading matches Ok((rest, _)) ==> rest.len() < s.len() && rest == s.skip(
        s.len() - rest.len(),
    )
}

/// An integer takes at least three bytes from the front of the input.
pub proof fn lemma_read_number_shortens(s: Seq<u8>)
    ensures
        shortens(s, read_number(s)),
{
    if read_number(s) is Ok {
        let rest = read_number(s)->Ok_0.0;
        assert(rest =~= s.skip(s.len() - rest.len()));
    }
}

/// A byte string takes at least two bytes from the front of the input.
pub proof fn lemma_read_bytes_shortens(s: Seq<u8>)
    ensures
        shortens(s, read_length(s)),
        shortens(s, read_bytes(s)),
{
    if read_length(s) is Ok {
        let middle = read_length(s)->Ok_0.0;
        assert(middle =~= s.skip(s.len() - middle.len()));
        if read_bytes(s) is Ok {
            let rest = read_bytes(s)->Ok_0.0;
            assert(rest =~= s.skip(s.len() - rest.len()));
        }
    }
}

/// Every value takes bytes from the front of the input and leaves the rest
/// as it was.
pub proof fn lemma_read_value_shortens(s: Seq<u8>)
    ensures
        shortens(s, read_value(s)),
    decreases s.len(), 1int,
{
    if s.len() > 0 {
        if s[0] == INTEGER_START {
            lemma_read_number_shortens(s);
        } else if is_digit(s[0]) {
            lemma_read_bytes_shortens(s);
        } else if s[0] == LIST_START {
            lemma_read_list_shortens(s);
        } else if s[0] == DICT_START {
            lemma_read_dict_shortens(s);
        }
    }
}

/// A list takes bytes from the front of the input and leaves the rest as it was.
pub proof fn lemma_read_list_shortens(s: Seq<u8>)
    ensures
        shortens(s, read_list(s)),
    decreases s.len(), 0int,
{
    if s.len() > 0 && s[0] == LIST_START {
        let body = s.skip(1);
        lemma_read_items_shortens(body, Seq::empty());
        if read_list(s) is Ok {
            let rest = read_list(s)->Ok_0.0;
            assert(rest =~= s.skip(s.len() - rest.len()));
        }
    }
}

/// A dictionary takes bytes from the front of the input and leaves the rest
/// as it was.
pub proof fn lemma_read_dict_shortens(s: Seq<u8>)
    ensures
        shortens(s, read_dict(s)),
    decreases s.len(), 0int,
{
    if s.len() > 0 && s[0] == DICT_START {
        let body = s.skip(1);
        lemma_read_entries_shortens(body, Map::empty());
        if read_dict(s) is Ok {
            let rest = read_dict(s)->Ok_0.0;
            assert(rest =~= s.skip(s.len() - rest.len()));
        }
    }
}

/// The body of a list takes bytes from the front of the input and leaves
/// the rest as it was.
pub proof fn lemma_read_items_shortens(s: Seq<u8>, done: Seq<Bencode>)
    ensures
        shortens(s, read_items(s, done)),
    decreases s.len(), 2int,
{
    lemma_read_value_shortens(s);
    if let Ok((rest, item)) = read_value(s) {
        if 0 < rest.len() < s.len() {
            if rest[0] != END {
                lemma_read_items_shortens(rest, done.push(item));
            }
            if read_items(s, done) is Ok {
                let left = read_items(s, done)->Ok_0.0;
                assert(left =~= s.skip(s.len() - left.len()));
            }
        }
    }
}

/// The body of a dictionary takes bytes from the front of the input and
/// leaves the rest as it was.
pub proof fn lemma_read_entries_shortens(s: Seq<u8>, done: Map<Seq<u8>, Bencode>)
    ensures
        shortens(s, read_entries(s, done)),
    decreases s.len(), 2int,
{
    lemma_read_bytes_shortens(s);
    if let Ok((middle, key)) = read_bytes(s) {
        lemma_read_value_shortens(middle);
        if let Ok((rest, value)) = read_value(middle) {
            if 0 < rest.len() < s.len() {
                if rest[0] != END {
                    lemma_read_entries_shortens(rest, done.insert(key, value));
                }
                if read_entries(s, done) is Ok {
                    let left = read_entries(s, done)->Ok_0.0;
                    assert(left =~= s.skip(s.len() - left.len()));
                }
            }
        }
    }
}

/// The reading of `s` with `tail` added to what it leaves.
pub open spec fn with_tail<T>(reading: Reading<T>, tail: Seq<u8>) -> Reading<T> {
    match reading {
        Ok((rest, read)) => Ok((rest + tail, read)),
        Err(e) => Err(e),
    }
}

/// An integer reads the same whatever stands behind it.
pub proof fn lemma_read_number_extends(s: Seq<u8>, tail: Seq<u8>)
    requires
        read_number(s) is Ok,
    ensures
        read_number(s + tail) == with_tail(read_number(s), tail),
{
    let t = s + tail;
    let start: int = if s.len() > 1 && s[1] == MINUS { 2 } else { 1 };
    let end = start + digit_run(s, start);
    lemma_digit_run(s, start);
    assert(t[1] == s[1]);
    assert(t[end] == s[end]);
    assert forall|j: int| start <= j < end implies is_digit(#[trigger] t[j]) by {
        assert(t[j] == s[j]);
    }
    lemma_digit_run_is(t, start, end);
    lemma_decimal_shift(s, start, end, t, 0);
    assert(t.skip(end + 1) =~= s.skip(end + 1) + tail);
}

/// A byte string reads the same whatever stands behind it.
pub proof fn lemma_read_bytes_extends(s: Seq<u8>, tail: Seq<u8>)
    requires
        read_bytes(s) is Ok,
    ensures
        read_length(s + tail) == with_tail(read_length(s), tail),
        read_bytes(s + tail) == with_tail(read_bytes(s), tail),
{
    let t = s + tail;
    let colon = digit_run(s, 0) as int;
    lemma_digit_run(s, 0);
    assert(t[0] == s[0]);
    assert(t[colon] == s[colon]);
    assert forall|j: int| 0 <= j < colon implies is_digit(#[trigger] t[j]) by {
        assert(t[j] == s[j]);
    }
    lemma_digit_run_is(t, 0, colon);
    lemma_decimal_shift(s, 0, colon, t, 0);
    let rest = s.skip(colon + 1);
    assert(t.skip(colon + 1) =~= rest + tail);
    let length = read_length(s)->Ok_0.1 as int;
    assert((rest + tail).skip(length) =~= rest.skip(length) + tail);
    assert((rest + tail).take(length) =~= rest.take(length));
}

/// A value reads the same whatever stands behind it: the bytes behind it are
/// left, and none of them is asked for.
pub proof fn lemma_read_value_extends(s: Seq<u8>, tail: Seq<u8>)
    requires
        read_value(s) is Ok,
    ensures
        read_value(s + tail) == with_tail(read_value(s), tail),
    decreases s.len(), 1int,
{
    let t = s + tail;
    assert(t[0] == s[0]);
    if s[0] == INTEGER_START {
        lemma_read_number_extends(s, tail);
    } else if is_digit(s[0]) {
        lemma_read_bytes_extends(s, tail);
    } else if s[0] == LIST_START {
        lemma_read_list_extends(s, tail);
    } else if s[0] == DICT_START {
        lemma_read_dict_extends(s, tail);
    }
}

/// A list reads the same whatever stands behind it.
pub proof fn lemma_read_list_extends(s: Seq<u8>, tail: Seq<u8>)
    requires
        read_list(s) is Ok,
    ensures
        read_list(s + tail) == with_tail(read_list(s), tail),
    decreases s.len(), 0int,
{
    let t = s + tail;
    assert(t[0] == s[0]);
    assert(t.skip(1) =~= s.skip(1) + tail);
    lemma_read_items_extends(s.skip(1), Seq::empty(), tail);
}

/// A dictionary reads the same whatever stands behind it.
pub proof fn lemma_read_dict_extends(s: Seq<u8>, tail: Seq<u8>)
    requires
        read_dict(s) is Ok,
    ensures
        read_dict(s + tail) == with_tail(read_dict(s), tail),
    decreases s.len(), 0int,
{
    let t = s + tail;
    assert(t[0] == s[0]);
    assert(t.skip(1) =~= s.skip(1) + tail);
    lemma_read_entries_extends(s.skip(1), Map::empty(), tail);
}

/// The body of a list reads the same whatever stands behind its `e`.
pub proof fn lemma_read_items_extends(s: Seq<u8>, done: Seq<Bencode>, tail: Seq<u8>)
    requires
        read_items(s, done) is Ok,
    ensures
        read_items(s + tail, done) == with_tail(read_items(s, done), tail),
    decreases s.len(), 2int,
{
    lemma_read_value_extends(s, tail);
    let (rest, item) = read_value(s)->Ok_0;
    assert((rest + tail)[0] == rest[0]);
    if rest[0] == END {
        assert((rest + tail).skip(1) =~= rest.skip(1) + tail);
    } else {
        lemma_read_items_extends(rest, done.push(item), tail);
    }
}

/// The body of a dictionary reads the same whatever stands behind its `e`.
pub proof fn lemma_read_entries_extends(s: Seq<u8>, done: Map<Seq<u8>, Bencode>, tail: Seq<u8>)
    requires
        read_entries(s, done) is Ok,
    ensures
        read_entries(s + tail, done) == with_tail(read_entries(s, done), tail),
    decreases s.len(), 2int,
{
    lemma_read_bytes_extends(s, tail);
    lemma_read_bytes_shortens(s);
    let (middle, key) = read_bytes(s)->Ok_0;
    lemma_read_value_extends(middle, tail);
    let (rest, value) = read_value(middle)->Ok_0;
    assert((rest + tail)[0] == rest[0]);
    if rest[0] == END {
        assert((rest + tail).skip(1) =~= rest.skip(1) + tail);
    } else {
        lemma_read_entries_extends(rest, done.insert(key, value), tail);
    }
}

} // verus!
