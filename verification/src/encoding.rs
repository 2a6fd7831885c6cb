//! The canonical encoding of a value, and the proof that reading it gives
//! the value back.

use vstd::prelude::*;
use crate::error::ParseError;
use crate::grammar::{
    decimal, is_digit, lemma_decimal_shift, lemma_digit_run_is, read_bytes, read_entries,
    read_items, read_length, read_number, read_value, Bencode, COLON,
    DICT_START, DIGIT_ZERO, END, INTEGER_START, LIST_START, MINUS,
};
use crate::order::{lemma_lex_total, lemma_lex_transitive, lex_less};

verus! {

/// The digits that write `n` in base ten, without leading zeros.
pub open spec fn digits_of(n: nat) -> Seq<u8>
    decreases n,
{
    if n < 10 {
        seq![(DIGIT_ZERO + n) as u8]
    } else {
        digits_of(n / 10).push((DIGIT_ZERO + n % 10) as u8)
    }
}

/// The encoding of an integer: `i`, `-` if it is negative, its digits, `e`.
pub open spec fn encode_number(n: int) -> Seq<u8> {
    if n < 0 {
        seq![INTEGER_START, MINUS] + digits_of((-n) as nat) + seq![END]
    } else {
        seq![INTEGER_START] + digits_of(n as nat) + seq![END]
    }
}

/// The encoding of a byte string: the digits of its length, `:`, its bytes.
pub open spec fn encode_bytes(bytes: Seq<u8>) -> Seq<u8> {
    digits_of(bytes.len()) + seq![COLON] + bytes
}

/// The key of `keys` that comes before all its other keys.
pub open spec fn least(keys: Set<Seq<u8>>) -> Seq<u8> {
    choose|k: Seq<u8>| is_least(keys, k)
}

/// `k` is a key of `keys` and comes before all its other keys.
pub open spec fn is_least(keys: Set<Seq<u8>>, k: Seq<u8>) -> bool {
    keys.contains(k) && forall|o: Seq<u8>| keys.contains(o) && o != k ==> lex_less(k, o)
}

/// The canonical encoding of a value. The pairs of a dictionary stand in
/// ascending order of their keys.
pub open spec fn encode(v: Bencode) -> Seq<u8>
    decreases v, 0nat,
{
    match v {
        Bencode::Number(n) => encode_number(n),
        Bencode::Bytes(bytes) => encode_bytes(bytes),
        Bencode::List(items) => seq![LIST_START] + encode_items(items, 0) + seq![END],
        Bencode::Dict(entries) => seq![DICT_START] + encode_entries(entries, entries.dom())
            + seq![END],
    }
}

/// The encodings of the items from place `from` on, one behind the other.
pub open spec fn encode_items(items: Seq<Bencode>, from: int) -> Seq<u8>
    decreases items, items.len() - from,
{
    if 0 <= from < items.len() {
        encode(items[from]) + encode_items(items, from + 1)
    } else {
        Seq::empty()
    }
}

/// The encodings of the pairs of `entries` whose keys are in `keys`, in
/// ascending order of the keys, each key encoded as a byte string.
pub open spec fn encode_entries(entries: Map<Seq<u8>, Bencode>, keys: Set<Seq<u8>>) -> Seq<u8>
    decreases entries, keys.len(),
{
    let key = least(keys);
    if entries.dom().finite() && keys.finite() && keys.contains(key) && entries.contains_key(
        key,
    ) {
        encode_bytes(key) + encode(entries[key]) + encode_entries(entries, keys.remove(key))
    } else {
        Seq::empty()
    }
}

/// A value that has an encoding which the decoder accepts: its integers are
/// in the 64-bit signed range, the lengths of its byte strings and keys fit
/// `usize`, and its lists and dictionaries hold something.
pub open spec fn encodable(v: Bencode) -> bool
    decreases v,
{
    match v {
        Bencode::Number(n) => i64::MIN <= n <= i64::MAX,
        Bencode::Bytes(bytes) => bytes.len() <= usize::MAX,
        Bencode::List(items) => items.len() > 0 && forall|i: int|
            0 <= i < items.len() ==> encodable(#[trigger] items[i]),
        Bencode::Dict(entries) => entries.dom().finite() && entries.dom().len() > 0 && forall|
            key: Seq<u8>,
        | #[trigger]
            entries.contains_key(key) ==> key.len() <= usize::MAX && encodable(entries[key]),
    }
}

/// `digits_of` gives at least one byte, digits only, and they write `n`.
pub proof fn lemma_digits_of(n: nat)
    ensures
        digits_of(n).len() >= 1,
        forall|j: int| 0 <= j < digits_of(n).len() ==> is_digit(#[trigger] digits_of(n)[j]),
        decimal(digits_of(n), 0, digits_of(n).len() as int) == n,
    decreases n,
{
    let all = digits_of(n);
    if n >= 10 {
        lemma_digits_of(n / 10);
        let front = digits_of(n / 10);
        lemma_decimal_shift(front, 0, front.len() as int, all, 0);
        assert(all[all.len() - 1] == DIGIT_ZERO + n % 10);
        assert(decimal(all, 0, all.len() - 1) == n / 10);
    } else {
        assert(decimal(all, 0, 0) == 0);
        assert(all[0] == DIGIT_ZERO + n);
    }
}

/// Reading the encoding of an integer in the 64-bit signed range gives the
/// integer and leaves what stands behind the encoding.
pub proof fn lemma_read_encoded_number(n: int, tail: Seq<u8>)
    requires
        i64::MIN <= n <= i64::MAX,
    ensures
        read_number(encode_number(n) + tail) == Ok::<_, ParseError>((tail, n)),
{
    let magnitude = (if n < 0 { -n } else { n }) as nat;
    let digits = digits_of(magnitude);
    lemma_digits_of(magnitude);
    let s = encode_number(n) + tail;
    let start: int = if n < 0 { 2 } else { 1 };
    let end = start + digits.len();
    assert(s[0] == INTEGER_START);
    assert(forall|j: int| start <= j < end ==> s[j] == digits[j - start]);
    assert(is_digit(digits[0]));
    assert(s[start] == digits[0]);
    assert(s[end] == END);
    lemma_digit_run_is(s, start, end);
    lemma_decimal_shift(digits, 0, digits.len() as int, s, start);
    assert(s.skip(end + 1) =~= tail);
}

/// Reading the encoding of a byte string whose length fits `usize` gives the
/// byte string and leaves what stands behind the encoding.
pub proof fn lemma_read_encoded_bytes(bytes: Seq<u8>, tail: Seq<u8>)
    requires
        bytes.len() <= usize::MAX,
    ensures
        read_bytes(encode_bytes(bytes) + tail) == Ok::<_, ParseError>((tail, bytes)),
{
    let digits = digits_of(bytes.len());
    lemma_digits_of(bytes.len());
    let s = encode_bytes(bytes) + tail;
    let colon = digits.len() as int;
    assert(forall|j: int| 0 <= j < colon ==> s[j] == digits[j]);
    assert(is_digit(digits[0]));
    assert(s[0] == digits[0]);
    assert(s[colon] == COLON);
    lemma_digit_run_is(s, 0, colon);
    lemma_decimal_shift(digits, 0, colon, s, 0);
    let rest = s.skip(colon + 1);
    assert(rest =~= bytes + tail);
    assert(read_length(s) == Ok::<_, ParseError>((rest, bytes.len())));
    assert(rest.skip(bytes.len() as int) =~= tail);
    assert(rest.take(bytes.len() as int) =~= bytes);
}

/// A finite set of keys that is not empty has a least key.
pub proof fn lemma_least_exists(keys: Set<Seq<u8>>)
    requires
        keys.finite(),
        keys.len() > 0,
    ensures
        is_least(keys, least(keys)),
    decreases keys.len(),
{
    let x = keys.choose();
    let others = keys.remove(x);
    if others.len() == 0 {
        assert forall|o: Seq<u8>| keys.contains(o) && o != x implies lex_less(x, o) by {
            assert(others.contains(o));
        }
        assert(is_least(keys, x));
    } else {
        lemma_least_exists(others);
        let y = least(others);
        lemma_lex_total(x, y);
        if lex_less(x, y) {
            assert forall|o: Seq<u8>| keys.contains(o) && o != x implies lex_less(x, o) by {
                assert(others.contains(o));
                if o != y {
                    lemma_lex_transitive(x, y, o);
                }
            }
            assert(is_least(keys, x));
        } else {
            assert forall|o: Seq<u8>| keys.contains(o) && o != y implies lex_less(y, o) by {
                if o != x {
                    assert(others.contains(o));
                }
            }
            assert(is_least(keys, y));
        }
    }
}

/// The encoding of a value begins with the byte of its production.
pub proof fn lemma_encode_starts(v: Bencode)
    requires
        encodable(v),
    ensures
        encode(v).len() > 0,
        match v {
            Bencode::Number(_) => encode(v)[0] == INTEGER_START,
            Bencode::Bytes(_) => is_digit(encode(v)[0]),
            Bencode::List(_) => encode(v)[0] == LIST_START,
            Bencode::Dict(_) => encode(v)[0] == DICT_START,
        },
{
    match v {
        Bencode::Number(n) => {},
        Bencode::Bytes(bytes) => {
            lemma_digits_of(bytes.len());
            assert(encode(v)[0] == digits_of(bytes.len())[0]);
        },
        Bencode::List(items) => {},
        Bencode::Dict(entries) => {},
    }
}

/// The encoding of one pair or more begins with a digit.
pub proof fn lemma_encode_entries_starts(entries: Map<Seq<u8>, Bencode>, keys: Set<Seq<u8>>)
    requires
        entries.dom().finite(),
        keys.finite(),
        keys.len() > 0,
        keys.subset_of(entries.dom()),
    ensures
        encode_entries(entries, keys).len() > 0,
        is_digit(encode_entries(entries, keys)[0]),
{
    lemma_least_exists(keys);
    let key = least(keys);
    lemma_digits_of(key.len());
    assert(encode_entries(entries, keys)[0] == digits_of(key.len())[0]);
}

/// Reading the canonical encoding of a value gives the value back and leaves
/// what stands behind the encoding.
pub proof fn lemma_read_encoded(v: Bencode, tail: Seq<u8>)
    requires
        encodable(v),
    ensures
        read_value(encode(v) + tail) == Ok::<_, ParseError>((tail, v)),
    decreases v, 0nat,
{
    let s = encode(v) + tail;
    lemma_encode_starts(v);
    assert(s[0] == encode(v)[0]);
    match v {
        Bencode::Number(n) => {
            lemma_read_encoded_number(n, tail);
        },
        Bencode::Bytes(bytes) => {
            lemma_read_encoded_bytes(bytes, tail);
        },
        Bencode::List(items) => {
            lemma_read_encoded_items(items, 0, Seq::empty(), tail);
            assert(s.skip(1) =~= encode_items(items, 0) + seq![END] + tail);
            assert(Seq::<Bencode>::empty() + items.subrange(0, items.len() as int) =~= items);
        },
        Bencode::Dict(entries) => {
            lemma_read_encoded_entries(entries, entries.dom(), Map::empty(), tail);
            assert(s.skip(1) =~= encode_entries(entries, entries.dom()) + seq![END] + tail);
            assert(Map::<Seq<u8>, Bencode>::empty().union_prefer_right(
                entries.restrict(entries.dom()),
            ) =~= entries);
        },
    }
}

/// Reading the encodings of the items from place `from` on, closed by `e`,
/// adds these items to those read before.
pub proof fn lemma_read_encoded_items(
    items: Seq<Bencode>,
    from: int,
    done: Seq<Bencode>,
    tail: Seq<u8>,
)
    requires
        0 <= from < items.len(),
        forall|i: int| 0 <= i < items.len() ==> encodable(#[trigger] items[i]),
    ensures
        read_items(encode_items(items, from) + seq![END] + tail, done) == Ok::<_, ParseError>(
            (tail, done + items.subrange(from, items.len() as int)),
        ),
    decreases items, items.len() - from,
{
    let s = encode_items(items, from) + seq![END] + tail;
    let item = items[from];
    let rest = encode_items(items, from + 1) + seq![END] + tail;
    assert(s =~= encode(item) + rest);
    lemma_encode_starts(item);
    lemma_read_encoded(item, rest);
    if from + 1 == items.len() {
        assert(rest =~= seq![END] + tail);
        assert(rest.skip(1) =~= tail);
        assert(done.push(item) =~= done + items.subrange(from, items.len() as int));
    } else {
        lemma_encode_starts(items[from + 1]);
        assert(rest[0] == encode(items[from + 1])[0]);
        lemma_read_encoded_items(items, from + 1, done.push(item), tail);
        assert(done.push(item) + items.subrange(from + 1, items.len() as int) =~= done
            + items.subrange(from, items.len() as int));
    }
}

/// Reading a pair, encoded in front of `rest`, reads on in `rest` with the
/// pair added, or ends where `rest` begins with `e`.
pub proof fn lemma_read_encoded_entry(
    key: Seq<u8>,
    value: Bencode,
    rest: Seq<u8>,
    done: Map<Seq<u8>, Bencode>,
)
    requires
        key.len() <= usize::MAX,
        encodable(value),
        rest.len() > 0,
    ensures
        read_entries(encode_bytes(key) + encode(value) + rest, done) == (if rest[0] == END {
            Ok::<_, ParseError>((rest.skip(1), done.insert(key, value)))
        } else {
            read_entries(rest, done.insert(key, value))
        }),
    decreases value, 1nat,
{
    let middle = encode(value) + rest;
    let s = encode_bytes(key) + encode(value) + rest;
    assert(s =~= encode_bytes(key) + middle);
    lemma_read_encoded_bytes(key, middle);
    lemma_encode_starts(value);
    lemma_read_encoded(value, rest);
    lemma_digits_of(key.len());
}

/// The pairs of `entries` with keys in `keys`, entered behind `done`, are the
/// pair of one of the keys and then the pairs of the others.
pub proof fn lemma_restrict_step(
    entries: Map<Seq<u8>, Bencode>,
    keys: Set<Seq<u8>>,
    key: Seq<u8>,
    done: Map<Seq<u8>, Bencode>,
)
    requires
        keys.contains(key),
        entries.contains_key(key),
    ensures
        done.insert(key, entries[key]).union_prefer_right(entries.restrict(keys.remove(key)))
            == done.union_prefer_right(entries.restrict(keys)),
{
    assert(done.insert(key, entries[key]).union_prefer_right(entries.restrict(keys.remove(key)))
        =~= done.union_prefer_right(entries.restrict(keys)));
}

/// Reading the encodings of the pairs with keys in `keys`, closed by `e`,
/// adds these pairs to those read before.
pub proof fn lemma_read_encoded_entries(
    entries: Map<Seq<u8>, Bencode>,
    keys: Set<Seq<u8>>,
    done: Map<Seq<u8>, Bencode>,
    tail: Seq<u8>,
)
    requires
        entries.dom().finite(),
        keys.finite(),
        keys.len() > 0,
        keys.subset_of(entries.dom()),
        forall|key: Seq<u8>| #[trigger]
            entries.contains_key(key) ==> key.len() <= usize::MAX && encodable(entries[key]),
    ensures
        read_entries(encode_entries(entries, keys) + seq![END] + tail, done) == Ok::<
            _,
            ParseError,
        >((tail, done.union_prefer_right(entries.restrict(keys)))),
    decreases entries, keys.len(),
{
    lemma_least_exists(keys);
    let key = least(keys);
    let value = entries[key];
    let others = keys.remove(key);
    let rest = encode_entries(entries, others) + seq![END] + tail;
    assert(encode_entries(entries, keys) + seq![END] + tail =~= encode_bytes(key) + encode(value)
        + rest);
    lemma_read_encoded_entry(key, value, rest, done);
    lemma_restrict_step(entries, keys, key, done);
    if others.len() == 0 {
        assert(others =~= Set::empty());
        assert(encode_entries(entries, others) =~= Seq::empty()) by {
            reveal_with_fuel(encode_entries, 1);
        }
        assert(rest =~= seq![END] + tail);
        assert(rest.skip(1) =~= tail);
        assert(entries.restrict(others) =~= Map::empty());
        assert(done.insert(key, value).union_prefer_right(Map::empty()) =~= done.insert(
            key,
            value,
        ));
    } else {
        lemma_encode_entries_starts(entries, others);
        assert(rest[0] == encode_entries(entries, others)[0]);
        lemma_read_encoded_entries(entries, others, done.insert(key, value), tail);
    }
}

/// Every value that the grammar reads is encodable.
pub proof fn lemma_read_value_encodable(s: Seq<u8>)
    ensures
        read_value(s) matches Ok((_, v)) ==> encodable(v),
    decreases s.len(), 1int,
{
    if s.len() > 0 {
        if s[0] == LIST_START {
            lemma_read_items_encodable(s.skip(1), Seq::empty());
        } else if s[0] == DICT_START {
            lemma_read_entries_encodable(s.skip(1), Map::empty());
        }
    }
}

/// The items that the body of a list adds are encodable, and there is one
/// at least.
pub proof fn lemma_read_items_encodable(s: Seq<u8>, done: Seq<Bencode>)
    requires
        forall|i: int| 0 <= i < done.len() ==> encodable(#[trigger] done[i]),
    ensures
        read_items(s, done) matches Ok((_, items)) ==> encodable(Bencode::List(items)),
    decreases s.len(), 2int,
{
    lemma_read_value_encodable(s);
    if let Ok((rest, item)) = read_value(s) {
        if 0 < rest.len() < s.len() && rest[0] != END {
            lemma_read_items_encodable(rest, done.push(item));
        }
    }
}

/// The pairs that the body of a dictionary adds have keys whose lengths fit
/// `usize` and values that are encodable, and there is one at least.
pub proof fn lemma_read_entries_encodable(s: Seq<u8>, done: Map<Seq<u8>, Bencode>)
    requires
        done.dom().finite(),
        forall|key: Seq<u8>| #[trigger]
            done.contains_key(key) ==> key.len() <= usize::MAX && encodable(done[key]),
    ensures
        read_entries(s, done) matches Ok((_, entries)) ==> encodable(Bencode::Dict(entries)),
    decreases s.len(), 2int,
{
    if let Ok((middle, key)) = read_bytes(s) {
        lemma_read_value_encodable(middle);
        if let Ok((rest, value)) = read_value(middle) {
            let entries = done.insert(key, value);
            assert(entries.dom().len() > 0) by {
                if entries.dom().len() == 0 {
                    assert(entries.dom().contains(key));
                }
            }
            if 0 < rest.len() < s.len() && rest[0] != END {
                lemma_read_entries_encodable(rest, entries);
                if let Ok((_, all)) = read_entries(rest, entries) {
                    assert(encodable(Bencode::Dict(all)));
                }
            }
        }
    }
}

} // verus!
