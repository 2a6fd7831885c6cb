use torcode::{BValue, Dict, ParseError};

fn bytes(text: &str) -> BValue {
    BValue::BBytes(text.as_bytes().to_vec())
}

#[test]
fn test_parse_number() {
    assert_eq!(BValue::from_bytes(&b"i3228e"[..]), Ok((&b""[..], BValue::BNumber(3228))));
    assert_eq!(BValue::from_bytes(&b"i-3228e"[..]), Ok((&b""[..], BValue::BNumber(-3228))));
}

#[test]
fn test_parse_bytes() {
    assert_eq!(
        BValue::from_bytes(&b"12:Hello World!"[..]),
        Ok((&b""[..], BValue::BBytes("Hello World!".as_bytes().to_vec())))
    );
}

#[test]
fn test_parse_list() {
    let expected = BValue::BList(vec![
        BValue::BBytes("spam".as_bytes().to_vec()),
        BValue::BBytes("eggs".as_bytes().to_vec()),
    ]);
    assert_eq!(BValue::from_bytes(&b"l4:spam4:eggse"[..]), Ok((&b""[..], expected)));
}

#[test]
fn test_parse_dict() {
    let mut expected = Dict::new();
    expected.insert("cow".as_bytes().to_vec(), BValue::BBytes("moo".as_bytes().to_vec()));
    expected.insert("spam".as_bytes().to_vec(), BValue::BBytes("eggs".as_bytes().to_vec()));

    assert_eq!(
        BValue::from_bytes(&b"d3:cow3:moo4:spam4:eggse"[..]),
        Ok((&b""[..], BValue::BDict(expected)))
    );
}

#[test]
fn from_string_reads_the_bytes_of_the_text() {
    assert_eq!(BValue::from_string("i3228e"), Ok((&b""[..], BValue::BNumber(3228))));
    assert_eq!(BValue::from_string("4:spam"), Ok((&b""[..], bytes("spam"))));
    assert_eq!(BValue::from_string(""), Err(ParseError::TruncatedInput));
}

#[test]
fn empty_byte_string() {
    assert_eq!(BValue::from_bytes(&b"0:"[..]), Ok((&b""[..], BValue::BBytes(Vec::new()))));
}

#[test]
fn truncated_byte_string() {
    assert_eq!(BValue::from_bytes(&b"5:ab"[..]), Err(ParseError::TruncatedInput));
    assert_eq!(BValue::from_bytes(&b"1:"[..]), Err(ParseError::TruncatedInput));
    assert_eq!(BValue::from_bytes(&b"12"[..]), Err(ParseError::TruncatedInput));
}

#[test]
fn empty_digit_run() {
    assert_eq!(BValue::from_bytes(&b"ie"[..]), Err(ParseError::MalformedNumber));
    assert_eq!(BValue::from_bytes(&b"i-e"[..]), Err(ParseError::MalformedNumber));
    assert_eq!(BValue::from_bytes(&b"i"[..]), Err(ParseError::MalformedNumber));
    assert_eq!(BValue::from_bytes(&b"i-"[..]), Err(ParseError::MalformedNumber));
}

#[test]
fn trailing_bytes_are_left() {
    assert_eq!(BValue::from_bytes(&b"i3eXYZ"[..]), Ok((&b"XYZ"[..], BValue::BNumber(3))));
    assert_eq!(BValue::from_bytes(&b"4:spam4:eggs"[..]), Ok((&b"4:eggs"[..], bytes("spam"))));
    assert_eq!(
        BValue::from_bytes(&b"li1eei2e"[..]),
        Ok((&b"i2e"[..], BValue::BList(vec![BValue::BNumber(1)])))
    );
    let mut entries = Dict::new();
    entries.insert(b"a".to_vec(), BValue::BNumber(1));
    assert_eq!(
        BValue::from_bytes(&b"d1:ai1eee"[..]),
        Ok((&b"e"[..], BValue::BDict(entries)))
    );
}

#[test]
fn failure_repeats() {
    let inputs: Vec<&[u8]> = vec![b"", b"x", b"ie", b"5:ab", b"l4:spam", b"d3:cow", b"i12", b"le"];
    for input in inputs {
        let first = BValue::from_bytes(input);
        let second = BValue::from_bytes(input);
        assert!(first.is_err());
        assert_eq!(first, second);
    }
}

#[test]
fn empty_input_is_truncated() {
    assert_eq!(BValue::from_bytes(&b""[..]), Err(ParseError::TruncatedInput));
}

#[test]
fn unexpected_leading_byte() {
    assert_eq!(BValue::from_bytes(&b"x"[..]), Err(ParseError::UnexpectedByte));
    assert_eq!(BValue::from_bytes(&b"e"[..]), Err(ParseError::UnexpectedByte));
    assert_eq!(BValue::from_bytes(&b"-1e"[..]), Err(ParseError::UnexpectedByte));
    assert_eq!(BValue::from_bytes(&b":"[..]), Err(ParseError::UnexpectedByte));
    assert_eq!(BValue::from_bytes(&b" i1e"[..]), Err(ParseError::UnexpectedByte));
}

#[test]
fn integer_limits() {
    assert_eq!(
        BValue::from_bytes(&b"i9223372036854775807e"[..]),
        Ok((&b""[..], BValue::BNumber(i64::MAX)))
    );
    assert_eq!(
        BValue::from_bytes(&b"i-9223372036854775808e"[..]),
        Ok((&b""[..], BValue::BNumber(i64::MIN)))
    );
    assert_eq!(
        BValue::from_bytes(&b"i9223372036854775808e"[..]),
        Err(ParseError::MalformedNumber)
    );
    assert_eq!(
        BValue::from_bytes(&b"i-9223372036854775809e"[..]),
        Err(ParseError::MalformedNumber)
    );
    assert_eq!(
        BValue::from_bytes(&b"i18446744073709551616e"[..]),
        Err(ParseError::MalformedNumber)
    );
    assert_eq!(
        BValue::from_bytes(&b"i99999999999999999999999999999999e"[..]),
        Err(ParseError::MalformedNumber)
    );
}

#[test]
fn integer_overflow_comes_before_the_missing_end() {
    assert_eq!(
        BValue::from_bytes(&b"i99999999999999999999"[..]),
        Err(ParseError::MalformedNumber)
    );
}

#[test]
fn leading_zeros_and_negative_zero() {
    assert_eq!(BValue::from_bytes(&b"i0e"[..]), Ok((&b""[..], BValue::BNumber(0))));
    assert_eq!(BValue::from_bytes(&b"i-0e"[..]), Ok((&b""[..], BValue::BNumber(0))));
    assert_eq!(BValue::from_bytes(&b"i007e"[..]), Ok((&b""[..], BValue::BNumber(7))));
    assert_eq!(BValue::from_bytes(&b"i-0042e"[..]), Ok((&b""[..], BValue::BNumber(-42))));
    assert_eq!(BValue::from_bytes(&b"04:spam"[..]), Ok((&b""[..], bytes("spam"))));
}

#[test]
fn integer_without_end() {
    assert_eq!(BValue::from_bytes(&b"i12"[..]), Err(ParseError::TruncatedInput));
    assert_eq!(BValue::from_bytes(&b"i-12"[..]), Err(ParseError::TruncatedInput));
}

#[test]
fn integer_with_a_byte_that_is_no_digit() {
    assert_eq!(BValue::from_bytes(&b"i12x3e"[..]), Err(ParseError::MalformedNumber));
    assert_eq!(BValue::from_bytes(&b"ixe"[..]), Err(ParseError::MalformedNumber));
    assert_eq!(BValue::from_bytes(&b"i+1e"[..]), Err(ParseError::MalformedNumber));
    assert_eq!(BValue::from_bytes(&b"i--1e"[..]), Err(ParseError::MalformedNumber));
    assert_eq!(BValue::from_bytes(&b"i1-e"[..]), Err(ParseError::MalformedNumber));
}

#[test]
fn length_with_a_byte_that_is_no_digit() {
    assert_eq!(BValue::from_bytes(&b"4x:spam"[..]), Err(ParseError::MalformedNumber));
    assert_eq!(BValue::from_bytes(&b"4spam"[..]), Err(ParseError::MalformedNumber));
}

#[test]
fn length_that_does_not_fit() {
    assert_eq!(
        BValue::from_bytes(&b"99999999999999999999999999:abc"[..]),
        Err(ParseError::MalformedNumber)
    );
    assert_eq!(
        BValue::from_bytes(&b"340282366920938463463374607431768211456:"[..]),
        Err(ParseError::MalformedNumber)
    );
}

#[test]
fn length_without_colon_is_truncated_before_it_is_too_large() {
    assert_eq!(
        BValue::from_bytes(&b"99999999999999999999999999"[..]),
        Err(ParseError::TruncatedInput)
    );
}

#[test]
fn byte_string_need_not_be_text() {
    assert_eq!(
        BValue::from_bytes(&[b'3', b':', 0xff, 0x00, 0xfe][..]),
        Ok((&b""[..], BValue::BBytes(vec![0xff, 0x00, 0xfe])))
    );
}

#[test]
fn byte_string_takes_its_length_and_no_more() {
    assert_eq!(BValue::from_bytes(&b"3:abcdef"[..]), Ok((&b"def"[..], bytes("abc"))));
    assert_eq!(BValue::from_bytes(&b"0:abc"[..]), Ok((&b"abc"[..], bytes(""))));
    assert_eq!(BValue::from_bytes(&b"2:i3e"[..]), Ok((&b"e"[..], bytes("i3"))));
}

#[test]
fn empty_list_and_dictionary_are_refused() {
    assert_eq!(BValue::from_bytes(&b"le"[..]), Err(ParseError::UnexpectedByte));
    assert_eq!(BValue::from_bytes(&b"de"[..]), Err(ParseError::UnexpectedByte));
    assert_eq!(BValue::from_bytes(&b"l"[..]), Err(ParseError::TruncatedInput));
    assert_eq!(BValue::from_bytes(&b"d"[..]), Err(ParseError::TruncatedInput));
}

#[test]
fn list_without_end() {
    assert_eq!(BValue::from_bytes(&b"l4:spam"[..]), Err(ParseError::TruncatedInput));
    assert_eq!(BValue::from_bytes(&b"li1ei2e"[..]), Err(ParseError::TruncatedInput));
}

#[test]
fn failure_of_an_item_is_the_failure_of_the_list() {
    assert_eq!(BValue::from_bytes(&b"l4:spam5:abe"[..]), Err(ParseError::TruncatedInput));
    assert_eq!(BValue::from_bytes(&b"li1eiee"[..]), Err(ParseError::MalformedNumber));
    assert_eq!(BValue::from_bytes(&b"li1exe"[..]), Err(ParseError::UnexpectedByte));
    assert_eq!(BValue::from_bytes(&b"lli1exee"[..]), Err(ParseError::UnexpectedByte));
    assert_eq!(BValue::from_bytes(&b"ld1:ai99999999999999999999eee"[..]), Err(ParseError::MalformedNumber));
}

#[test]
fn nested_lists() {
    let inner = BValue::BList(vec![BValue::BNumber(1), BValue::BNumber(2)]);
    let expected = BValue::BList(vec![inner, bytes("x"), BValue::BList(vec![bytes("")])]);
    assert_eq!(BValue::from_bytes(&b"lli1ei2ee1:xl0:eeZ"[..]), Ok((&b"Z"[..], expected)));
}

#[test]
fn dictionary_failures() {
    assert_eq!(BValue::from_bytes(&b"d3:cow"[..]), Err(ParseError::TruncatedInput));
    assert_eq!(BValue::from_bytes(&b"d3:cow3:moo"[..]), Err(ParseError::TruncatedInput));
    assert_eq!(BValue::from_bytes(&b"d3:co"[..]), Err(ParseError::TruncatedInput));
    assert_eq!(BValue::from_bytes(&b"di1e3:mooe"[..]), Err(ParseError::UnexpectedByte));
    assert_eq!(BValue::from_bytes(&b"d3:cowe"[..]), Err(ParseError::UnexpectedByte));
    assert_eq!(BValue::from_bytes(&b"d3:cowiee"[..]), Err(ParseError::MalformedNumber));
    assert_eq!(BValue::from_bytes(&b"d3:cow3:mooi1ee"[..]), Err(ParseError::UnexpectedByte));
    assert_eq!(BValue::from_bytes(&b"d3x:cow3:mooe"[..]), Err(ParseError::MalformedNumber));
}

#[test]
fn dictionary_later_value_replaces_earlier() {
    let (rest, value) = BValue::from_bytes(&b"d1:ai1e1:bi2e1:ai3ee"[..]).unwrap();
    assert_eq!(rest, &b""[..]);
    let entries = value.get_dict().unwrap();
    assert_eq!(entries.len(), 2);
    assert_eq!(entries.get(b"a"), Some(&BValue::BNumber(3)));
    assert_eq!(entries.get(b"b"), Some(&BValue::BNumber(2)));
    assert_eq!(entries.get(b"c"), None);
}

#[test]
fn dictionary_does_not_depend_on_the_order_of_its_pairs() {
    let forward = BValue::from_bytes(&b"d3:cow3:moo4:spam4:eggse"[..]).unwrap().1;
    let backward = BValue::from_bytes(&b"d4:spam4:eggs3:cow3:mooe"[..]).unwrap().1;
    assert_eq!(forward, backward);
    let other = BValue::from_bytes(&b"d3:cow3:moo4:spam3:egge"[..]).unwrap().1;
    assert_ne!(forward, other);
}

#[test]
fn dictionary_keys_need_not_be_text() {
    let (rest, value) = BValue::from_bytes(&[b'd', b'2', b':', 0xff, 0xfe, b'i', b'1', b'e', b'e'][..]).unwrap();
    assert_eq!(rest, &b""[..]);
    assert_eq!(value.get_dict().unwrap().get(&[0xff, 0xfe]), Some(&BValue::BNumber(1)));
}

#[test]
fn dictionary_with_nested_values() {
    let (rest, value) = BValue::from_bytes(&b"d4:listli1ei2ee4:dictd1:k1:vee!"[..]).unwrap();
    assert_eq!(rest, &b"!"[..]);
    let entries = value.get_dict().unwrap();
    assert_eq!(
        entries.get(b"list"),
        Some(&BValue::BList(vec![BValue::BNumber(1), BValue::BNumber(2)]))
    );
    let inner = entries.get(b"dict").unwrap().get_dict().unwrap();
    assert_eq!(inner.get(b"k"), Some(&bytes("v")));
    assert_eq!(inner.len(), 1);
}

#[test]
fn canonical_encodings_decode_to_their_values() {
    let mut entries = Dict::new();
    entries.insert(b"spam".to_vec(), BValue::BList(vec![bytes("a"), bytes("b")]));
    entries.insert(b"n".to_vec(), BValue::BNumber(-17));
    let value = BValue::BList(vec![BValue::BNumber(0), bytes("Hello World!"), BValue::BDict(entries)]);
    assert_eq!(
        BValue::from_bytes(&b"li0e12:Hello World!d1:ni-17e4:spaml1:a1:beee"[..]),
        Ok((&b""[..], value))
    );
}

#[test]
fn getters_give_the_payload_of_their_variant() {
    let number = BValue::BNumber(7);
    assert_eq!(number.get_number(), Some(&7));
    assert_eq!(number.get_bytes(), None);
    assert_eq!(number.get_list(), None);
    assert_eq!(number.get_dict(), None);
    assert_eq!(number.get_string(), None);

    let text = bytes("spam");
    assert_eq!(text.get_number(), None);
    assert_eq!(text.get_bytes(), Some(&b"spam".to_vec()));
    assert_eq!(text.get_string(), Some(Ok("spam")));
    assert_eq!(text.get_list(), None);
    assert_eq!(text.get_dict(), None);

    let list = BValue::BList(vec![BValue::BNumber(1)]);
    assert_eq!(list.get_list(), Some(&vec![BValue::BNumber(1)]));
    assert_eq!(list.get_number(), None);
    assert_eq!(list.get_string(), None);

    let mut entries = Dict::new();
    entries.insert(b"k".to_vec(), BValue::BNumber(1));
    let dict = BValue::BDict(entries);
    assert_eq!(dict.get_dict().unwrap().get(b"k"), Some(&BValue::BNumber(1)));
    assert_eq!(dict.get_list(), None);
    assert_eq!(dict.get_bytes(), None);
}

#[test]
fn get_string_fails_on_bytes_that_are_not_text() {
    assert_eq!(BValue::BBytes(vec![0xff, 0xfe]).get_string(), Some(Err(ParseError::InvalidUtf8)));
    assert_eq!(BValue::BBytes(vec![0xc3]).get_string(), Some(Err(ParseError::InvalidUtf8)));
    assert_eq!(BValue::BBytes(vec![0xed, 0xa0, 0x80]).get_string(), Some(Err(ParseError::InvalidUtf8)));
    assert_eq!(BValue::BBytes(vec![0xc3, 0xa9]).get_string(), Some(Ok("\u{e9}")));
    assert_eq!(BValue::BBytes(Vec::new()).get_string(), Some(Ok("")));
    let decoded = BValue::from_bytes(&b"12:Hello World!"[..]).unwrap().1;
    assert_eq!(decoded.get_string(), Some(Ok("Hello World!")));
}
