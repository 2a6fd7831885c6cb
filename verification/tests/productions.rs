use torcode::bencode::{parse_bytes, parse_dict, parse_length, parse_list, parse_number};
use torcode::{BValue, ParseError};

#[test]
fn number_production() {
    assert_eq!(parse_number(b"i42e-"), Ok((&b"-"[..], 42)));
    assert_eq!(parse_number(b"i-1e"), Ok((&b""[..], -1)));
    assert_eq!(parse_number(b""), Err(ParseError::TruncatedInput));
    assert_eq!(parse_number(b"42e"), Err(ParseError::UnexpectedByte));
    assert_eq!(parse_number(b"l"), Err(ParseError::UnexpectedByte));
    assert_eq!(parse_number(b"ie"), Err(ParseError::MalformedNumber));
    assert_eq!(parse_number(b"i4"), Err(ParseError::TruncatedInput));
}

#[test]
fn length_production() {
    assert_eq!(parse_length(b"12:Hello World!"), Ok((&b"Hello World!"[..], 12)));
    assert_eq!(parse_length(b"0:"), Ok((&b""[..], 0)));
    assert_eq!(parse_length(b"5:ab"), Ok((&b"ab"[..], 5)));
    assert_eq!(parse_length(b""), Err(ParseError::TruncatedInput));
    assert_eq!(parse_length(b":"), Err(ParseError::UnexpectedByte));
    assert_eq!(parse_length(b"-1:"), Err(ParseError::UnexpectedByte));
    assert_eq!(parse_length(b"12"), Err(ParseError::TruncatedInput));
    assert_eq!(parse_length(b"12;"), Err(ParseError::MalformedNumber));
}

#[test]
fn bytes_production() {
    assert_eq!(parse_bytes(b"4:spam4:eggs"), Ok((&b"4:eggs"[..], b"spam".to_vec())));
    assert_eq!(parse_bytes(b"4:spa"), Err(ParseError::TruncatedInput));
    assert_eq!(parse_bytes(b"i1e"), Err(ParseError::UnexpectedByte));
}

#[test]
fn list_production() {
    assert_eq!(
        parse_list(b"li1ei2ee."),
        Ok((&b"."[..], vec![BValue::BNumber(1), BValue::BNumber(2)]))
    );
    assert_eq!(parse_list(b""), Err(ParseError::TruncatedInput));
    assert_eq!(parse_list(b"i1e"), Err(ParseError::UnexpectedByte));
    assert_eq!(parse_list(b"d1:ai1ee"), Err(ParseError::UnexpectedByte));
}

#[test]
fn dict_production() {
    let (rest, entries) = parse_dict(b"d1:ai1e1:bi2ee.").unwrap();
    assert_eq!(rest, &b"."[..]);
    assert_eq!(entries.len(), 2);
    assert_eq!(entries.get(b"a"), Some(&BValue::BNumber(1)));
    assert_eq!(entries.get(b"b"), Some(&BValue::BNumber(2)));
    assert_eq!(parse_dict(b"").err(), Some(ParseError::TruncatedInput));
    assert_eq!(parse_dict(b"li1ee").err(), Some(ParseError::UnexpectedByte));
}
