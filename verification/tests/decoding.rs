use bencode::{parse_bencode, BencodeError, ByteReader, IntErrorKind, Value};

fn text(s: &str) -> Value {
    Value::Str(s.as_bytes().to_vec())
}

fn decode(input: &[u8]) -> Result<Option<Value>, BencodeError> {
    let mut reader = ByteReader::new(input);
    parse_bencode(&mut reader)
}

fn error_text(result: Result<Option<Value>, BencodeError>) -> String {
    match result {
        Err(BencodeError::Error(text)) => text,
        other => panic!("expected a structural error, got {:?}", other),
    }
}

fn parse_kind(result: Result<Option<Value>, BencodeError>) -> IntErrorKind {
    match result {
        Err(BencodeError::Parse(kind)) => kind,
        other => panic!("expected a parse error, got {:?}", other),
    }
}

#[test]
fn nested_map_decodes() {
    let inner = Value::Dict(vec![(text("bar"), text("baz"))]);
    let outer = Value::Dict(vec![(text("foo"), inner)]);
    assert_eq!(decode(b"d3:food3:bar3:bazee").unwrap().unwrap(), outer);
}

#[test]
fn key_without_value_is_an_error() {
    assert_eq!(error_text(decode(b"d3:fooe")), "Map is missing value for key");
}

#[test]
fn key_without_value_inside_a_list_is_an_error() {
    assert_eq!(error_text(decode(b"ld1:aee")), "Map is missing value for key");
}

#[test]
fn truncated_string_is_eof() {
    assert!(matches!(decode(b"5:ab"), Err(BencodeError::Eof())));
}

#[test]
fn string_with_exactly_enough_bytes_is_read() {
    assert_eq!(decode(b"2:ab").unwrap().unwrap(), text("ab"));
}

#[test]
fn invalid_lead_byte_is_an_error() {
    assert_eq!(error_text(decode(b"x")), "invalid character: '120'");
}

#[test]
fn invalid_lead_byte_is_named_by_its_number() {
    assert_eq!(error_text(decode(b"\x00")), "invalid character: '0'");
    assert_eq!(error_text(decode(b"\xff")), "invalid character: '255'");
    assert_eq!(error_text(decode(b"+")), "invalid character: '43'");
}

#[test]
fn empty_input_is_eof() {
    assert!(matches!(decode(b""), Err(BencodeError::Eof())));
}

#[test]
fn closing_byte_alone_is_the_end_signal() {
    assert!(matches!(decode(b"e"), Ok(None)));
}

#[test]
fn unterminated_containers_are_eof() {
    assert!(matches!(decode(b"l"), Err(BencodeError::Eof())));
    assert!(matches!(decode(b"li1e"), Err(BencodeError::Eof())));
    assert!(matches!(decode(b"d"), Err(BencodeError::Eof())));
    assert!(matches!(decode(b"d1:a"), Err(BencodeError::Eof())));
    assert!(matches!(decode(b"d1:ai1e"), Err(BencodeError::Eof())));
}

#[test]
fn unterminated_integer_is_eof() {
    assert!(matches!(decode(b"i"), Err(BencodeError::Eof())));
    assert!(matches!(decode(b"i12"), Err(BencodeError::Eof())));
}

#[test]
fn length_without_colon_is_eof() {
    assert!(matches!(decode(b"3"), Err(BencodeError::Eof())));
    assert!(matches!(decode(b"12"), Err(BencodeError::Eof())));
    assert!(matches!(decode(b"0"), Err(BencodeError::Eof())));
}

#[test]
fn integer_literals_are_checked() {
    assert_eq!(parse_kind(decode(b"ie")), IntErrorKind::Empty);
    assert_eq!(parse_kind(decode(b"i-e")), IntErrorKind::InvalidDigit);
    assert_eq!(parse_kind(decode(b"i1x2e")), IntErrorKind::InvalidDigit);
    assert_eq!(parse_kind(decode(b"i--1e")), IntErrorKind::InvalidDigit);
    assert_eq!(parse_kind(decode(b"i1-e")), IntErrorKind::InvalidDigit);
    assert_eq!(parse_kind(decode(b"i+5e")), IntErrorKind::InvalidDigit);
    assert_eq!(parse_kind(decode(b"i 5e")), IntErrorKind::InvalidDigit);
    assert_eq!(parse_kind(decode(b"i2147483648e")), IntErrorKind::PosOverflow);
    assert_eq!(parse_kind(decode(b"i99999999999999999999999999e")), IntErrorKind::PosOverflow);
    assert_eq!(parse_kind(decode(b"i-2147483649e")), IntErrorKind::NegOverflow);
}

#[test]
fn integer_limits_decode() {
    assert_eq!(decode(b"i2147483647e").unwrap().unwrap(), Value::Int(i32::MAX));
    assert_eq!(decode(b"i-2147483648e").unwrap().unwrap(), Value::Int(i32::MIN));
    assert_eq!(decode(b"i0e").unwrap().unwrap(), Value::Int(0));
}

#[test]
fn leading_zeros_and_negative_zero_are_accepted() {
    assert_eq!(decode(b"i007e").unwrap().unwrap(), Value::Int(7));
    assert_eq!(decode(b"i-0e").unwrap().unwrap(), Value::Int(0));
    assert_eq!(decode(b"i0000000000000000000000001e").unwrap().unwrap(), Value::Int(1));
    assert_eq!(decode(b"03:abc").unwrap().unwrap(), text(""));
}

#[test]
fn string_lengths_are_checked() {
    assert_eq!(parse_kind(decode(b"3x:abc")), IntErrorKind::InvalidDigit);
    assert_eq!(parse_kind(decode(b"1-:a")), IntErrorKind::InvalidDigit);
    assert_eq!(
        parse_kind(decode(b"99999999999999999999999999999999:a")),
        IntErrorKind::PosOverflow
    );
}

#[test]
fn huge_declared_length_is_eof_without_reading() {
    assert!(matches!(decode(b"4000000000:abc"), Err(BencodeError::Eof())));
}

#[test]
fn zero_lead_skips_to_the_colon() {
    let input = b"0123:abc";
    let mut reader = ByteReader::new(input);
    assert_eq!(parse_bencode(&mut reader).unwrap().unwrap(), text(""));
    assert_eq!(reader.position(), 5);
}

#[test]
fn string_may_hold_delimiters_and_any_bytes() {
    assert_eq!(decode(b"4:e:ie").unwrap().unwrap(), text("e:ie"));
    assert_eq!(
        decode(b"3:\xff\x00\xfe").unwrap().unwrap(),
        Value::Str(vec![0xff, 0x00, 0xfe])
    );
}

#[test]
fn reader_stands_after_the_value() {
    let input = b"i1ei22e3:abcle";
    let mut reader = ByteReader::new(input);
    assert_eq!(parse_bencode(&mut reader).unwrap().unwrap(), Value::Int(1));
    assert_eq!(reader.position(), 3);
    assert_eq!(parse_bencode(&mut reader).unwrap().unwrap(), Value::Int(22));
    assert_eq!(reader.position(), 7);
    assert_eq!(parse_bencode(&mut reader).unwrap().unwrap(), text("abc"));
    assert_eq!(reader.position(), 12);
    assert_eq!(parse_bencode(&mut reader).unwrap().unwrap(), Value::List(vec![]));
    assert_eq!(reader.position(), 14);
    assert_eq!(reader.remaining(), 0);
    assert!(matches!(parse_bencode(&mut reader), Err(BencodeError::Eof())));
    assert_eq!(reader.position(), 14);
}

#[test]
fn reader_position_after_errors() {
    let mut reader = ByteReader::new(b"xyz");
    assert!(parse_bencode(&mut reader).is_err());
    assert_eq!(reader.position(), 1);

    let mut reader = ByteReader::new(b"i1x2eabc");
    assert!(parse_bencode(&mut reader).is_err());
    assert_eq!(reader.position(), 5);

    let mut reader = ByteReader::new(b"d3:fooeabc");
    assert!(parse_bencode(&mut reader).is_err());
    assert_eq!(reader.position(), 7);

    let mut reader = ByteReader::new(b"5:ab");
    assert!(parse_bencode(&mut reader).is_err());
    assert_eq!(reader.position(), 4);
}

#[test]
fn repeated_key_keeps_the_last_value() {
    let decoded = decode(b"d1:ai1e1:bi2e1:ai3ee").unwrap().unwrap();
    let expected = Value::Dict(vec![(text("a"), Value::Int(3)), (text("b"), Value::Int(2))]);
    assert_eq!(decoded, expected);
    match decoded {
        Value::Dict(entries) => {
            assert_eq!(entries.len(), 2);
            assert_eq!(entries[0].0, text("a"));
            assert_eq!(entries[0].1, Value::Int(3));
        }
        other => panic!("expected a map, got {:?}", other),
    }
}

#[test]
fn keys_may_be_any_value() {
    let decoded = decode(b"di1e3:onelei0ede1:xe").unwrap().unwrap();
    let expected = Value::Dict(vec![
        (Value::Int(1), text("one")),
        (Value::List(vec![]), Value::Int(0)),
        (Value::Dict(vec![]), text("x")),
    ]);
    assert_eq!(decoded, expected);
}

#[test]
fn maps_equal_as_keys_count_once() {
    let decoded = decode(b"dd1:ai1e1:bi2eei1ed1:bi2e1:ai1eei2ee").unwrap().unwrap();
    match decoded {
        Value::Dict(entries) => {
            assert_eq!(entries.len(), 1);
            assert_eq!(entries[0].1, Value::Int(2));
        }
        other => panic!("expected a map, got {:?}", other),
    }
}

#[test]
fn deeply_nested_lists_decode() {
    let mut input = Vec::new();
    let mut expected = Value::List(vec![]);
    for _ in 0..50 {
        input.push(b'l');
    }
    for _ in 0..50 {
        input.push(b'e');
    }
    for _ in 0..49 {
        expected = Value::List(vec![expected]);
    }
    assert_eq!(decode(&input).unwrap().unwrap(), expected);
}

#[test]
fn more_input_does_not_change_a_settled_outcome() {
    let inputs: Vec<&[u8]> = vec![
        b"i1e",
        b"3:foo",
        b"0:",
        b"li1e3:fooe",
        b"d3:bar3:baze",
        b"e",
        b"x",
        b"i1x2e",
        b"d3:fooe",
        b"3x:abc",
    ];
    for input in inputs {
        let mut short = ByteReader::new(input);
        let outcome = parse_bencode(&mut short);
        let mut longer_input = input.to_vec();
        longer_input.extend_from_slice(b"i5e3:xyz");
        let mut long = ByteReader::new(&longer_input);
        let again = parse_bencode(&mut long);
        assert_eq!(short.position(), long.position());
        match (outcome, again) {
            (Ok(a), Ok(b)) => assert_eq!(a, b),
            (Err(a), Err(b)) => assert_eq!(a.message(), b.message()),
            (a, b) => panic!("{:?} became {:?}", a, b),
        }
    }
}
