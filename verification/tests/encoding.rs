use bencode::{parse_bencode, ByteReader, Value};

fn text(s: &str) -> Value {
    Value::Str(s.as_bytes().to_vec())
}

fn roundtrip(value: &Value) -> Value {
    let bytes = value.to_bencode();
    let mut reader = ByteReader::new(&bytes);
    let back = parse_bencode(&mut reader).unwrap().unwrap();
    assert_eq!(reader.position(), bytes.len());
    back
}

#[test]
fn canonical_encoding_literals() {
    assert_eq!(Value::Int(1).to_bencode(), b"i1e");
    assert_eq!(Value::Int(-999).to_bencode(), b"i-999e");
    assert_eq!(text("foo").to_bencode(), b"3:foo");
    assert_eq!(text("").to_bencode(), b"0:");
    assert_eq!(
        Value::List(vec![Value::Int(1), Value::Int(2), Value::Int(3)]).to_bencode(),
        b"li1ei2ei3ee"
    );
    assert_eq!(Value::Dict(vec![(text("bar"), text("baz"))]).to_bencode(), b"d3:bar3:baze");
}

#[test]
fn integer_limits_encode() {
    assert_eq!(Value::Int(0).to_bencode(), b"i0e");
    assert_eq!(Value::Int(i32::MAX).to_bencode(), b"i2147483647e");
    assert_eq!(Value::Int(i32::MIN).to_bencode(), b"i-2147483648e");
    assert_eq!(Value::Int(10).to_bencode(), b"i10e");
    assert_eq!(Value::Int(-10).to_bencode(), b"i-10e");
}

#[test]
fn empty_containers_encode() {
    assert_eq!(Value::List(vec![]).to_bencode(), b"le");
    assert_eq!(Value::Dict(vec![]).to_bencode(), b"de");
}

#[test]
fn map_entries_encode_in_stored_order() {
    let map = Value::Dict(vec![(text("b"), Value::Int(2)), (text("a"), Value::Int(1))]);
    assert_eq!(map.to_bencode(), b"d1:bi2e1:ai1ee");
}

#[test]
fn long_string_length_is_decimal() {
    let value = Value::Str(vec![b'x'; 1234]);
    let bytes = value.to_bencode();
    assert_eq!(&bytes[..5], b"1234:");
    assert_eq!(bytes.len(), 5 + 1234);
}

#[test]
fn encode_into_appends() {
    let mut out = b"abc".to_vec();
    Value::Int(7).encode_into(&mut out);
    text("hi").encode_into(&mut out);
    assert_eq!(out, b"abci7e2:hi");
}

#[test]
fn integers_round_trip() {
    for n in [0, 1, -1, 9, 10, -10, 99, 100, 12345, -999, i32::MAX, i32::MIN, i32::MAX - 1] {
        assert_eq!(roundtrip(&Value::Int(n)), Value::Int(n));
    }
}

#[test]
fn strings_round_trip() {
    let samples: Vec<Vec<u8>> = vec![
        vec![],
        b"foo".to_vec(),
        b"e".to_vec(),
        b":".to_vec(),
        b"i1e".to_vec(),
        b"0:".to_vec(),
        vec![0],
        vec![0xff, 0xfe, 0x80],
        vec![0xc3, 0x28],
        (0..=255).collect(),
        vec![b'a'; 10],
        vec![b'z'; 100],
        "grüße".as_bytes().to_vec(),
    ];
    for bytes in samples {
        assert_eq!(roundtrip(&Value::Str(bytes.clone())), Value::Str(bytes));
    }
}

#[test]
fn containers_round_trip() {
    let inner = Value::Dict(vec![
        (text("k"), Value::List(vec![Value::Int(1), text("two"), Value::List(vec![])])),
        (Value::Int(5), Value::Dict(vec![])),
    ]);
    let value = Value::List(vec![
        Value::Int(-3),
        inner.clone(),
        Value::Dict(vec![(inner, Value::Str(vec![0xff]))]),
        text(""),
    ]);
    let back = roundtrip(&value);
    assert_eq!(back, value);
    assert_eq!(back.to_bencode(), value.to_bencode());
}

#[test]
fn round_trip_keeps_the_order_of_entries() {
    let value = Value::Dict(vec![
        (text("zz"), Value::Int(1)),
        (text("aa"), Value::Int(2)),
        (text("mm"), Value::Int(3)),
    ]);
    match roundtrip(&value) {
        Value::Dict(entries) => {
            assert_eq!(entries[0].0, text("zz"));
            assert_eq!(entries[1].0, text("aa"));
            assert_eq!(entries[2].0, text("mm"));
        }
        other => panic!("expected a map, got {:?}", other),
    }
}
