use bencode::dict::{position_of, store};
use bencode::{BencodeError, IntErrorKind, Value};

fn text(s: &str) -> Value {
    Value::Str(s.as_bytes().to_vec())
}

#[test]
fn equality_of_integers_and_strings() {
    assert_eq!(Value::Int(3), Value::Int(3));
    assert_ne!(Value::Int(3), Value::Int(4));
    assert_eq!(text("a"), text("a"));
    assert_ne!(text("a"), text("b"));
    assert_ne!(text("a"), text("ab"));
    assert_ne!(text("1"), Value::Int(1));
    assert_ne!(Value::List(vec![]), Value::Dict(vec![]));
    assert_eq!(Value::Str(vec![0xff]), Value::Str(vec![0xff]));
}

#[test]
fn lists_compare_in_order() {
    let a = Value::List(vec![Value::Int(1), Value::Int(2)]);
    let b = Value::List(vec![Value::Int(2), Value::Int(1)]);
    let c = Value::List(vec![Value::Int(1), Value::Int(2)]);
    let d = Value::List(vec![Value::Int(1)]);
    assert_ne!(a, b);
    assert_eq!(a, c);
    assert_ne!(a, d);
    assert_ne!(d, a);
}

#[test]
fn maps_compare_whatever_the_order() {
    let a = Value::Dict(vec![(text("x"), Value::Int(1)), (text("y"), Value::Int(2))]);
    let b = Value::Dict(vec![(text("y"), Value::Int(2)), (text("x"), Value::Int(1))]);
    let c = Value::Dict(vec![(text("x"), Value::Int(1)), (text("y"), Value::Int(3))]);
    let d = Value::Dict(vec![(text("x"), Value::Int(1))]);
    assert_eq!(a, b);
    assert_eq!(b, a);
    assert_ne!(a, c);
    assert_ne!(a, d);
    assert_ne!(d, a);
    assert!(a.same_as(&b));
    assert!(!a.same_as(&c));
}

#[test]
fn nested_maps_compare_whatever_the_order() {
    let inner1 = Value::Dict(vec![(Value::Int(1), text("a")), (Value::Int(2), text("b"))]);
    let inner2 = Value::Dict(vec![(Value::Int(2), text("b")), (Value::Int(1), text("a"))]);
    let a = Value::Dict(vec![(inner1.clone(), Value::List(vec![inner2.clone()]))]);
    let b = Value::Dict(vec![(inner2, Value::List(vec![inner1]))]);
    assert_eq!(a, b);
}

#[test]
fn equality_is_an_equivalence_on_samples() {
    let samples = vec![
        Value::Int(0),
        Value::Int(1),
        text(""),
        text("a"),
        Value::List(vec![]),
        Value::List(vec![Value::Int(1)]),
        Value::Dict(vec![]),
        Value::Dict(vec![(text("a"), Value::Int(1)), (text("b"), Value::Int(2))]),
        Value::Dict(vec![(text("b"), Value::Int(2)), (text("a"), Value::Int(1))]),
    ];
    for a in &samples {
        assert!(a == a);
        for b in &samples {
            assert_eq!(a == b, b == a);
            for c in &samples {
                if a == b && b == c {
                    assert!(a == c);
                }
            }
        }
    }
}

#[test]
fn clone_is_equal() {
    let value = Value::Dict(vec![
        (text("k"), Value::List(vec![Value::Int(1), text("two")])),
        (Value::Int(5), Value::Str(vec![0xff, 0])),
    ]);
    let copy = value.clone();
    assert_eq!(copy, value);
    assert_eq!(copy.to_bencode(), value.to_bencode());
}

#[test]
fn hash_code_ignores_the_order_of_entries() {
    let a = Value::Dict(vec![
        (text("x"), Value::Int(1)),
        (text("y"), Value::List(vec![Value::Int(2)])),
        (Value::Int(3), text("z")),
    ]);
    let b = Value::Dict(vec![
        (Value::Int(3), text("z")),
        (text("x"), Value::Int(1)),
        (text("y"), Value::List(vec![Value::Int(2)])),
    ]);
    assert_eq!(a, b);
    assert_eq!(a.hash_code(), b.hash_code());
    let outer_a = Value::List(vec![a.clone(), Value::Dict(vec![(a, text("v"))])]);
    let outer_b = Value::List(vec![b.clone(), Value::Dict(vec![(b, text("v"))])]);
    assert_eq!(outer_a.hash_code(), outer_b.hash_code());
}

#[test]
fn hash_code_is_repeatable_and_tells_values_apart() {
    assert_eq!(Value::Int(7).hash_code(), Value::Int(7).hash_code());
    assert_eq!(text("abc").hash_code(), text("abc").hash_code());
    assert_ne!(Value::Int(7).hash_code(), Value::Int(8).hash_code());
    assert_ne!(Value::Int(1).hash_code(), text("1").hash_code());
    assert_ne!(Value::List(vec![]).hash_code(), Value::Dict(vec![]).hash_code());
    assert_ne!(
        Value::List(vec![Value::Int(1), Value::Int(2)]).hash_code(),
        Value::List(vec![Value::Int(2), Value::Int(1)]).hash_code()
    );
}

#[test]
fn store_replaces_the_value_of_a_key() {
    let mut entries = Vec::new();
    store(&mut entries, text("a"), Value::Int(1));
    store(&mut entries, text("b"), Value::Int(2));
    store(&mut entries, text("a"), Value::Int(3));
    assert_eq!(entries.len(), 2);
    assert_eq!(entries[0], (text("a"), Value::Int(3)));
    assert_eq!(entries[1], (text("b"), Value::Int(2)));
    assert_eq!(position_of(&entries, &text("b")), Some(1));
    assert_eq!(position_of(&entries, &text("c")), None);
}

#[test]
fn dict_from_keeps_each_key_once() {
    let map = Value::dict_from(vec![
        (text("a"), Value::Int(1)),
        (text("b"), Value::Int(2)),
        (text("a"), Value::Int(3)),
    ]);
    assert_eq!(map.to_bencode(), b"d1:ai3e1:bi2ee");
    let same: Value = vec![(text("b"), Value::Int(2)), (text("a"), Value::Int(3))].into();
    assert_eq!(map, same);
}

#[test]
fn values_from_text() {
    assert_eq!(Value::from("foo"), text("foo"));
    assert_eq!(Value::from_text(""), text(""));
    assert_eq!(Value::from("grüße").to_bencode(), "7:grüße".as_bytes());
    let into: Value = "bar".into();
    assert_eq!(into, text("bar"));
}

#[test]
fn maps_from_text_pairs() {
    let map = Value::from(vec![("op", "eval"), ("code", "(+ 1 2)\n"), ("op", "load")]);
    assert_eq!(map.to_bencode(), b"d2:op4:load4:code8:(+ 1 2)\ne");
    assert_eq!(Value::from_text_pairs(vec![]), Value::Dict(vec![]));
}

#[test]
fn rendering() {
    assert_eq!(Value::Int(-12).render_text(), "-12");
    assert_eq!(Value::Int(0).render_text(), "0");
    assert_eq!(text("foo bar").render_text(), "foo bar");
    assert_eq!(Value::List(vec![]).render_text(), "[]");
    assert_eq!(Value::Dict(vec![]).render_text(), "{}");
    assert_eq!(
        Value::List(vec![Value::Int(1), text("foo"), Value::Int(3)]).render_text(),
        "[1, foo, 3]"
    );
    assert_eq!(Value::Dict(vec![(text("bar"), text("baz"))]).render_text(), "{bar baz}");
    assert_eq!(
        Value::Dict(vec![
            (text("a"), Value::List(vec![Value::Int(1), Value::Int(2)])),
            (text("b"), Value::Dict(vec![(Value::Int(1), text("x"))])),
        ])
        .render_text(),
        "{a [1, 2] b {1 x}}"
    );
    assert_eq!(text("grüße").render_text(), "grüße");
}

#[test]
fn rendering_of_bytes_that_are_no_text() {
    assert_eq!(Value::Str(vec![b'a', 0xff, b'b']).render_text(), "a\u{fffd}b");
    assert_eq!(Value::Str(vec![b'a', 0xff, b'b']).render_bytes(), vec![b'a', 0xff, b'b']);
}

#[test]
fn map_of_texts() {
    let map = Value::Dict(vec![
        (text("name"), text("x")),
        (text("size"), Value::Int(12)),
        (Value::Int(7), Value::List(vec![Value::Int(1), Value::Int(2)])),
    ]);
    let pairs = map.try_into_text_map().unwrap();
    assert_eq!(
        pairs,
        vec![
            ("name".to_string(), "x".to_string()),
            ("size".to_string(), "12".to_string()),
            ("7".to_string(), "[1, 2]".to_string()),
        ]
    );
}

#[test]
fn map_of_texts_keeps_each_key_once() {
    let map = Value::Dict(vec![
        (Value::Int(1), text("number")),
        (text("k"), text("v")),
        (text("1"), text("string")),
    ]);
    let pairs = map.try_into_text_map().unwrap();
    assert_eq!(
        pairs,
        vec![("1".to_string(), "string".to_string()), ("k".to_string(), "v".to_string())]
    );
}

#[test]
fn map_of_texts_of_what_is_no_map() {
    for value in [Value::Int(1), text("x"), Value::List(vec![])] {
        match value.try_into_text_map() {
            Err(BencodeError::Error(text)) => assert_eq!(text, "Expected HashMap Value"),
            other => panic!("expected an error, got {:?}", other),
        }
    }
}

#[test]
fn map_of_texts_of_what_is_no_text() {
    let in_value = Value::Dict(vec![(text("k"), Value::Str(vec![0xff]))]);
    let in_key = Value::Dict(vec![(Value::Str(vec![0xc3, 0x28]), text("v"))]);
    let nested = Value::Dict(vec![(text("k"), Value::List(vec![Value::Str(vec![0x80])]))]);
    for value in [in_value, in_key, nested] {
        match value.try_into_text_map() {
            Err(BencodeError::Error(text)) => assert_eq!(text, "Expected UTF-8 Value"),
            other => panic!("expected an error, got {:?}", other),
        }
    }
}

#[test]
fn messages_of_errors() {
    assert_eq!(BencodeError::Eof().message(), "Bencode Eof");
    assert_eq!(BencodeError::Error("boom".to_string()).message(), "Bencode Error: boom ");
    assert_eq!(BencodeError::Io("broken pipe".to_string()).message(), "Bencode Io: broken pipe");
    assert_eq!(
        BencodeError::Parse(IntErrorKind::Empty).message(),
        "Bencode Parse: cannot parse integer from empty string"
    );
    assert_eq!(
        BencodeError::Parse(IntErrorKind::InvalidDigit).message(),
        "Bencode Parse: invalid digit found in string"
    );
    assert_eq!(
        BencodeError::Parse(IntErrorKind::PosOverflow).message(),
        "Bencode Parse: number too large to fit in target type"
    );
    assert_eq!(
        BencodeError::Parse(IntErrorKind::NegOverflow).message(),
        "Bencode Parse: number too small to fit in target type"
    );
    assert_eq!(
        BencodeError::missing_value().message(),
        "Bencode Error: Map is missing value for key "
    );
    assert_eq!(BencodeError::invalid_lead(7).message(), "Bencode Error: invalid character: '7' ");
    assert_eq!(BencodeError::expected_map().message(), "Bencode Error: Expected HashMap Value ");
    assert_eq!(BencodeError::expected_text().message(), "Bencode Error: Expected UTF-8 Value ");
}
