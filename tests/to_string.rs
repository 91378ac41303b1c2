use scale_value_text::{from_str, Primitive, UnsupportedPrimitiveError, Value};

fn assert_from_to(val: Value<()>) {
    let s = val.to_text().expect("value should have a text form");
    match from_str(&s) {
        (Err(e), _) => {
            panic!("'{s}' cannot be parsed back into the value {val:?}: {e:?}");
        }
        (Ok(new_val), rest) => {
            assert_eq!(val, new_val, "value should be the same after parsing to/from a string");
            assert_eq!(rest.len(), 0, "there should be no unparsed string but got '{rest}'");
        }
    }
}

#[test]
fn primitives() {
    assert_from_to(Value::bool(true));
    assert_from_to(Value::bool(false));

    assert_from_to(Value::char('\n'));
    assert_from_to(Value::char('😀'));
    assert_from_to(Value::char('a'));
    assert_from_to(Value::char('\0'));
    assert_from_to(Value::char('\t'));

    assert_from_to(Value::sint(-123_456));
    assert_from_to(Value::uint(0u128));
    assert_from_to(Value::uint(123456u128));

    assert_from_to(Value::string("hello \"you\",\n\n\t How are you??"));
    assert_from_to(Value::string(""));
}

#[test]
fn composites() {
    assert_from_to(Value::named_composite(vec![
        ("foo".into(), Value::uint(12345u128)),
        ("bar".into(), Value::bool(true)),
        ("a \"weird\" name".into(), Value::string("Woop!")),
    ]));
    assert_from_to(Value::unnamed_composite(vec![
        Value::uint(12345u128),
        Value::bool(true),
        Value::string("Woop!"),
    ]));
}

#[test]
fn variants() {
    assert_from_to(Value::named_variant(
        "A weird variant name",
        vec![
            ("foo".into(), Value::uint(12345u128)),
            ("bar".into(), Value::bool(true)),
            ("a \"weird\" name".into(), Value::string("Woop!")),
        ],
    ));
    assert_from_to(Value::unnamed_variant(
        "MyVariant",
        vec![Value::uint(12345u128), Value::bool(true), Value::string("Woop!")],
    ));
}

#[test]
fn bit_sequences() {
    assert_from_to(Value::bit_sequence(vec![false, true, true, false, true, true, false]));
    assert_from_to(Value::bit_sequence(vec![]));
}

#[test]
fn canonical_text() {
    let v = Value::named_composite(vec![
        ("a".into(), Value::uint(1)),
        ("b c".into(), Value::sint(-5)),
        ("d".into(), Value::unnamed_composite(vec![Value::bool(true), Value::char('\'')])),
    ]);
    assert_eq!(v.to_text().unwrap(), "{ a: 1, \"b c\": -5, d: (true, '\\'') }");
    assert_eq!(Value::named_composite(vec![]).to_text().unwrap(), "{  }");
    assert_eq!(Value::unnamed_composite(vec![]).to_text().unwrap(), "()");
    assert_eq!(Value::string("a\"b\\").to_text().unwrap(), "\"a\\\"b\\\\\"");
    assert_eq!(Value::sint(12).to_text().unwrap(), "12");
    assert_eq!(Value::uint(u128::MAX).to_text().unwrap(), "340282366920938463463374607431768211455");
    assert_eq!(Value::sint(i128::MIN).to_text().unwrap(), "-170141183460469231731687303715884105728");
    assert_eq!(
        Value::unnamed_variant("odd name", vec![Value::uint(7)]).to_text().unwrap(),
        "v\"odd name\"(7)"
    );
    assert_eq!(Value::named_variant("Foo_1", vec![]).to_text().unwrap(), "Foo_1{  }");
    assert_eq!(Value::named_variant("_x", vec![]).to_text().unwrap(), "v\"_x\"{  }");
    assert_eq!(
        Value::bit_sequence(vec![true, false, false]).to_text().unwrap(),
        "<100>"
    );
}

#[test]
fn wide_integers_have_no_text() {
    assert_eq!(Value::primitive(Primitive::U256([0; 32])).to_text(), Err(UnsupportedPrimitiveError));
    let nested = Value::unnamed_composite(vec![
        Value::uint(1),
        Value::primitive(Primitive::I256([1; 32])),
    ]);
    assert_eq!(nested.to_text(), Err(UnsupportedPrimitiveError));
}

#[test]
fn canonical_text_is_stable() {
    let v = Value::unnamed_variant(
        "Wrap",
        vec![
            Value::named_composite(vec![("x".into(), Value::string("tab\there"))]),
            Value::bit_sequence(vec![true]),
            Value::sint(-1),
            Value::sint(7),
            Value::unnamed_variant("falsey", vec![]),
        ],
    );
    let first = v.to_text().unwrap();
    let (parsed, _) = from_str(&first);
    let second = parsed.unwrap().to_text().unwrap();
    assert_eq!(first, second);
}

#[test]
fn non_negative_signed_reads_back_unsigned() {
    let text = Value::sint(5).to_text().unwrap();
    assert_eq!(text, "5");
    assert_eq!(from_str(&text), (Ok(Value::uint(5)), ""));
    assert_eq!(Value::uint(5).to_text().unwrap(), text);
}

#[test]
fn variant_names_that_read_as_booleans_are_quoted() {
    let v = Value::unnamed_variant("trueish", vec![]);
    assert_eq!(v.to_text().unwrap(), "v\"trueish\"()");
    assert_from_to(v);
    let v = Value::named_variant("false", vec![]);
    assert_eq!(v.to_text().unwrap(), "v\"false\"{  }");
    assert_from_to(v);
    assert_from_to(Value::unnamed_variant("true", vec![]));
    assert_eq!(Value::unnamed_variant("tru", vec![]).to_text().unwrap(), "tru()");
    assert_from_to(Value::unnamed_variant("tru", vec![]));
}
