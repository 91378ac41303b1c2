use scale_value_text::{
    from_str, ParseBitSequenceError, ParseCharError, ParseComplexError, ParseError,
    ParseErrorKind, ParseNumberError, ParseStringError, Value,
};

fn from(s: &str) -> Result<Value<()>, ParseError> {
    let (res, remaining) = from_str(s);
    if res.is_ok() {
        // all successful parse tests fully consume the input string:
        assert_eq!(remaining.len(), 0, "was not expecting any unparsed output");
    }
    res
}

fn between(kind: ParseErrorKind, start: usize, end: usize) -> ParseError {
    ParseError::new_between(kind, start, end)
}

#[test]
fn parse_bools() {
    assert_eq!(from("true"), Ok(Value::bool(true)));
    assert_eq!(from("false"), Ok(Value::bool(false)));
}

#[test]
fn parse_numbers() {
    assert_eq!(from("123"), Ok(Value::uint(123u128)));
    assert_eq!(from("1_234_56"), Ok(Value::uint(123_456_u128)));
    assert_eq!(from("+1_234_56"), Ok(Value::uint(123_456_u128)));
    assert_eq!(from("-123_4"), Ok(Value::sint(-1234)));
    assert_eq!(
        from("-abc"),
        Err(between(ParseErrorKind::Number(ParseNumberError::ExpectedDigit), 1, 2))
    );
}

#[test]
fn parse_chars() {
    assert_eq!(from("'a'"), Ok(Value::char('a')));
    assert_eq!(from("'😀'"), Ok(Value::char('😀')));
    assert_eq!(from("'\\n'"), Ok(Value::char('\n')));
    assert_eq!(from("'\\t'"), Ok(Value::char('\t')));
    assert_eq!(from("'\\\"'"), Ok(Value::char('"')));
    assert_eq!(from("'\\''"), Ok(Value::char('\'')));
    assert_eq!(from("'\\r'"), Ok(Value::char('\r')));
    assert_eq!(from("'\\\\'"), Ok(Value::char('\\')));
    assert_eq!(from("'\\0'"), Ok(Value::char('\0')));
    assert_eq!(
        from("'a"),
        Err(between(ParseErrorKind::Char(ParseCharError::ExpectedClosingQuoteToMatch(0)), 2, 3))
    );
}

#[test]
fn parse_strings() {
    assert_eq!(from("\"\\n \\r \\t \\0 \\\"\""), Ok(Value::string("\n \r \t \0 \"")));
    assert_eq!(from("\"Hello there 😀\""), Ok(Value::string("Hello there 😀")));
    assert_eq!(from("\"Hello\\n\\t there\""), Ok(Value::string("Hello\n\t there")));
    assert_eq!(from("\"Hello\\\\ there\""), Ok(Value::string("Hello\\ there")));
    assert_eq!(
        from("\"Hello\\p there\""),
        Err(between(ParseErrorKind::String(ParseStringError::ExpectedValidEscapeCode), 7, 8))
    );
    assert_eq!(
        from("\"Hi"),
        Err(between(ParseErrorKind::String(ParseStringError::ExpectedClosingQuoteToMatch(0)), 3, 4))
    );
}

#[test]
fn parse_unnamed_composites() {
    assert_eq!(
        from("(  true, 1234 ,\t\n\t \"Hello!\" )"),
        Ok(Value::unnamed_composite(vec![
            Value::bool(true),
            Value::uint(1234u128),
            Value::string("Hello!")
        ]))
    );
    assert_eq!(from("()"), Ok(Value::unnamed_composite(vec![])));
    assert_eq!(from("(\n\n\t\t\n)"), Ok(Value::unnamed_composite(vec![])));
}

#[test]
fn parse_named_composites() {
    assert_eq!(
        from(
            "{
            hello: true,
            foo: 1234,
            \"Hello there 😀\": \"Hello!\"
        }"
        ),
        Ok(Value::named_composite(vec![
            ("hello".into(), Value::bool(true)),
            ("foo".into(), Value::uint(1234u128)),
            ("Hello there 😀".into(), Value::string("Hello!"))
        ]))
    );
}

#[test]
fn parse_variants() {
    assert_eq!(
        from(
            "MyVariant {
            hello: true,
            foo: 1234,
            \"Hello there 😀\": \"Hello!\"
        }"
        ),
        Ok(Value::named_variant(
            "MyVariant",
            vec![
                ("hello".into(), Value::bool(true)),
                ("foo".into(), Value::uint(1234u128)),
                ("Hello there 😀".into(), Value::string("Hello!"))
            ]
        ))
    );

    assert_eq!(
        from("Foo (  true, 1234 ,\t\n\t \"Hello!\" )"),
        Ok(Value::unnamed_variant(
            "Foo",
            vec![Value::bool(true), Value::uint(1234u128), Value::string("Hello!")]
        ))
    );

    assert_eq!(from("Foo()"), Ok(Value::unnamed_variant("Foo", vec![])));
    assert_eq!(from("Foo{}"), Ok(Value::named_variant("Foo", vec![])));
    assert_eq!(from("Foo( \t)"), Ok(Value::unnamed_variant("Foo", vec![])));
    assert_eq!(from("Foo{  }"), Ok(Value::named_variant("Foo", vec![])));

    // Parsing special "v" strings:
    assert_eq!(
        from("v\"variant name\" {  }"),
        Ok(Value::named_variant("variant name", vec![]))
    );
}

#[test]
fn parse_bit_sequences() {
    let bits = |s: &[u8]| s.iter().map(|b| *b == 1).collect::<Vec<bool>>();
    assert_eq!(
        from("<011010110101101>"),
        Ok(Value::bit_sequence(bits(&[0, 1, 1, 0, 1, 0, 1, 1, 0, 1, 0, 1, 1, 0, 1])))
    );
    assert_eq!(from("<01101>"), Ok(Value::bit_sequence(bits(&[0, 1, 1, 0, 1]))));
    assert_eq!(from("<0>"), Ok(Value::bit_sequence(bits(&[0]))));
    assert_eq!(from("<>"), Ok(Value::bit_sequence(bits(&[]))));
}

#[test]
fn literal_scenarios() {
    assert_eq!(
        from("{ hello: true, foo: 1234 }"),
        Ok(Value::named_composite(vec![
            ("hello".into(), Value::bool(true)),
            ("foo".into(), Value::uint(1234u128)),
        ]))
    );
    assert_eq!(
        from("Foo(true,1)"),
        Ok(Value::unnamed_variant("Foo", vec![Value::bool(true), Value::uint(1)]))
    );
    assert_eq!(from("v\"odd name\" {  }"), Ok(Value::named_variant("odd name", vec![])));
    assert_eq!(from("<0110>"), Ok(Value::bit_sequence(vec![false, true, true, false])));
    assert_eq!(
        from("<01"),
        Err(between(
            ParseErrorKind::BitSequence(ParseBitSequenceError::ExpectedClosingBracketToMatch(0)),
            3,
            4
        ))
    );
}

#[test]
fn empty_containers_with_whitespace() {
    assert_eq!(from("( \t\n )"), Ok(Value::unnamed_composite(vec![])));
    assert_eq!(from("{\n\t  }"), Ok(Value::named_composite(vec![])));
    assert_eq!(from("{}"), Ok(Value::named_composite(vec![])));
    assert_eq!(from("<>"), Ok(Value::bit_sequence(vec![])));
}

#[test]
fn remaining_text_is_handed_back() {
    let (res, rest) = from_str("true, 1");
    assert_eq!(res, Ok(Value::bool(true)));
    assert_eq!(rest, ", 1");
    let (res, rest) = from_str("12ab");
    assert_eq!(res, Ok(Value::uint(12)));
    assert_eq!(rest, "ab");
}

#[test]
fn integer_limits() {
    assert_eq!(from("340282366920938463463374607431768211455"), Ok(Value::uint(u128::MAX)));
    assert_eq!(from("-170141183460469231731687303715884105728"), Ok(Value::sint(i128::MIN)));
    assert_eq!(from("-0"), Ok(Value::sint(0)));
    let err = from("340282366920938463463374607431768211456").unwrap_err();
    assert_eq!(err.start_loc, 0);
    assert_eq!(err.end_loc, Some(39));
    assert!(matches!(err.err, ParseErrorKind::Number(ParseNumberError::ParsingFailed(_))));
    let err = from("-170141183460469231731687303715884105729").unwrap_err();
    assert_eq!((err.start_loc, err.end_loc), (0, Some(40)));
    assert!(matches!(err.err, ParseErrorKind::Number(ParseNumberError::ParsingFailed(_))));
}

#[test]
fn structural_errors() {
    assert_eq!(from(""), Err(ParseError::new_at(ParseErrorKind::ExpectedValue, 0)));
    assert_eq!(from("Foo"), Err(ParseError::new_at(ParseErrorKind::ExpectedValue, 0)));
    assert_eq!(from("@"), Err(ParseError::new_at(ParseErrorKind::ExpectedValue, 0)));
    assert_eq!(
        from("{ a 1 }"),
        Err(between(ParseErrorKind::Complex(ParseComplexError::MissingFieldSeparator(':')), 4, 5))
    );
    assert_eq!(
        from("{ a: 1 "),
        Err(between(ParseErrorKind::Complex(ParseComplexError::ExpectedCloserToMatch('}', 0)), 7, 8))
    );
    assert_eq!(
        from("(1, 2"),
        Err(between(ParseErrorKind::Complex(ParseComplexError::ExpectedCloserToMatch(')', 0)), 5, 6))
    );
    assert_eq!(
        from("{ 1: 2 }"),
        Err(between(
            ParseErrorKind::Complex(ParseComplexError::InvalidStartingCharacterInIdent),
            2,
            3
        ))
    );
    assert_eq!(from("(1, )"), Err(ParseError::new_at(ParseErrorKind::ExpectedValue, 4)));
}

#[test]
fn char_errors() {
    assert_eq!(
        from("'"),
        Err(between(ParseErrorKind::Char(ParseCharError::ExpectedValidCharacter), 1, 2))
    );
    assert_eq!(
        from("'\\"),
        Err(between(ParseErrorKind::Char(ParseCharError::ExpectedValidEscapeCode), 2, 3))
    );
    assert_eq!(
        from("'\\q'"),
        Err(between(ParseErrorKind::Char(ParseCharError::ExpectedValidEscapeCode), 3, 4))
    );
    // byte offsets count the UTF-8 bytes of what comes before
    assert_eq!(
        from("(\"😀\", 'ab')"),
        Err(between(ParseErrorKind::Char(ParseCharError::ExpectedClosingQuoteToMatch(9)), 11, 12))
    );
}

#[test]
fn parse_errors_can_be_cloned() {
    let err = from("99999999999999999999999999999999999999999").unwrap_err();
    assert_eq!(err.clone(), err);
}
