use php_literal_parser::from_str;
use php_literal_parser::ArrayKeyErrorKind;
use php_literal_parser::Key;
use php_literal_parser::ParseError;
use php_literal_parser::ParseIntError;
use php_literal_parser::PrimitiveErrorKind;
use php_literal_parser::Value;

fn parse(source: &str) -> Result<Value, ParseError> {
    from_str(source)
}

fn arr(entries: Vec<(Key, Value)>) -> Value {
    Value::Array(entries)
}

fn float_of(v: Value) -> f64 {
    match v {
        Value::Float(text) => text.parse::<f64>().unwrap(),
        other => panic!("expected a float, got {:?}", other),
    }
}

#[test]
fn test_parse() {
    assert_eq!(Value::Bool(true), parse("true").unwrap());
    assert_eq!(Value::Bool(false), parse("false").unwrap());
    assert_eq!(Value::Int(12), parse("12").unwrap());
    assert_eq!(Value::Int(-1), parse("-1").unwrap());
    assert_eq!(1.12, float_of(parse("1.12").unwrap()));
    assert_eq!(
        Value::String("test".to_string()),
        parse(r#""test""#).unwrap()
    );
    assert_eq!(arr(vec![]), parse(r#"array()"#).unwrap());
    assert_eq!(
        arr(vec![
            (Key::Int(0), Value::Int(3)),
            (Key::Int(1), Value::Int(4)),
            (Key::Int(2), Value::Int(5)),
        ]),
        parse(r#"array(3,4,5)"#).unwrap()
    );
    assert_eq!(
        arr(vec![
            (Key::Int(0), Value::Int(3)),
            (Key::Int(1), Value::Int(4)),
            (Key::Int(2), Value::Int(5)),
        ]),
        parse(r#"array(3,4,5,)"#).unwrap()
    );
    assert_eq!(
        arr(vec![
            (Key::Int(1), Value::Int(3)),
            (Key::Int(3), Value::Int(4)),
            (Key::Int(5), Value::Int(5)),
        ]),
        parse(r#"array(1=>3,3=>4,5=>5)"#).unwrap()
    );
    assert_eq!(
        arr(vec![
            (Key::Int(1), Value::Int(3)),
            (Key::Int(2), Value::Int(4)),
            (Key::Int(3), Value::Int(5)),
        ]),
        parse(r#"array(1=>3,4,5)"#).unwrap()
    );
    assert_eq!(
        arr(vec![
            (Key::Int(1), Value::Int(3)),
            (Key::String("foo".into()), Value::Int(4)),
            (Key::Int(2), Value::Int(5)),
        ]),
        parse(r#"array(1=>3,"foo" => 4,5)"#).unwrap()
    );
    assert_eq!(
        arr(vec![
            (Key::String("foo".into()), Value::Bool(true)),
            (
                Key::String("nested".into()),
                arr(vec![(Key::String("foo".into()), Value::Bool(false))])
            ),
        ]),
        parse(r#"array("foo" => true, "nested" => array ('foo' => false))"#).unwrap()
    );
    assert_eq!(
        arr(vec![
            (Key::String("foo".into()), Value::Bool(true)),
            (
                Key::String("nested".into()),
                arr(vec![(Key::String("foo".into()), Value::Bool(false))])
            ),
        ]),
        parse(r#"["foo" => true, "nested" => ['foo' => false]]"#).unwrap()
    );
}

#[test]
fn test_parse_value() {
    assert_eq!(Value::Bool(true), parse("true").unwrap());
    assert_eq!(Value::Bool(false), parse("false").unwrap());
    assert_eq!(Value::Int(12), parse("12").unwrap());
    assert_eq!(Value::Int(-1), parse("-1").unwrap());
    assert_eq!(1.12, float_of(parse("1.12").unwrap()));
    assert_eq!(
        Value::String("test".to_string()),
        parse(r#""test""#).unwrap()
    );
    assert_eq!(arr(vec![]), parse(r#"array()"#).unwrap());
    assert_eq!(
        arr(vec![
            (Key::Int(0), Value::Int(3)),
            (Key::Int(1), Value::Int(4)),
            (Key::Int(2), Value::Int(5)),
        ]),
        parse(r#"array(3,4,5)"#).unwrap()
    );
    assert_eq!(
        arr(vec![
            (Key::Int(0), Value::Int(3)),
            (Key::Int(1), Value::Int(4)),
            (Key::Int(2), Value::Int(5)),
        ]),
        parse(r#"array(3,4,5,)"#).unwrap()
    );
    assert_eq!(
        arr(vec![
            (Key::Int(1), Value::Int(3)),
            (Key::Int(3), Value::Int(4)),
            (Key::Int(5), Value::Int(5)),
        ]),
        parse(r#"array(1=>3,3=>4,5=>5)"#).unwrap()
    );
    assert_eq!(
        arr(vec![
            (Key::Int(1), Value::Int(3)),
            (Key::Int(2), Value::Int(4)),
            (Key::Int(3), Value::Int(5)),
        ]),
        parse(r#"array(1=>3,4,5)"#).unwrap()
    );
    assert_eq!(
        arr(vec![
            (Key::Int(1), Value::Int(3)),
            (Key::Int(2), Value::Int(4)),
            (Key::Int(3), Value::Int(5)),
        ]),
        parse(r#"array("1"=>3,4,5)"#).unwrap()
    );
    assert_eq!(
        arr(vec![
            (Key::Int(1), Value::Int(3)),
            (Key::Int(2), Value::Int(4)),
            (Key::Int(3), Value::Int(5)),
        ]),
        parse(r#"array(1.5=>3,4,5)"#).unwrap()
    );
    assert_eq!(
        arr(vec![
            (Key::Int(1), Value::Int(3)),
            (Key::Int(2), Value::Int(4)),
            (Key::Int(3), Value::Int(5)),
        ]),
        parse(r#"array(true=>3,4,5)"#).unwrap()
    );
    assert_eq!(
        arr(vec![
            (Key::Int(1), Value::Int(3)),
            (Key::String("foo".into()), Value::Int(4)),
            (Key::Int(2), Value::Int(5)),
        ]),
        parse(r#"array(1=>3,"foo" => 4,5)"#).unwrap()
    );
    assert_eq!(
        arr(vec![
            (Key::String("foo".into()), Value::Bool(true)),
            (
                Key::String("nested".into()),
                arr(vec![(Key::String("foo".into()), Value::Bool(false))])
            ),
        ]),
        parse(r#"array("foo" => true, "nested" => array ('foo' => false))"#).unwrap()
    );
    assert_eq!(
        arr(vec![
            (Key::String("foo".into()), Value::Bool(true)),
            (
                Key::String("nested".into()),
                arr(vec![(Key::String("foo".into()), Value::Null)])
            ),
        ]),
        parse(r#"["foo" => true, "nested" => ['foo' => null]]"#).unwrap()
    );
    assert_eq!(Value::Int(-432), parse(r#"-432"#).unwrap());
    assert_eq!(Value::Int(282), parse(r#"0432"#).unwrap());
    assert_eq!(Value::Int(26), parse(r#"0x1A"#).unwrap());
    assert_eq!(Value::Int(3), parse(r#"0b11"#).unwrap());
    assert_eq!(Value::Int(12345), parse(r#"12_34_5"#).unwrap());

    assert_eq!(Value::Bool(true), parse(r#"True"#).unwrap());

    assert_eq!(-432.0, float_of(parse(r#"-432.0"#).unwrap()));
    assert_eq!(0.12, float_of(parse(r#".12"#).unwrap()));
    assert_eq!(1000.0, float_of(parse(r#"10e2"#).unwrap()));
    assert_eq!(1.0, float_of(parse(r#"10e-1"#).unwrap()));
    assert_eq!(1234.5, float_of(parse(r#"12_34.5"#).unwrap()));

    assert_eq!(
        arr(vec![
            (Key::Int(2), Value::Int(3)),
            (Key::String("foo".into()), Value::Int(4)),
            (Key::String("".into()), Value::Int(5)),
            (Key::Int(1), Value::Int(6)),
            (Key::Int(0), Value::Int(7)),
        ]),
        parse(r#"array("2"=>3,"foo" => 4, null => 5, true => 6, false => 7)"#).unwrap()
    );

    assert_eq!(
        arr(vec![
            (
                Key::Int(0),
                arr(vec![(Key::String("a".into()), Value::Int(2))])
            ),
            (
                Key::Int(1),
                arr(vec![(Key::String("b".into()), Value::Int(3))])
            ),
        ]),
        parse(r#"[["a" => 2], ["b" => 3]]"#).unwrap()
    );

    assert_eq!(
        arr(vec![
            (
                Key::Int(0),
                arr(vec![(Key::String("a".into()), Value::Int(2))])
            ),
            (
                Key::Int(1),
                arr(vec![(Key::String("b".into()), Value::Int(3))])
            ),
        ]),
        parse(r#"array(array("a" => 2), array("b" => 3))"#).unwrap()
    );
}

#[test]
fn test_trailing_semi() {
    assert_eq!(Value::Int(12), parse(r#"12;"#).unwrap());
}

#[test]
fn test_index() {
    let map = arr(vec![
        (
            Key::String("key".to_string()),
            Value::String("value".to_string()),
        ),
        (Key::Int(1), Value::Bool(true)),
    ]);
    assert_eq!(map.index_str("key"), Value::String("value".to_string()));
    assert_eq!(map.index_int(1), Value::Bool(true));
    assert_eq!(map.index(&Key::Int(1)), Value::Bool(true));
}

#[test]
fn test_index_missing_is_null() {
    let map = arr(vec![(
        Key::String("key".to_string()),
        Value::String("value".to_string()),
    )]);
    assert!(map.index_str("not").index_str("found").is_null());
    assert!(Value::Int(3).index_int(0).is_null());
    assert!(Value::Null.index_str("x").is_null());
    assert!(map.index_int(7).is_null());
}

#[test]
fn test_both_array_syntaxes_equal() {
    assert_eq!(
        parse(r#"array("k"=>1)"#).unwrap(),
        parse(r#"["k"=>1]"#).unwrap()
    );
    assert_eq!(
        parse(r#"array(1,2,3)"#).unwrap(),
        parse(r#"[1,2,3]"#).unwrap()
    );
}

#[test]
fn test_trailing_comma_tolerance() {
    assert_eq!(
        parse(r#"array(1,2,3,)"#).unwrap(),
        parse(r#"array(1,2,3)"#).unwrap()
    );
    assert_eq!(arr(vec![]), parse(r#"array()"#).unwrap());
    assert_eq!(arr(vec![]), parse(r#"[]"#).unwrap());
    assert_eq!(
        parse(r#"["a"=>1,]"#).unwrap(),
        parse(r#"["a"=>1]"#).unwrap()
    );
}

#[test]
fn test_auto_index_continuation() {
    assert_eq!(
        arr(vec![
            (Key::Int(1), Value::Int(3)),
            (Key::Int(2), Value::Int(4)),
            (Key::Int(3), Value::Int(5)),
        ]),
        parse(r#"array(1=>3,4,5)"#).unwrap()
    );
}

#[test]
fn test_numeric_string_key_coercion() {
    assert_eq!(
        arr(vec![(Key::Int(8), Value::Int(1))]),
        parse(r#"array("8"=>1)"#).unwrap()
    );
    assert_eq!(
        arr(vec![(Key::Int(-8), Value::Int(1))]),
        parse(r#"array("-8"=>1)"#).unwrap()
    );
    assert_eq!(
        arr(vec![(Key::String("08".into()), Value::Int(1))]),
        parse(r#"array("08"=>1)"#).unwrap()
    );
    assert_eq!(
        arr(vec![(Key::String("-0".into()), Value::Int(1))]),
        parse(r#"array("-0"=>1)"#).unwrap()
    );
    assert_eq!(
        arr(vec![(Key::String(" 8".into()), Value::Int(1))]),
        parse(r#"array(" 8"=>1)"#).unwrap()
    );
}

#[test]
fn test_float_key_truncation() {
    assert_eq!(
        arr(vec![(Key::Int(1), Value::Int(9))]),
        parse(r#"array(1.5=>9)"#).unwrap()
    );
    assert_eq!(
        arr(vec![(Key::Int(-1), Value::Int(9))]),
        parse(r#"array(-1.5=>9)"#).unwrap()
    );
    assert_eq!(
        arr(vec![(Key::Int(1000), Value::Int(9))]),
        parse(r#"array(10e2=>9)"#).unwrap()
    );
    assert_eq!(
        arr(vec![(Key::Int(0), Value::Int(9))]),
        parse(r#"array(0.25=>9)"#).unwrap()
    );
}

#[test]
fn test_integer_radix_fidelity() {
    assert_eq!(Value::Int(26), parse("0x1A").unwrap());
    assert_eq!(Value::Int(3), parse("0b11").unwrap());
    assert_eq!(Value::Int(282), parse("0432").unwrap());
    assert_eq!(Value::Int(12345), parse("12_34_5").unwrap());
}

#[test]
fn test_bool_case_insensitivity() {
    assert_eq!(Value::Bool(true), parse("True").unwrap());
    assert_eq!(Value::Bool(true), parse("TRUE").unwrap());
    assert_eq!(Value::Bool(false), parse("false").unwrap());
    assert_eq!(Value::Bool(false), parse("FaLsE").unwrap());
}

#[test]
fn test_integer_overflow_is_fatal() {
    let err = parse("9223372036854775808").unwrap_err();
    match err {
        ParseError::InvalidPrimitive(pe) => {
            assert_eq!(
                pe.kind,
                PrimitiveErrorKind::InvalidIntLiteral(ParseIntError::Overflow)
            );
        }
        other => panic!("expected an overflow error, got {:?}", other),
    }
    let err = parse("-9223372036854775808").unwrap_err();
    assert!(matches!(err, ParseError::InvalidPrimitive(_)));
}

#[test]
fn test_array_key_is_fatal() {
    let err = parse(r#"[[1,2]=>3]"#).unwrap_err();
    match err {
        ParseError::UnexpectedArrayKey(ake) => {
            assert_eq!(ake.kind, ArrayKeyErrorKind::IntegerExpected);
        }
        other => panic!("expected an array-key error, got {:?}", other),
    }
    // A second arrow after a complete entry is equally fatal: the nested
    // array is never silently stringified into a key.
    assert!(parse(r#"["k"=>[1,2]=>3]"#).is_err());
}

#[test]
fn test_trailing_content_rejected() {
    assert!(matches!(
        parse("12 garbage").unwrap_err(),
        ParseError::TrailingCharacters(_)
    ));
    assert_eq!(Value::Int(12), parse("12").unwrap());
    assert!(matches!(
        parse("12; 13").unwrap_err(),
        ParseError::TrailingCharacters(_)
    ));
}

#[test]
fn test_unexpected_token_error() {
    assert!(matches!(
        parse("=>").unwrap_err(),
        ParseError::UnexpectedToken(_)
    ));
    assert!(matches!(parse("").unwrap_err(), ParseError::UnexpectedToken(_)));
    assert!(matches!(
        parse("array(1").unwrap_err(),
        ParseError::UnexpectedToken(_)
    ));
}

#[test]
fn test_bad_string_escape_error() {
    let err = parse(r#""\u{D800}""#).unwrap_err();
    match err {
        ParseError::InvalidPrimitive(pe) => {
            assert_eq!(pe.kind, PrimitiveErrorKind::InvalidStringLiteral);
        }
        other => panic!("expected a string literal error, got {:?}", other),
    }
}

#[test]
fn test_comments_are_invisible() {
    let source = "array( /* block */ 1, # line\n 2, // line\n 3 )";
    assert_eq!(
        arr(vec![
            (Key::Int(0), Value::Int(1)),
            (Key::Int(1), Value::Int(2)),
            (Key::Int(2), Value::Int(3)),
        ]),
        parse(source).unwrap()
    );
}

#[test]
fn test_key_ordering() {
    assert!(Key::Int(2) < Key::Int(10));
    assert!(Key::String("a".into()) < Key::String("b".into()));
    assert!(Key::String("ab".into()) < Key::String("b".into()));
    assert!(Key::String("a".into()) < Key::String("ab".into()));
    // A mixed pair compares the integer's decimal form against the string:
    // "10" comes before "2" lexically.
    assert!(Key::Int(10) < Key::String("2".into()));
    assert!(Key::String("05".into()) < Key::Int(1));
    assert!(Key::Int(7).partial_cmp(&Key::Int(7)) == Some(std::cmp::Ordering::Equal));
}

#[test]
fn test_round_trip_scalars() {
    let samples: Vec<Value> = vec![
        Value::Bool(true),
        Value::Bool(false),
        Value::Int(0),
        Value::Int(-1),
        Value::Int(i64::MAX),
        Value::Null,
        Value::String("".into()),
        Value::String("plain".into()),
        Value::String("with 'quotes' and \\slashes\\".into()),
        Value::String("newline\nand tab\t𝄞".into()),
    ];
    for v in samples {
        let text = v.to_literal();
        assert_eq!(v, parse(&text).unwrap());
    }
}

#[test]
fn test_round_trip_arrays() {
    let samples: Vec<Value> = vec![
        arr(vec![]),
        arr(vec![
            (Key::Int(0), Value::Int(3)),
            (Key::Int(1), Value::Int(4)),
            (Key::Int(2), Value::Int(5)),
        ]),
        arr(vec![
            (Key::Int(-4), Value::Bool(true)),
            (Key::String("foo".into()), Value::Null),
            (
                Key::String("it's".into()),
                arr(vec![(Key::Int(0), Value::String("nested".into()))]),
            ),
        ]),
    ];
    for v in samples {
        let text = v.to_literal();
        assert_eq!(v, parse(&text).unwrap());
    }
}

#[test]
fn test_to_literal_text() {
    assert_eq!(Value::Int(12).to_literal(), "12");
    assert_eq!(Value::Bool(true).to_literal(), "true");
    assert_eq!(Value::Null.to_literal(), "null");
    assert_eq!(Value::String("a'b".into()).to_literal(), r#"'a\'b'"#);
    assert_eq!(
        arr(vec![(Key::Int(0), Value::Int(1))]).to_literal(),
        "array(0=>1,)"
    );
    assert_eq!(Value::Float("1.5e3".into()).to_literal(), "1.5e3");
}

#[test]
fn test_value_accessors() {
    assert!(parse("true").unwrap().is_bool());
    assert!(parse("1").unwrap().is_int());
    assert!(parse("1.0").unwrap().is_float());
    assert!(parse(r#""x""#).unwrap().is_string());
    assert!(parse("[]").unwrap().is_array());
    assert!(parse("null").unwrap().is_null());
    assert_eq!(parse("7").unwrap().into_int(), Some(7));
    assert_eq!(parse("7").unwrap().as_int(), Some(7));
    assert_eq!(parse("true").unwrap().into_bool(), Some(true));
    assert_eq!(
        parse(r#""x""#).unwrap().into_string(),
        Some("x".to_string())
    );
    assert_eq!(parse(r#""x""#).unwrap().as_str(), None.or(Some("x")));
    assert_eq!(parse("1").unwrap().into_bool(), None);
    let key = Key::Int(3);
    assert!(key.is_int());
    assert!(!key.is_string());
    assert_eq!(key.as_int(), Some(3));
    assert_eq!(Key::Int(3).into_int(), Some(3));
    assert_eq!(Key::String("a".into()).into_string(), Some("a".to_string()));
    assert_eq!(Key::String("a".into()).as_str(), Some("a"));
}
