use php_literal_parser::ArrayWalker;
use php_literal_parser::Deserializer;
use php_literal_parser::MapKeyStep;
use php_literal_parser::ParseError;
use php_literal_parser::Token;

fn from_str_string_seq(source: &str) -> Result<Vec<String>, ParseError> {
    let mut de = Deserializer::from_str(source);
    let syntax = de.begin_array()?;
    let mut walker = ArrayWalker::new(syntax);
    let mut out: Vec<String> = Vec::new();
    while walker.next_element_start(&mut de)? {
        out.push(de.parse_string()?);
        walker.value_end(&mut de)?;
    }
    de.end()?;
    Ok(out)
}

fn from_str_int_map(source: &str) -> Result<Vec<(String, i64)>, ParseError> {
    let mut de = Deserializer::from_str(source);
    let syntax = de.begin_array()?;
    let mut walker = ArrayWalker::new(syntax);
    let mut out: Vec<(String, i64)> = Vec::new();
    loop {
        let key = match walker.map_key_start(&mut de)? {
            MapKeyStep::End => break,
            MapKeyStep::Explicit => de.parse_signed()?.to_string(),
            MapKeyStep::Implicit(k) => k,
        };
        walker.map_value_start(&mut de)?;
        let value = de.parse_signed()?;
        walker.value_end(&mut de)?;
        out.push((key, value));
    }
    de.end()?;
    Ok(out)
}

fn from_str_string_int_map(source: &str) -> Result<Vec<(String, i64)>, ParseError> {
    let mut de = Deserializer::from_str(source);
    let syntax = de.begin_array()?;
    let mut walker = ArrayWalker::new(syntax);
    let mut out: Vec<(String, i64)> = Vec::new();
    loop {
        let key = match walker.map_key_start(&mut de)? {
            MapKeyStep::End => break,
            MapKeyStep::Explicit => de.parse_string()?,
            MapKeyStep::Implicit(k) => k,
        };
        walker.map_value_start(&mut de)?;
        let value = de.parse_signed()?;
        walker.value_end(&mut de)?;
        out.push((key, value));
    }
    de.end()?;
    Ok(out)
}

#[test]
fn test_vec() {
    let j = r#"["a","b"]"#;
    let expected: Vec<String> = vec!["a".to_string(), "b".to_string()];
    assert_eq!(expected, from_str_string_seq(j).unwrap());
}

#[test]
fn test_vec_explicit_keys() {
    let j = r#"[0=>"a", 1=>"b"]"#;
    let expected: Vec<String> = vec!["a".to_string(), "b".to_string()];
    assert_eq!(expected, from_str_string_seq(j).unwrap());
}

#[test]
fn test_vec_long_syntax() {
    let j = r#"array("a","b",)"#;
    let expected: Vec<String> = vec!["a".to_string(), "b".to_string()];
    assert_eq!(expected, from_str_string_seq(j).unwrap());
}

#[test]
fn test_vec_out_of_order_key_fails() {
    // Inside a declared sequence an explicit key must continue the run.
    let j = r#"[0=>"a", 2=>"b"]"#;
    assert!(matches!(
        from_str_string_seq(j).unwrap_err(),
        ParseError::UnexpectedArrayKey(_)
    ));
}

#[test]
fn test_map_string_keys() {
    let j = r#"["a"=>2, "b"=>3]"#;
    let expected: Vec<(String, i64)> =
        vec![("a".to_string(), 2), ("b".to_string(), 3)];
    assert_eq!(expected, from_str_string_int_map(j).unwrap());
}

#[test]
fn test_map_implicit_keys_as_decimal_text() {
    // Implicit map entries receive the decimal form of the auto-index.
    let j = r#"[5, 6, 7]"#;
    let expected: Vec<(String, i64)> = vec![
        ("0".to_string(), 5),
        ("1".to_string(), 6),
        ("2".to_string(), 7),
    ];
    assert_eq!(expected, from_str_int_map(j).unwrap());
}

#[test]
fn test_map_trailing_content_rejected() {
    let j = r#"["a"=>2] 1"#;
    assert!(matches!(
        from_str_string_int_map(j).unwrap_err(),
        ParseError::TrailingCharacters(_)
    ));
}

#[test]
fn test_enum_walk() {
    // A bare string names a unit variant: nothing is consumed yet.
    let mut de = Deserializer::from_str(r#""Unit""#);
    assert!(de.enum_start().unwrap().is_none());
    assert_eq!(de.parse_string().unwrap(), "Unit");
    assert!(de.end().is_ok());

    // A one-entry array: variant name, arrow, then the payload.
    let mut de = Deserializer::from_str(r#"["Newtype1"=>1]"#);
    let syntax = de.enum_start().unwrap().unwrap();
    assert_eq!(de.parse_string().unwrap(), "Newtype1");
    de.expect_next(Token::Arrow).unwrap();
    assert_eq!(de.parse_signed().unwrap(), 1);
    de.expect_next(syntax.close_bracket()).unwrap();
    assert!(de.end().is_ok());

    // The long spelling consumes `array` and `(` together.
    let mut de = Deserializer::from_str(r#"array("Tuple"=>[1,2])"#);
    let syntax = de.enum_start().unwrap().unwrap();
    assert_eq!(de.parse_string().unwrap(), "Tuple");
    de.expect_next(Token::Arrow).unwrap();
    let inner = de.begin_array().unwrap();
    let mut walker = ArrayWalker::new(inner);
    let mut items: Vec<i64> = Vec::new();
    while walker.next_element_start(&mut de).unwrap() {
        items.push(de.parse_signed().unwrap());
        walker.value_end(&mut de).unwrap();
    }
    assert_eq!(items, vec![1, 2]);
    de.expect_next(syntax.close_bracket()).unwrap();
    assert!(de.end().is_ok());
}

#[test]
fn test_scalar_walk() {
    let mut de = Deserializer::from_str("42;");
    assert_eq!(de.parse_signed().unwrap(), 42);
    assert!(de.end().is_ok());

    let mut de = Deserializer::from_str("-7");
    assert!(de.parse_unsigned().is_err());

    let mut de = Deserializer::from_str("TRUE");
    assert_eq!(de.parse_bool().unwrap(), true);
    assert!(de.end().is_ok());

    let mut de = Deserializer::from_str("1_0.5e1");
    assert_eq!(de.parse_float().unwrap(), "10.5e1");
    assert_eq!("10.5e1".parse::<f64>().unwrap(), 105.0);

    let mut de = Deserializer::from_str("null x");
    assert_eq!(de.option_is_null().unwrap(), true);
    assert!(de.end().is_err());
}
