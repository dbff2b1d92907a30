use php_literal_parser::i64_to_dec_string;
use php_literal_parser::int_key_value;
use php_literal_parser::is_array_key_numeric;
use php_literal_parser::parse_int;
use php_literal_parser::ParseIntError;

#[test]
fn test_parse_int_radixes() {
    assert_eq!(parse_int("0"), Ok(0));
    assert_eq!(parse_int("123"), Ok(123));
    assert_eq!(parse_int("-432"), Ok(-432));
    assert_eq!(parse_int("+7"), Ok(7));
    assert_eq!(parse_int("0x1A"), Ok(26));
    assert_eq!(parse_int("0b11"), Ok(3));
    assert_eq!(parse_int("0432"), Ok(282));
    assert_eq!(parse_int("12_34_5"), Ok(12345));
    assert_eq!(parse_int("0xff_ff"), Ok(65535));
}

#[test]
fn test_parse_int_errors() {
    assert_eq!(parse_int(""), Err(ParseIntError::Empty));
    assert_eq!(parse_int("-"), Err(ParseIntError::Empty));
    assert_eq!(parse_int("0x"), Err(ParseIntError::Empty));
    assert_eq!(parse_int("12z"), Err(ParseIntError::InvalidDigit));
    assert_eq!(parse_int("098"), Err(ParseIntError::InvalidDigit));
    assert_eq!(
        parse_int("9223372036854775808"),
        Err(ParseIntError::Overflow)
    );
    assert_eq!(parse_int("9223372036854775807"), Ok(i64::MAX));
}

#[test]
fn test_int_key_rule() {
    assert!(is_array_key_numeric("8"));
    assert!(is_array_key_numeric("-8"));
    assert!(is_array_key_numeric("0"));
    assert!(!is_array_key_numeric("08"));
    assert!(!is_array_key_numeric("-0"));
    assert!(!is_array_key_numeric(" 8"));
    assert!(!is_array_key_numeric("+8"));
    assert!(!is_array_key_numeric(""));
    assert!(!is_array_key_numeric("9223372036854775808"));
    assert!(is_array_key_numeric("9223372036854775807"));
    assert!(is_array_key_numeric("-9223372036854775808"));
    assert_eq!(int_key_value("8"), Some(8));
    assert_eq!(int_key_value("-8"), Some(-8));
    assert_eq!(int_key_value("-9223372036854775808"), Some(i64::MIN));
    assert_eq!(int_key_value("abc"), None);
}

#[test]
fn test_int_to_dec_string() {
    assert_eq!(i64_to_dec_string(0), "0");
    assert_eq!(i64_to_dec_string(7), "7");
    assert_eq!(i64_to_dec_string(-7), "-7");
    assert_eq!(i64_to_dec_string(1234567890), "1234567890");
    assert_eq!(i64_to_dec_string(i64::MAX), "9223372036854775807");
    assert_eq!(i64_to_dec_string(i64::MIN), "-9223372036854775808");
}

#[test]
fn test_int_print_parse_round_trip() {
    let samples: Vec<i64> = vec![0, 1, -1, 9, 10, -10, 4096, i64::MAX, i64::MIN + 1];
    for n in samples {
        assert_eq!(parse_int(&i64_to_dec_string(n)), Ok(n));
    }
}
