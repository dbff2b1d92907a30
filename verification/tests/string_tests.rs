use php_literal_parser::unescape_double;
use php_literal_parser::unescape_single;
use php_literal_parser::UnescapeError;

#[test]
fn test_unescape_single() {
    assert_eq!(unescape_single(r#"abc"#), Ok("abc".into()));
    assert_eq!(unescape_single(r#"ab\nc"#), Ok("ab\\nc".into()));
    assert_eq!(unescape_single(r#"ab\zc"#), Ok("ab\\zc".into()));
    assert_eq!(unescape_single(r#" \"abc\" "#), Ok(" \\\"abc\\\" ".into()));
    assert_eq!(unescape_single(r#"𝄞"#), Ok("𝄞".into()));
    assert_eq!(unescape_single(r#"\𝄞"#), Ok("\\𝄞".into()));
    assert_eq!(
        unescape_single(r#"\xD834\xDD1E"#),
        Ok("\\xD834\\xDD1E".into())
    );
    assert_eq!(unescape_single(r#"\xD834"#), Ok("\\xD834".into()));
    assert_eq!(unescape_single(r#"\xDD1E"#), Ok("\\xDD1E".into()));
    assert_eq!(unescape_single("\t"), Ok("\t".into()));
}

#[test]
fn test_unescape_double() {
    assert_eq!(unescape_double(r#"abc"#), Ok("abc".into()));
    assert_eq!(unescape_double(r#"ab\nc"#), Ok("ab\nc".into()));
    assert_eq!(unescape_double(r#"ab\zc"#), Ok("ab\\zc".into()));
    assert_eq!(unescape_double(r#" \"abc\" "#), Ok(" \"abc\" ".into()));
    assert_eq!(unescape_double(r#"𝄞"#), Ok("𝄞".into()));
    assert_eq!(unescape_double(r#"\𝄞"#), Ok("\\𝄞".into()));
    assert_eq!(unescape_double(r#"\u{1D11E}"#), Ok("𝄞".into()));
    assert_eq!(unescape_double(r#"\xD834"#), Ok("\u{D8}34".into()));
    assert_eq!(unescape_double(r#"\xDD1E"#), Ok("\u{DD}1E".into()));
    assert_eq!(unescape_double(r#"\xD"#), Ok("\u{D}".into()));
    assert_eq!(unescape_double("\t"), Ok("\t".into()));
    assert_eq!(unescape_double(r#"\u{D834"#), Err(UnescapeError));
    assert_eq!(unescape_double(r#"\uD834"#), Ok("\\uD834".into()));
    assert_eq!(unescape_double(r#"\u"#), Ok("\\u".into()));
    assert_eq!(unescape_double(r#"\47foo"#), Ok("'foo".into()));
    assert_eq!(unescape_double(r#"\48foo"#), Ok("\u{4}8foo".into()));
    assert_eq!(unescape_double(r#"\87foo"#), Ok("\\87foo".into()));

    assert_eq!(unescape_double(r#"\u{999999}"#), Err(UnescapeError));
    assert_eq!(
        unescape_double(r#"\u{999999999999999999}"#),
        Err(UnescapeError)
    );
}

#[test]
fn test_unescape_double_controls() {
    assert_eq!(unescape_double(r#"a\rb\tc\vd\fe\$f"#), Ok("a\rb\tc\u{b}d\u{c}e$f".into()));
    assert_eq!(unescape_double(r#"\u{D800}"#), Err(UnescapeError));
    assert_eq!(unescape_double("\\"), Err(UnescapeError));
    assert_eq!(unescape_single("\\"), Err(UnescapeError));
}

#[test]
fn test_quote_escape_divergence() {
    // Single-quote rules keep an escaped double quote verbatim; double-quote
    // rules decode a hex escape into the character it names.
    assert_eq!(unescape_single(r#"\""#), Ok("\\\"".into()));
    assert_eq!(unescape_double(r#"\x41"#), Ok("A".into()));
    assert_eq!(unescape_single(r#"\'"#), Ok("'".into()));
    assert_eq!(unescape_single(r#"\\"#), Ok("\\".into()));
}
