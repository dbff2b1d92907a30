use php_literal_parser::Token;
use php_literal_parser::TokenStream;

fn next_kind(lex: &mut TokenStream) -> Option<Token> {
    lex.next().map(|t| t.token)
}

#[test]
fn test_lex() {
    let source = r###"
    array (
        "double" => "quote",
        'single' => 'quote',
        "escaped" => "\"quote\"",
        1 => 2,
        "nested" => [
            "sub" => "key",
        ],
        "array" => [1,2,3,4],
        "bool" => false,
        "negative" => -1,
        "null" => null,
    )
    "###;
    let mut lex = TokenStream::new(source);

    assert_eq!(next_kind(&mut lex), Some(Token::Array));
    assert_eq!(next_kind(&mut lex), Some(Token::BracketOpen));

    assert_eq!(next_kind(&mut lex), Some(Token::LiteralString));
    assert_eq!(next_kind(&mut lex), Some(Token::Arrow));
    assert_eq!(next_kind(&mut lex), Some(Token::LiteralString));
    assert_eq!(next_kind(&mut lex), Some(Token::Comma));

    assert_eq!(next_kind(&mut lex), Some(Token::LiteralString));
    assert_eq!(next_kind(&mut lex), Some(Token::Arrow));
    assert_eq!(next_kind(&mut lex), Some(Token::LiteralString));
    assert_eq!(next_kind(&mut lex), Some(Token::Comma));

    assert_eq!(next_kind(&mut lex), Some(Token::LiteralString));
    assert_eq!(next_kind(&mut lex), Some(Token::Arrow));
    assert_eq!(next_kind(&mut lex), Some(Token::LiteralString));
    assert_eq!(next_kind(&mut lex), Some(Token::Comma));

    assert_eq!(next_kind(&mut lex), Some(Token::Integer));
    assert_eq!(next_kind(&mut lex), Some(Token::Arrow));
    assert_eq!(next_kind(&mut lex), Some(Token::Integer));
    assert_eq!(next_kind(&mut lex), Some(Token::Comma));

    assert_eq!(next_kind(&mut lex), Some(Token::LiteralString));
    assert_eq!(next_kind(&mut lex), Some(Token::Arrow));
    assert_eq!(next_kind(&mut lex), Some(Token::SquareOpen));

    assert_eq!(next_kind(&mut lex), Some(Token::LiteralString));
    assert_eq!(next_kind(&mut lex), Some(Token::Arrow));
    assert_eq!(next_kind(&mut lex), Some(Token::LiteralString));
    assert_eq!(next_kind(&mut lex), Some(Token::Comma));

    assert_eq!(next_kind(&mut lex), Some(Token::SquareClose));
    assert_eq!(next_kind(&mut lex), Some(Token::Comma));

    assert_eq!(next_kind(&mut lex), Some(Token::LiteralString));
    assert_eq!(next_kind(&mut lex), Some(Token::Arrow));
    assert_eq!(next_kind(&mut lex), Some(Token::SquareOpen));
    assert_eq!(next_kind(&mut lex), Some(Token::Integer));
    assert_eq!(next_kind(&mut lex), Some(Token::Comma));
    assert_eq!(next_kind(&mut lex), Some(Token::Integer));
    assert_eq!(next_kind(&mut lex), Some(Token::Comma));
    assert_eq!(next_kind(&mut lex), Some(Token::Integer));
    assert_eq!(next_kind(&mut lex), Some(Token::Comma));
    assert_eq!(next_kind(&mut lex), Some(Token::Integer));
    assert_eq!(next_kind(&mut lex), Some(Token::SquareClose));
    assert_eq!(next_kind(&mut lex), Some(Token::Comma));

    assert_eq!(next_kind(&mut lex), Some(Token::LiteralString));
    assert_eq!(next_kind(&mut lex), Some(Token::Arrow));
    assert_eq!(next_kind(&mut lex), Some(Token::Bool));
    assert_eq!(next_kind(&mut lex), Some(Token::Comma));

    assert_eq!(next_kind(&mut lex), Some(Token::LiteralString));
    assert_eq!(next_kind(&mut lex), Some(Token::Arrow));
    assert_eq!(next_kind(&mut lex), Some(Token::Integer));
    assert_eq!(next_kind(&mut lex), Some(Token::Comma));

    assert_eq!(next_kind(&mut lex), Some(Token::LiteralString));
    assert_eq!(next_kind(&mut lex), Some(Token::Arrow));
    assert_eq!(next_kind(&mut lex), Some(Token::Null));
    assert_eq!(next_kind(&mut lex), Some(Token::Comma));

    assert_eq!(next_kind(&mut lex), Some(Token::BracketClose));

    assert_eq!(next_kind(&mut lex), None);
}

#[test]
fn test_lex_int() {
    let source = r###"0,123,0x123,0123,0b111,12_34_56"###;
    let mut lex = TokenStream::new(source);

    assert_eq!(next_kind(&mut lex), Some(Token::Integer));
    assert_eq!(next_kind(&mut lex), Some(Token::Comma));

    assert_eq!(next_kind(&mut lex), Some(Token::Integer));
    assert_eq!(next_kind(&mut lex), Some(Token::Comma));

    assert_eq!(next_kind(&mut lex), Some(Token::Integer));
    assert_eq!(next_kind(&mut lex), Some(Token::Comma));

    assert_eq!(next_kind(&mut lex), Some(Token::Integer));
    assert_eq!(next_kind(&mut lex), Some(Token::Comma));

    assert_eq!(next_kind(&mut lex), Some(Token::Integer));
    assert_eq!(next_kind(&mut lex), Some(Token::Comma));

    assert_eq!(next_kind(&mut lex), Some(Token::Integer));
    assert_eq!(next_kind(&mut lex), None);
}

#[test]
fn test_lex_float() {
    let source = r###".1,123.0,123e1,123e+1,123e-1,1_23.456"###;
    let mut lex = TokenStream::new(source);

    assert_eq!(next_kind(&mut lex), Some(Token::Float));
    assert_eq!(next_kind(&mut lex), Some(Token::Comma));

    assert_eq!(next_kind(&mut lex), Some(Token::Float));
    assert_eq!(next_kind(&mut lex), Some(Token::Comma));

    assert_eq!(next_kind(&mut lex), Some(Token::Float));
    assert_eq!(next_kind(&mut lex), Some(Token::Comma));

    assert_eq!(next_kind(&mut lex), Some(Token::Float));
    assert_eq!(next_kind(&mut lex), Some(Token::Comma));

    assert_eq!(next_kind(&mut lex), Some(Token::Float));
    assert_eq!(next_kind(&mut lex), Some(Token::Comma));

    assert_eq!(next_kind(&mut lex), Some(Token::Float));
    assert_eq!(next_kind(&mut lex), None);
}

#[test]
fn test_lex_comments() {
    let source = r###"
    array (
        /**
         * multi line comment
         */
        "double" => /** inline commend */ "quote", //line comment
    )
    "###;
    let mut lex = TokenStream::new(source);

    assert_eq!(next_kind(&mut lex), Some(Token::Array));
    assert_eq!(next_kind(&mut lex), Some(Token::BracketOpen));

    assert_eq!(next_kind(&mut lex), Some(Token::LiteralString));
    assert_eq!(next_kind(&mut lex), Some(Token::Arrow));
    assert_eq!(next_kind(&mut lex), Some(Token::LiteralString));
    assert_eq!(next_kind(&mut lex), Some(Token::Comma));

    assert_eq!(next_kind(&mut lex), Some(Token::BracketClose));
}

#[test]
fn test_lex_spans() {
    let source = "array(1)";
    let mut lex = TokenStream::new(source);
    let t0 = lex.next().unwrap();
    assert_eq!((t0.token, t0.start, t0.end), (Token::Array, 0, 5));
    let t1 = lex.next().unwrap();
    assert_eq!((t1.token, t1.start, t1.end), (Token::BracketOpen, 5, 6));
    let t2 = lex.next().unwrap();
    assert_eq!((t2.token, t2.start, t2.end), (Token::Integer, 6, 7));
    let t3 = lex.next().unwrap();
    assert_eq!((t3.token, t3.start, t3.end), (Token::BracketClose, 7, 8));
    assert_eq!(lex.next(), None);
}

#[test]
fn test_lex_error_token() {
    let mut lex = TokenStream::new("@");
    assert_eq!(next_kind(&mut lex), Some(Token::Error));
    assert_eq!(next_kind(&mut lex), None);

    let mut lex = TokenStream::new("12 garbage");
    assert_eq!(next_kind(&mut lex), Some(Token::Integer));
    assert_eq!(next_kind(&mut lex), Some(Token::Error));
}
