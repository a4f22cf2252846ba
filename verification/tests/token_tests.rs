use nipah_tokenizer::split::SplitItem;
use nipah_tokenizer::token::{Token, TokenPosition, TokenType};

#[test]
fn test_build_token() {
    let item = SplitItem::new("test".to_owned(), TokenPosition::new(0, 0));
    let token = Token::build(item, &nipah_tokenizer::options::default());
    assert_eq!(token.0, TokenType::Id("test".to_owned()));
}

#[test]
fn test_build_integer_literal_token() {
    let item = SplitItem::new("123".to_owned(), TokenPosition::new(0, 0));
    let token = Token::build(item, &nipah_tokenizer::options::default());
    assert_eq!(token.0, TokenType::IntegerLiteral(123));
}

#[test]
fn test_build_float_literal_token() {
    let item = SplitItem::new("123.456".to_owned(), TokenPosition::new(0, 0));
    let token = Token::build(item, &nipah_tokenizer::options::default());
    match token.0 {
        TokenType::FloatLiteral(text) => {
            assert_eq!(text.parse::<f64>().unwrap(), 123.456);
        }
        other => panic!("expected a float literal, got {:?}", other),
    }
}

#[test]
fn test_build_float_literal_token_with_f() {
    let item = SplitItem::new("123f".to_owned(), TokenPosition::new(0, 0));
    let token = Token::build(item, &nipah_tokenizer::options::default());
    match token.0 {
        TokenType::FloatLiteral(text) => {
            assert_eq!(text.parse::<f64>().unwrap(), 123_f64);
        }
        other => panic!("expected a float literal, got {:?}", other),
    }
}

#[test]
fn test_build_char_literal_token() {
    let item = SplitItem::new("'a'".to_owned(), TokenPosition::new(0, 0));
    let token = Token::build(item, &nipah_tokenizer::options::default());
    assert_eq!(token.0, TokenType::CharLiteral('a'));
}

#[test]
fn test_build_string_literal_token() {
    let item = SplitItem::new("\"test\"".to_owned(), TokenPosition::new(0, 0));
    let token = Token::build(item, &nipah_tokenizer::options::default());
    assert_eq!(token.0, TokenType::StringLiteral("test".to_owned()));
}

#[test]
fn test_build_token_with_position() {
    let item = SplitItem::new("test".to_owned(), TokenPosition::new(1, 2));
    let token = Token::build(item, &nipah_tokenizer::options::default());
    assert_eq!(token.1.position.position, 1);
    assert_eq!(token.1.position.line, 2);
}

#[test]
fn build_symbol_tokens() {
    let opts = nipah_tokenizer::options::default();
    let cases = vec![
        ("=>", TokenType::FatArrow),
        ("->", TokenType::Arrow),
        ("==", TokenType::EqualTo),
        ("!=", TokenType::NotEqual),
        ("//", TokenType::SingleLineComment),
        ("%", TokenType::Modulo),
        ("true", TokenType::TrueLiteral),
        ("false", TokenType::FalseLiteral),
        ("null", TokenType::NullLiteral),
        ("\n", TokenType::EOF),
        ("\r", TokenType::EOF),
    ];
    for (text, expected) in cases {
        let item = SplitItem::new(text.to_owned(), TokenPosition::new(0, 0));
        let token = Token::build(item, &opts);
        assert_eq!(token.0, expected);
    }
}

#[test]
fn build_integer_bounds() {
    let opts = nipah_tokenizer::options::default();
    let max = SplitItem::new("9223372036854775807".to_owned(), TokenPosition::new(0, 0));
    assert_eq!(
        Token::build(max, &opts).0,
        TokenType::IntegerLiteral(i64::MAX)
    );
    let over = SplitItem::new("9223372036854775808".to_owned(), TokenPosition::new(0, 0));
    assert_eq!(Token::build(over, &opts).0, TokenType::Unknown);
}

#[test]
fn build_signed_digits_prefer_identifier() {
    // The identifier predicate runs before the integer parse, and it
    // accepts any text whose first character is neither a digit nor an
    // underscore, so sign-prefixed digit strings classify as ids.
    let opts = nipah_tokenizer::options::default();
    let plus = SplitItem::new("+41".to_owned(), TokenPosition::new(0, 0));
    assert_eq!(Token::build(plus, &opts).0, TokenType::Id("+41".to_owned()));
    let min = SplitItem::new("-9223372036854775808".to_owned(), TokenPosition::new(0, 0));
    assert_eq!(
        Token::build(min, &opts).0,
        TokenType::Id("-9223372036854775808".to_owned())
    );
}

#[test]
fn build_float_with_exponent() {
    let item = SplitItem::new("1.5e3".to_owned(), TokenPosition::new(0, 0));
    let token = Token::build(item, &nipah_tokenizer::options::default());
    match token.0 {
        TokenType::FloatLiteral(text) => {
            assert_eq!(text.parse::<f64>().unwrap(), 1500.0);
        }
        other => panic!("expected a float literal, got {:?}", other),
    }
}

#[test]
fn build_unclassifiable_dotted_text() {
    let item = SplitItem::new("1.2.3".to_owned(), TokenPosition::new(0, 0));
    let token = Token::build(item, &nipah_tokenizer::options::default());
    assert_eq!(token.0, TokenType::Unknown);
    assert_eq!(token.1.text, "1.2.3");
}

#[test]
fn build_trailing_f_failure_stays_unknown() {
    let item = SplitItem::new("12x3f".to_owned(), TokenPosition::new(0, 0));
    let token = Token::build(item, &nipah_tokenizer::options::default());
    assert_eq!(token.0, TokenType::Unknown);
}
