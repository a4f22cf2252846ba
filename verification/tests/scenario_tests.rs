use nipah_tokenizer::token::TokenType;
use nipah_tokenizer::tokenizer::{split_string, tokenize};

#[test]
fn scenario_hello_comma_world() {
    let tokens = tokenize("Hello, World!".to_string(), &nipah_tokenizer::options::default());
    assert_eq!(tokens.len(), 3);
    assert_eq!(tokens[0].1.text, "Hello");
    assert_eq!(tokens[1].1.text, "World");
    assert_eq!(tokens[2].1.text, "!");
    assert_eq!(tokens[0].0, TokenType::Id("Hello".to_string()));
    assert_eq!(tokens[1].0, TokenType::Id("World".to_string()));
    assert_eq!(tokens[2].0, TokenType::Exclamation);
}

#[test]
fn scenario_float_aggregation() {
    let tokens = tokenize("My money is: + 1000.0f".to_string(), &nipah_tokenizer::options::default());
    let float = tokens
        .iter()
        .find(|t| matches!(t.0, TokenType::FloatLiteral(_)))
        .expect("a float literal token");
    assert_eq!(float.1.text, "1000.0f");
    match &float.0 {
        TokenType::FloatLiteral(text) => {
            assert_eq!(text.parse::<f64>().unwrap(), 1000.0);
        }
        _ => unreachable!(),
    }
}

#[test]
fn scenario_fat_arrow_fusion() {
    let split = split_string("Hello => World".to_string(), &nipah_tokenizer::options::default());
    assert_eq!(split.len(), 3);
    assert_eq!(split[1].text, "=>");
    let tokens = tokenize("Hello => World".to_string(), &nipah_tokenizer::options::default());
    assert_eq!(tokens[1].0, TokenType::FatArrow);
}

#[test]
fn scenario_quoted_string() {
    let tokens = tokenize("\"Hello World!\"".to_string(), &nipah_tokenizer::options::default());
    assert_eq!(tokens.len(), 1);
    assert_eq!(tokens[0].1.text, "\"Hello World!\"");
    assert_eq!(
        tokens[0].0,
        TokenType::StringLiteral("Hello World!".to_string())
    );
}

#[test]
fn scenario_unrecognized_symbol() {
    let tokens = tokenize("_".to_string(), &nipah_tokenizer::options::default());
    assert_eq!(tokens.len(), 1);
    assert_eq!(tokens[0].0, TokenType::Unknown);
    assert_eq!(tokens[0].1.text, "_");
}
