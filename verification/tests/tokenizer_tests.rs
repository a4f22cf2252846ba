use nipah_tokenizer::token::TokenType;
use nipah_tokenizer::tokenizer::{apply_aggregators, split_string, tokenize};

#[test]
fn test_split_string() {
    let text = "Hello World!".to_string();
    let split = split_string(text, &nipah_tokenizer::options::default());
    assert_eq!(split.len(), 3);
    assert_eq!(split[0].text, "Hello");
    assert_eq!(split[1].text, "World");
    assert_eq!(split[2].text, "!");
}

#[test]
fn test_split_string_scoped() {
    let text = "\"Hello World!\"".to_string();
    let split = split_string(text, &nipah_tokenizer::options::default());
    assert_eq!(split.len(), 1);
    assert_eq!(split[0].text, "\"Hello World!\"");
}

#[test]
fn test_split_string_scoped_with_escape() {
    let text = "\"Hello World!\nYeah!\"".to_string();
    let split = split_string(text, &nipah_tokenizer::options::default());
    assert_eq!(split.len(), 1);
    assert_eq!(split[0].text, "\"Hello World!\nYeah!\"");
}

#[test]
fn test_split_with_aggregators() {
    let text = "Hello => World".to_string();
    let split = split_string(text, &nipah_tokenizer::options::default());
    assert_eq!(split.len(), 3);
    assert_eq!(split[0].text, "Hello");
    assert_eq!(split[1].text, "=>");
    assert_eq!(split[2].text, "World");
}

#[test]
fn test_split_with_aggregators_at_begin() {
    let text = "=> Hello World".to_string();
    let split = split_string(text, &nipah_tokenizer::options::default());
    assert_eq!(split.len(), 3);
    assert_eq!(split[0].text, "=>");
    assert_eq!(split[1].text, "Hello");
    assert_eq!(split[2].text, "World");
}

#[test]
fn test_split_with_aggregators_at_end() {
    let text = "Hello World =>".to_string();
    let split = split_string(text, &nipah_tokenizer::options::default());
    assert_eq!(split.len(), 3);
    assert_eq!(split[0].text, "Hello");
    assert_eq!(split[1].text, "World");
    assert_eq!(split[2].text, "=>");
}

// Tokenizer
#[test]
fn can_tokenize() {
    let text = "Hello World!".to_string();
    let tokens = tokenize(text, &nipah_tokenizer::options::default());
    assert_eq!(tokens.len(), 3);
    assert_eq!(tokens[0].1.text, "Hello");
    assert_eq!(tokens[1].1.text, "World");
    assert_eq!(tokens[2].1.text, "!");
    assert_eq!(tokens[0].0, TokenType::Id("Hello".to_string()));
    assert_eq!(tokens[1].0, TokenType::Id("World".to_string()));
    assert_eq!(tokens[2].0, TokenType::Exclamation);
}

#[test]
fn tokenize_empty_input() {
    let tokens = tokenize(String::new(), &nipah_tokenizer::options::default());
    assert_eq!(tokens.len(), 0);
}

#[test]
fn split_translates_escapes() {
    let split = split_string("a\\tb".to_string(), &nipah_tokenizer::options::default());
    assert_eq!(split.len(), 1);
    assert_eq!(split[0].text, "a\tb");
}

#[test]
fn split_drops_trailing_backslash() {
    let split = split_string("ab\\".to_string(), &nipah_tokenizer::options::default());
    assert_eq!(split.len(), 1);
    assert_eq!(split[0].text, "ab");
}

#[test]
fn split_handles_unterminated_scope() {
    let split = split_string("\"Hello".to_string(), &nipah_tokenizer::options::default());
    assert_eq!(split.len(), 1);
    assert_eq!(split[0].text, "\"Hello");
}

#[test]
fn tokenize_tracks_lines_and_columns() {
    let tokens = tokenize("a\nb".to_string(), &nipah_tokenizer::options::default());
    assert_eq!(tokens.len(), 3);
    assert_eq!(tokens[1].0, TokenType::EOF);
    assert_eq!(tokens[0].1.position.line, 0);
    assert_eq!(tokens[2].1.position.line, 1);
    assert_eq!(tokens[2].1.position.position, 1);
}

#[test]
fn tokenize_reconstructs_discard_free_text() {
    // Concatenating the token texts gives back the input with the
    // discard-mode separators (here the blanks) removed.
    let tokens = tokenize("My money is: + 1000.0f".to_string(), &nipah_tokenizer::options::default());
    let joined: String = tokens.iter().map(|t| t.1.text.as_str()).collect();
    assert_eq!(joined, "Mymoneyis:+1000.0f");
}

#[test]
fn aggregator_pass_stable_on_split_output() {
    // A split result is a fixed point: one more pass changes nothing.
    let options = nipah_tokenizer::options::default();
    let split = split_string("Hello => World".to_string(), &options);
    let (again, changed) = apply_aggregators(&split, &options.split_aggregators);
    assert!(!changed);
    assert_eq!(again, split);
}

#[test]
fn split_positions_monotone_on_one_line() {
    let split = split_string("a == b -> c != d".to_string(), &nipah_tokenizer::options::default());
    assert!(split.len() > 1);
    for w in split.windows(2) {
        assert_eq!(w[0].position.line, w[1].position.line);
        assert!(w[0].position.position <= w[1].position.position);
    }
}

#[test]
fn split_rejects_malformed_numeric_runs() {
    // `f2` fails the third numeric predicate (only a trailing f is
    // accepted), so the run is not fused.
    let split = split_string("5 . f2".to_string(), &nipah_tokenizer::options::default());
    assert_eq!(split.len(), 3);
    assert_eq!(split[0].text, "5");
    assert_eq!(split[1].text, ".");
    assert_eq!(split[2].text, "f2");
}

#[test]
fn split_fuses_signed_float_in_stages() {
    // First pass: `-` + `5` fuse by the negative-number rule; second
    // pass: `-5` + `.` + `5f` fuse by the numeric-float rule.
    let split = split_string("- 5.5f".to_string(), &nipah_tokenizer::options::default());
    assert_eq!(split.len(), 1);
    assert_eq!(split[0].text, "-5.5f");
}

#[test]
fn tokenize_fuses_negative_numbers() {
    let tokens = tokenize("x = -5".to_string(), &nipah_tokenizer::options::default());
    assert_eq!(tokens.len(), 3);
    // The two-step negative-number rule fuses `-` and `5` into one
    // fragment; the identifier predicate then claims the fused text.
    assert_eq!(tokens[2].1.text, "-5");
    assert_eq!(tokens[2].0, TokenType::Id("-5".to_string()));
}
