use nipah_tokenizer::options::{default_try_id, is_numeric, is_numeric_accept_float};

#[test]
fn try_default_id_ok() {
    let id = "hello_world".to_string();
    assert!(default_try_id(&id));
}

#[test]
fn try_default_id_fail() {
    let id = "1hello_world".to_string();
    assert!(!default_try_id(&id));
}

#[test]
fn try_default_id_rejects_underscore_start() {
    assert!(!default_try_id("_hidden"));
    assert!(!default_try_id(""));
}

#[test]
fn try_default_id_allows_dots() {
    assert!(default_try_id("a.b.c"));
    assert!(!default_try_id("a-b"));
}

#[test]
fn numeric_matcher_accepts_digits() {
    assert!(is_numeric("1000", false));
    assert!(!is_numeric("10f", false));
    assert!(is_numeric("10f", true));
    assert!(!is_numeric("10x", true));
}

#[test]
fn numeric_matcher_demands_shape() {
    // One or more digits, one optional leading minus, one optional
    // trailing f: nothing looser.
    assert!(!is_numeric("", false));
    assert!(!is_numeric("", true));
    assert!(is_numeric("-10", false));
    assert!(!is_numeric("-", false));
    assert!(!is_numeric("1-0", false));
    assert!(!is_numeric("f10", true));
    assert!(!is_numeric("1f0", true));
    assert!(!is_numeric("10ff", true));
    assert!(!is_numeric("-f", true));
}

#[test]
fn numeric_float_matcher_accepts_one_dot() {
    assert!(is_numeric_accept_float("10.5f"));
    assert!(is_numeric_accept_float("105"));
    assert!(!is_numeric_accept_float("1.2.3"));
    assert!(!is_numeric_accept_float("-5"));
}

#[test]
fn numeric_float_matcher_demands_shape() {
    // One or more digits, at most one dot embedded between digits,
    // one optional trailing f: nothing looser.
    assert!(!is_numeric_accept_float(""));
    assert!(!is_numeric_accept_float("f"));
    assert!(!is_numeric_accept_float("f5"));
    assert!(!is_numeric_accept_float("5f5"));
    assert!(!is_numeric_accept_float("5."));
    assert!(!is_numeric_accept_float(".5"));
    assert!(!is_numeric_accept_float("5.f"));
    assert!(is_numeric_accept_float("5"));
    assert!(is_numeric_accept_float("5f"));
    assert!(is_numeric_accept_float("5.5"));
}
