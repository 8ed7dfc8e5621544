use mal::reader::{read_str, tokenize};
use mal::types::MalValue;

#[test]
fn tokenize_simple_form() {
    let toks = tokenize(&"(+ 1 2)".to_string());
    assert_eq!(toks, vec!["(", "+", "1", "2", ")"]);
}

#[test]
fn tokenize_empty_input() {
    let toks = tokenize(&"".to_string());
    assert!(toks.is_empty());
}

#[test]
fn tokenize_drops_comments() {
    let toks = tokenize(&"1 ; a comment\n2".to_string());
    assert_eq!(toks, vec!["1", "2"]);
}

#[test]
fn tokenize_splice_unquote_is_one_token() {
    let toks = tokenize(&"~@x".to_string());
    assert_eq!(toks, vec!["~@", "x"]);
}

#[test]
fn tokenize_string_token_keeps_quotes() {
    let toks = tokenize(&"\"ab c\" d".to_string());
    assert_eq!(toks, vec!["\"ab c\"", "d"]);
}

#[test]
fn tokenize_unterminated_string_best_effort() {
    let toks = tokenize(&"\"abc".to_string());
    assert_eq!(toks, vec!["\"abc"]);
}

#[test]
fn tokenize_escaped_quote_stays_inside() {
    let toks = tokenize(&"\"a\\\"b\"".to_string());
    assert_eq!(toks, vec!["\"a\\\"b\""]);
}

#[test]
fn tokenize_commas_are_separators() {
    let toks = tokenize(&"(1,,2)".to_string());
    assert_eq!(toks, vec!["(", "1", "2", ")"]);
}

#[test]
fn read_str_simple_form() {
    let v = read_str(&"(+ 1 2)".to_string()).unwrap();
    assert_eq!(
        v,
        MalValue::List(vec![
            MalValue::Symbol("+".to_string()),
            MalValue::Int(1),
            MalValue::Int(2),
        ])
    );
}

#[test]
fn read_str_unterminated_list_is_syntax_error() {
    let e = read_str(&"(1 2".to_string()).unwrap_err();
    assert_eq!(e.text, "syntax error; expected ')', but EOR appeared");
}

#[test]
fn read_str_empty_input_is_unexpected() {
    let e = read_str(&"".to_string()).unwrap_err();
    assert_eq!(e.text, "unexpected");
}

#[test]
fn read_str_negative_integer() {
    let v = read_str(&"-42".to_string()).unwrap();
    assert_eq!(v, MalValue::Int(-42));
}

#[test]
fn read_str_minimum_integer() {
    let v = read_str(&"-9223372036854775808".to_string()).unwrap();
    assert_eq!(v, MalValue::Int(i64::MIN));
}

#[test]
fn read_str_integer_too_large_is_error() {
    let e = read_str(&"9223372036854775808".to_string()).unwrap_err();
    assert_eq!(e.text, "integer literal does not fit");
}

#[test]
fn read_str_lone_closer_is_a_symbol() {
    let v = read_str(&")".to_string()).unwrap();
    assert_eq!(v, MalValue::Symbol(")".to_string()));
}

#[test]
fn read_str_reads_only_first_form() {
    let v = read_str(&"1 2".to_string()).unwrap();
    assert_eq!(v, MalValue::Int(1));
}

#[test]
fn read_str_nested_lists() {
    let v = read_str(&"(a (b 1) ())".to_string()).unwrap();
    assert_eq!(
        v,
        MalValue::List(vec![
            MalValue::Symbol("a".to_string()),
            MalValue::List(vec![MalValue::Symbol("b".to_string()), MalValue::Int(1)]),
            MalValue::List(vec![]),
        ])
    );
}

#[test]
fn read_str_empty_list() {
    let v = read_str(&"()".to_string()).unwrap();
    assert_eq!(v, MalValue::List(vec![]));
}
