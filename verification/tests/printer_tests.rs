use mal::printers::pr_str;
use mal::types::{Builtin, MalValue};

#[test]
fn prints_integers_in_decimal() {
    assert_eq!(pr_str(MalValue::Int(0)), "0");
    assert_eq!(pr_str(MalValue::Int(42)), "42");
    assert_eq!(pr_str(MalValue::Int(-7)), "-7");
    assert_eq!(pr_str(MalValue::Int(i64::MAX)), "9223372036854775807");
    assert_eq!(pr_str(MalValue::Int(i64::MIN)), "-9223372036854775808");
}

#[test]
fn prints_symbols_verbatim() {
    assert_eq!(pr_str(MalValue::Symbol("abc".to_string())), "abc");
}

#[test]
fn prints_lists_space_joined_in_parens() {
    let v = MalValue::List(vec![
        MalValue::Symbol("+".to_string()),
        MalValue::Int(1),
        MalValue::List(vec![MalValue::Int(2), MalValue::Int(3)]),
    ]);
    assert_eq!(pr_str(v), "(+ 1 (2 3))");
    assert_eq!(pr_str(MalValue::List(vec![])), "()");
}

#[test]
fn uncased_variants_print_empty() {
    assert_eq!(pr_str(MalValue::Nil), "");
    assert_eq!(pr_str(MalValue::Func(Builtin::Mul)), "");
}

#[test]
fn method_and_free_function_agree() {
    let v = MalValue::List(vec![MalValue::Int(1), MalValue::Int(2)]);
    assert_eq!(v.pr_str(), pr_str(v.clone()));
}
