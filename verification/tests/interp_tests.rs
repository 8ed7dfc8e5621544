use mal::interp::{get_env, handle_int_operation, rep};
use mal::types::{Builtin, MalValue};

fn run(arena: &mut mal::env::EnvArena, line: &str) -> String {
    rep(line.to_string(), arena, 0)
}

#[test]
fn test() {
    let mut env = get_env();

    let line = "(def! a 6)".to_string();
    let result = rep(line, &mut env, 0);
    assert_eq!(result, "6");

    let line = "(def! b (+ a 2))".to_string();
    let result = rep(line, &mut env, 0);
    println!("{}", result);
    assert_eq!(result, "8");
}

#[test]
fn arithmetic_matches_integer_semantics() {
    let mut env = get_env();
    assert_eq!(run(&mut env, "(+ 1 2)"), "3");
    assert_eq!(run(&mut env, "(- 1 2)"), "-1");
    assert_eq!(run(&mut env, "(* 3 4)"), "12");
    assert_eq!(run(&mut env, "(/ 7 2)"), "3");
    assert_eq!(run(&mut env, "(/ -7 2)"), "-3");
    assert_eq!(run(&mut env, "(/ 7 -2)"), "-3");
    assert_eq!(run(&mut env, "(+ 2 (* 3 4))"), "14");
}

#[test]
fn division_by_zero_is_reported() {
    let mut env = get_env();
    assert_eq!(run(&mut env, "(/ 1 0)"), "MalError: division by zero");
}

#[test]
fn arithmetic_overflow_is_reported() {
    let mut env = get_env();
    assert_eq!(
        run(&mut env, "(+ 9223372036854775807 1)"),
        "MalError: integer overflow"
    );
    assert_eq!(
        run(&mut env, "(/ -9223372036854775808 -1)"),
        "MalError: integer overflow"
    );
}

#[test]
fn arithmetic_on_non_integers_is_invalid_args() {
    let mut env = get_env();
    assert_eq!(run(&mut env, "(+ + 2)"), "MalError: invalid args");
    assert_eq!(run(&mut env, "(+ 1)"), "MalError: invalid args");
}

#[test]
fn builtin_ignores_extra_arguments() {
    let r = handle_int_operation(
        Builtin::Add,
        vec![MalValue::Int(1), MalValue::Int(2), MalValue::Int(9)],
    )
    .unwrap();
    assert_eq!(r, MalValue::Int(3));
}

#[test]
fn let_star_binds_sequentially() {
    let mut env = get_env();
    assert_eq!(run(&mut env, "(let* (p 2 q (+ p 2)) (+ p q))"), "6");
}

#[test]
fn let_star_frame_is_discarded() {
    let mut env = get_env();
    assert_eq!(run(&mut env, "(def! x 1)"), "1");
    assert_eq!(run(&mut env, "(let* (x 2) x)"), "2");
    assert_eq!(run(&mut env, "x"), "1");
}

#[test]
fn let_star_ignores_trailing_unpaired_binding() {
    let mut env = get_env();
    assert_eq!(run(&mut env, "(let* (p 2 q) p)"), "2");
}

#[test]
fn let_star_requires_binding_list() {
    let mut env = get_env();
    assert_eq!(run(&mut env, "(let* 5 6)"), "MalError: let* requires binding lists.");
}

#[test]
fn let_star_requires_symbol_keys() {
    let mut env = get_env();
    assert_eq!(run(&mut env, "(let* (5 6) 7)"), "MalError: let* key requires symbol.");
}

#[test]
fn def_rejects_non_symbol_target() {
    let mut env = get_env();
    assert_eq!(run(&mut env, "(def! 5 6)"), "MalError: cannot set as symbol");
}

#[test]
fn def_with_missing_parts_is_reported() {
    let mut env = get_env();
    assert_eq!(run(&mut env, "(def! a)"), "MalError: unexpected");
}

#[test]
fn unbound_symbol_is_not_found() {
    let mut env = get_env();
    assert_eq!(run(&mut env, "z"), "MalError: 'z' is not found");
}

#[test]
fn applying_an_integer_is_not_callable() {
    let mut env = get_env();
    assert_eq!(run(&mut env, "(5 1 2)"), "MalError: do not call; Int(5)");
}

#[test]
fn applying_a_list_result_is_not_callable() {
    let mut env = get_env();
    assert_eq!(run(&mut env, "((+ 1 2) 4)"), "MalError: do not call; Int(3)");
}

#[test]
fn empty_list_evaluates_to_itself() {
    let mut env = get_env();
    assert_eq!(run(&mut env, "()"), "()");
}

#[test]
fn apply_method_rejects_non_function() {
    let e = MalValue::Int(5).apply(vec![]).unwrap_err();
    assert_eq!(e.text, "do not call; Int(5)");
    let e = MalValue::List(vec![MalValue::Int(1)]).apply(vec![]).unwrap_err();
    assert_eq!(e.text, "do not call; List((1))");
}

#[test]
fn get_type_names_every_variant() {
    assert_eq!(MalValue::Nil.get_type(), "Nil");
    assert_eq!(MalValue::Int(0).get_type(), "Int");
    assert_eq!(MalValue::Symbol("s".to_string()).get_type(), "Symbol");
    assert_eq!(MalValue::List(vec![]).get_type(), "List");
    assert_eq!(MalValue::Func(Builtin::Add).get_type(), "Func");
}

#[test]
fn syntax_error_flows_through_rep() {
    let mut env = get_env();
    assert_eq!(
        run(&mut env, "(1 2"),
        "MalError: syntax error; expected ')', but EOR appeared"
    );
}
