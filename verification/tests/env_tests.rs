use mal::env::EnvArena;
use mal::types::MalValue;

fn sym(s: &str) -> MalValue {
    MalValue::Symbol(s.to_string())
}

#[test]
fn set_then_get_round_trip() {
    let mut arena = EnvArena { frames: vec![] };
    let root = mal::env::new(&mut arena, None);
    let stored = mal::env::set(&mut arena, root, sym("x"), MalValue::Int(42)).unwrap();
    assert_eq!(stored, MalValue::Int(42));
    let got = mal::env::get(&arena, root, &sym("x")).unwrap();
    assert_eq!(got, MalValue::Int(42));
}

#[test]
fn set_overwrites_in_place() {
    let mut arena = EnvArena { frames: vec![] };
    let root = mal::env::new(&mut arena, None);
    let _ = mal::env::set(&mut arena, root, sym("x"), MalValue::Int(1)).unwrap();
    let _ = mal::env::set(&mut arena, root, sym("x"), MalValue::Int(2)).unwrap();
    let got = mal::env::get(&arena, root, &sym("x")).unwrap();
    assert_eq!(got, MalValue::Int(2));
}

#[test]
fn set_rejects_non_symbol_key() {
    let mut arena = EnvArena { frames: vec![] };
    let root = mal::env::new(&mut arena, None);
    let e = mal::env::set(&mut arena, root, MalValue::Int(1), MalValue::Int(2)).unwrap_err();
    assert_eq!(e.text, "cannot set as symbol");
}

#[test]
fn child_resolves_outward_then_shadows() {
    let mut arena = EnvArena { frames: vec![] };
    let parent = mal::env::new(&mut arena, None);
    let child = mal::env::new(&mut arena, Some(parent));
    let _ = mal::env::set(&mut arena, parent, sym("x"), MalValue::Int(7)).unwrap();
    let got = mal::env::get(&arena, child, &sym("x")).unwrap();
    assert_eq!(got, MalValue::Int(7));
    let _ = mal::env::set(&mut arena, child, sym("x"), MalValue::Int(9)).unwrap();
    let got = mal::env::get(&arena, child, &sym("x")).unwrap();
    assert_eq!(got, MalValue::Int(9));
    let parent_view = mal::env::get(&arena, parent, &sym("x")).unwrap();
    assert_eq!(parent_view, MalValue::Int(7));
}

#[test]
fn find_names_the_holding_frame() {
    let mut arena = EnvArena { frames: vec![] };
    let parent = mal::env::new(&mut arena, None);
    let child = mal::env::new(&mut arena, Some(parent));
    let _ = mal::env::set(&mut arena, parent, sym("x"), MalValue::Int(7)).unwrap();
    assert_eq!(mal::env::find(&arena, child, "x"), Some(parent));
    assert_eq!(mal::env::find(&arena, child, "y"), None);
    let _ = mal::env::set(&mut arena, child, sym("x"), MalValue::Int(9)).unwrap();
    assert_eq!(mal::env::find(&arena, child, "x"), Some(child));
}

#[test]
fn get_unbound_symbol_is_not_found() {
    let mut arena = EnvArena { frames: vec![] };
    let root = mal::env::new(&mut arena, None);
    let e = mal::env::get(&arena, root, &sym("z")).unwrap_err();
    assert_eq!(e.text, "'z' is not found");
}

#[test]
fn get_rejects_non_symbol_key() {
    let mut arena = EnvArena { frames: vec![] };
    let root = mal::env::new(&mut arena, None);
    let e = mal::env::get(&arena, root, &MalValue::Int(3)).unwrap_err();
    assert_eq!(e.text, "unexpected");
}
