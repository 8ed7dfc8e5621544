use crate::env::{
    self, EnvArena, FrameModel, env_lookup, frame_set, not_found_text, set_err_text,
};
use crate::printers;
use crate::reader::{self, unexpected_text};
use crate::types::{
    Args, Builtin, MalError, MalResult, MalValue, Val, apply_spec, lemma_val_size_seq_elem, str_eq,
    val_size,
};
use itertools::Itertools;
use vstd::prelude::*;

verus! {

// ---------------------------------------------------------------------------
// Built-in arithmetic.
// ---------------------------------------------------------------------------

/// Division truncating toward zero, written over Euclidean division on
/// non-negative magnitudes; `d` is expected non-zero.
pub open spec fn trunc_div(x: int, d: int) -> int {
    if x == 0 {
        0
    } else if x > 0 && d > 0 {
        x / d
    } else if x < 0 && d < 0 {
        (x * -1) / (d * -1)
    } else if x < 0 {
        ((x * -1) / d) * -1
    } else {
        (x / (d * -1)) * -1
    }
}

/// The mathematical result of one built-in on two integers.
pub open spec fn op_val(op: Builtin, a: int, b: int) -> int {
    match op {
        Builtin::Add => a + b,
        Builtin::Sub => a - b,
        Builtin::Mul => a * b,
        Builtin::Div => trunc_div(a, b),
    }
}

pub open spec fn invalid_args_text() -> Seq<char> {
    "invalid args"@
}

pub open spec fn div_zero_text() -> Seq<char> {
    "division by zero"@
}

pub open spec fn overflow_text() -> Seq<char> {
    "integer overflow"@
}

/// What a built-in yields on an argument list: the first two arguments must
/// both be integers (extras are ignored), division by zero and a result
/// outside the host integer are reported as errors rather than aborting.
pub open spec fn builtin_spec(op: Builtin, args: Seq<Val>) -> Result<Val, Seq<char>> {
    if args.len() < 2 {
        Err(invalid_args_text())
    } else {
        match (args[0], args[1]) {
            (Val::Int(a), Val::Int(b)) => {
                if op is Div && b == 0 {
                    Err(div_zero_text())
                } else if i64::MIN <= op_val(op, a, b) <= i64::MAX {
                    Ok(Val::Int(op_val(op, a, b)))
                } else {
                    Err(overflow_text())
                }
            },
            _ => Err(invalid_args_text()),
        }
    }
}

/// Runs one built-in on an evaluated argument list.
pub fn handle_int_operation(op: Builtin, args: Args) -> (r: MalResult)
    ensures
        ({
            let am = Seq::new(args@.len(), |i: int| args@[i].model());
            match builtin_spec(op, am) {
                Ok(v) => r matches Ok(x) && x.model() == v,
                Err(t) => r matches Err(e) && e.text@ == t,
            }
        }),
{
    if args.len() < 2 {
        return Err(MalError { text: String::from_str("invalid args") });
    }
    match (&args[0], &args[1]) {
        (MalValue::Int(a), MalValue::Int(b)) => {
            if (matches!(op, Builtin::Div)) && *b == 0 {
                return Err(MalError { text: String::from_str("division by zero") });
            }
            let res = match op {
                Builtin::Add => a.checked_add(*b),
                Builtin::Sub => a.checked_sub(*b),
                Builtin::Mul => a.checked_mul(*b),
                Builtin::Div => a.checked_div(*b),
            };
            match res {
                Some(v) => Ok(MalValue::Int(v)),
                None => Err(MalError { text: String::from_str("integer overflow") }),
            }
        },
        _ => Err(MalError { text: String::from_str("invalid args") }),
    }
}

/// Law: applying a built-in to two in-range integers through generic
/// application yields exactly the mathematical result — ordinary integer
/// arithmetic for `+`, `-` and `*`, truncating division for `/`.
pub proof fn lemma_apply_arith(op: Builtin, a: int, b: int)
    requires
        i64::MIN <= a <= i64::MAX,
        i64::MIN <= b <= i64::MAX,
        b != 0,
        i64::MIN <= op_val(op, a, b) <= i64::MAX,
    ensures
        apply_spec(Val::Func(op), seq![Val::Int(a), Val::Int(b)]) == Ok::<Val, Seq<char>>(
            Val::Int(op_val(op, a, b)),
        ),
{
    let args = seq![Val::Int(a), Val::Int(b)];
    assert(args.len() == 2);
    assert(args[0] == Val::Int(a));
    assert(args[1] == Val::Int(b));
}

// ---------------------------------------------------------------------------
// The evaluator's result, as a function of the expression and the frames.
// ---------------------------------------------------------------------------

pub open spec fn let_key_text() -> Seq<char> {
    "let* key requires symbol."@
}

pub open spec fn let_list_text() -> Seq<char> {
    "let* requires binding lists."@
}

/// Evaluating one expression against frame `e` of the arena model `m`:
/// yields the result (a value or an error message) and the arena model after
/// evaluation, since `def!` and `let*` bind as they go. A form whose shape
/// `def!` or `let*` assumes is missing is reported as an error rather than
/// aborting.
pub open spec fn spec_eval(ast: Val, m: Seq<FrameModel>, e: int) -> (Result<Val, Seq<char>>, Seq<
    FrameModel,
>)
    decreases val_size(ast), 1int, 0int,
    via spec_eval_dec
{
    match ast {
        Val::Nil => (Ok(ast), m),
        Val::Int(_) => (Ok(ast), m),
        Val::Func(_) => (Ok(ast), m),
        Val::Symbol(s) => (
            match env_lookup(m, e, s) {
                Some(v) => Ok(v),
                None => Err(not_found_text(s)),
            },
            m,
        ),
        Val::List(l) => {
            if l.len() == 0 {
                (Ok(ast), m)
            } else if l[0] == Val::Symbol("def!"@) {
                if l.len() < 3 {
                    (Err(unexpected_text()), m)
                } else {
                    let (r2, m2) = spec_eval(l[2], m, e);
                    match r2 {
                        Ok(v) => match l[1] {
                            Val::Symbol(name) => (Ok(v), frame_set(m2, e, name, v)),
                            _ => (Err(set_err_text()), m2),
                        },
                        Err(t) => (Err(t), m2),
                    }
                }
            } else if l[0] == Val::Symbol("let*"@) {
                if l.len() < 3 {
                    (Err(unexpected_text()), m)
                } else {
                    let child = m.len() as int;
                    let m1 = m.push(FrameModel { binds: Map::empty(), outer: Some(e) });
                    match l[1] {
                        Val::List(binds) => {
                            let (rb, m2) = spec_eval_binds(binds, 0, m1, child);
                            match rb {
                                Ok(_) => spec_eval(l[2], m2, child),
                                Err(t) => (Err(t), m2),
                            }
                        },
                        _ => (Err(let_list_text()), m1),
                    }
                }
            } else {
                let (rs, m2) = spec_eval_seq(l, 0, m, e);
                match rs {
                    Ok(vs) => (apply_spec(vs[0], vs.skip(1)), m2),
                    Err(t) => (Err(t), m2),
                }
            }
        },
    }
}

#[via_fn]
proof fn spec_eval_dec(ast: Val, m: Seq<FrameModel>, e: int) {
    match ast {
        Val::List(l) => {
            if l.len() >= 3 {
                lemma_val_size_seq_elem(l, 0, 1);
                lemma_val_size_seq_elem(l, 0, 2);
            }
        },
        _ => {},
    }
}

/// Evaluating the bindings of a `let*`, pair by pair, strictly left to
/// right: each key must be a symbol, each value expression is evaluated in
/// the child frame as already populated so far, and bound there at once.
/// A trailing unpaired element is ignored.
pub open spec fn spec_eval_binds(binds: Seq<Val>, k: int, m: Seq<FrameModel>, child: int) -> (
    Result<(), Seq<char>>,
    Seq<FrameModel>,
)
    decreases val_size(Val::List(binds)), 0int, binds.len() - 2 * k,
    via spec_eval_binds_dec
{
    if k < 0 || 2 * k + 1 >= binds.len() {
        (Ok(()), m)
    } else {
        match binds[2 * k] {
            Val::Symbol(name) => {
                let (r, m2) = spec_eval(binds[2 * k + 1], m, child);
                match r {
                    Ok(v) => spec_eval_binds(binds, k + 1, frame_set(m2, child, name, v), child),
                    Err(t) => (Err(t), m2),
                }
            },
            _ => (Err(let_key_text()), m),
        }
    }
}

#[via_fn]
proof fn spec_eval_binds_dec(binds: Seq<Val>, k: int, m: Seq<FrameModel>, child: int) {
    if 0 <= k && 2 * k + 1 < binds.len() {
        lemma_val_size_seq_elem(binds, 0, 2 * k + 1);
    }
}

/// Evaluating the elements of a list from `k` on, left to right, threading
/// the arena through; the first error wins.
pub open spec fn spec_eval_seq(l: Seq<Val>, k: int, m: Seq<FrameModel>, e: int) -> (Result<
    Seq<Val>,
    Seq<char>,
>, Seq<FrameModel>)
    decreases val_size(Val::List(l)), 0int, l.len() - k,
    via spec_eval_seq_dec
{
    if k < 0 || k >= l.len() {
        (Ok(Seq::empty()), m)
    } else {
        let (r, m2) = spec_eval(l[k], m, e);
        match r {
            Ok(v) => {
                let (rs, m3) = spec_eval_seq(l, k + 1, m2, e);
                match rs {
                    Ok(vs) => (Ok(seq![v] + vs), m3),
                    Err(t) => (Err(t), m3),
                }
            },
            Err(t) => (Err(t), m2),
        }
    }
}

#[via_fn]
proof fn spec_eval_seq_dec(l: Seq<Val>, k: int, m: Seq<FrameModel>, e: int) {
    if 0 <= k < l.len() {
        lemma_val_size_seq_elem(l, 0, k);
    }
}

/// Evaluating a value without special forms: a symbol resolves through the
/// chain, a list has each element evaluated in order, everything else
/// evaluates to itself.
pub open spec fn spec_eval_ast(ast: Val, m: Seq<FrameModel>, e: int) -> (Result<Val, Seq<char>>, Seq<
    FrameModel,
>) {
    match ast {
        Val::Symbol(s) => (
            match env_lookup(m, e, s) {
                Some(v) => Ok(v),
                None => Err(not_found_text(s)),
            },
            m,
        ),
        Val::List(l) => {
            let (rs, m2) = spec_eval_seq(l, 0, m, e);
            (
                match rs {
                    Ok(vs) => Ok(Val::List(vs)),
                    Err(t) => Err(t),
                },
                m2,
            )
        },
        _ => (Ok(ast), m),
    }
}

/// An evaluated list keeps its length.
proof fn lemma_eval_seq_len(l: Seq<Val>, k: int, m: Seq<FrameModel>, e: int)
    requires
        0 <= k <= l.len(),
    ensures
        spec_eval_seq(l, k, m, e).0 matches Ok(vs) ==> vs.len() == l.len() - k,
    decreases l.len() - k,
{
    if k < l.len() {
        let (r, m2) = spec_eval(l[k], m, e);
        if r is Ok {
            lemma_eval_seq_len(l, k + 1, m2, e);
        }
    }
}

/// Law: a symbol bound in no frame of the chain evaluates to the "not
/// found" error naming it, and leaves the frames unchanged.
pub proof fn lemma_unbound_symbol(s: Seq<char>, m: Seq<FrameModel>, e: int)
    requires
        env_lookup(m, e, s) is None,
    ensures
        spec_eval(Val::Symbol(s), m, e) == (Err::<Val, Seq<char>>(not_found_text(s)), m),
{
}

/// Law: evaluating the list `(f a b)` where `f` is a built-in and `a`, `b`
/// are integer literals goes through generic application and yields exactly
/// `op(a, b)` — ordinary integer arithmetic for `+`, `-`, `*`, truncating
/// division for `/` — and leaves the frames unchanged.
pub proof fn lemma_eval_arith(op: Builtin, a: int, b: int, m: Seq<FrameModel>, e: int)
    requires
        i64::MIN <= a <= i64::MAX,
        i64::MIN <= b <= i64::MAX,
        b != 0,
        i64::MIN <= op_val(op, a, b) <= i64::MAX,
    ensures
        spec_eval(Val::List(seq![Val::Func(op), Val::Int(a), Val::Int(b)]), m, e) == (
            Ok::<Val, Seq<char>>(Val::Int(op_val(op, a, b))),
            m,
        ),
{
    let l = seq![Val::Func(op), Val::Int(a), Val::Int(b)];
    assert(l[0] == Val::Func(op));
    assert(!(l[0] == Val::Symbol("def!"@)));
    assert(!(l[0] == Val::Symbol("let*"@)));
    assert(spec_eval(l[0], m, e) == (Ok::<Val, Seq<char>>(Val::Func(op)), m));
    assert(spec_eval(l[1], m, e) == (Ok::<Val, Seq<char>>(Val::Int(a)), m));
    assert(spec_eval(l[2], m, e) == (Ok::<Val, Seq<char>>(Val::Int(b)), m));
    assert(spec_eval_seq(l, 3, m, e) == (Ok::<Seq<Val>, Seq<char>>(Seq::empty()), m));
    assert(spec_eval_seq(l, 2, m, e) == (
        Ok::<Seq<Val>, Seq<char>>(seq![Val::Int(b)] + Seq::empty()),
        m,
    ));
    assert(spec_eval_seq(l, 1, m, e) == (
        Ok::<Seq<Val>, Seq<char>>(seq![Val::Int(a)] + (seq![Val::Int(b)] + Seq::empty())),
        m,
    ));
    let vs = spec_eval_seq(l, 0, m, e).0->Ok_0;
    assert(vs =~= l);
    assert(vs.skip(1) =~= seq![Val::Int(a), Val::Int(b)]);
    lemma_apply_arith(op, a, b);
}

// ---------------------------------------------------------------------------
// The executable evaluator.
// ---------------------------------------------------------------------------

/// Relies on itertools' `tuples()`: it yields the consecutive,
/// non-overlapping pairs of the iterator's items and drops a leftover item.
#[verifier::external_body]
fn pairs_of(v: &Vec<MalValue>) -> (r: Vec<(MalValue, MalValue)>)
    ensures
        r@.len() == v@.len() / 2,
        forall|i: int|
            0 <= i < r@.len() ==> (#[trigger] r@[i]).0.model() == v@[2 * i].model()
                && r@[i].1.model() == v@[2 * i + 1].model(),
{
    v.iter().cloned().tuples::<(_, _)>().collect()
}

/// Evaluates symbols and list elements; the non-special-form half of the
/// evaluator.
pub fn eval_ast(ast: MalValue, arena: &mut EnvArena, e: usize) -> (r: MalResult)
    requires
        old(arena).inv(),
        (e as int) < old(arena).frames@.len(),
    ensures
        final(arena).inv(),
        old(arena).frames@.len() <= final(arena).frames@.len(),
        ({
            let (res, m2) = spec_eval_ast(ast.model(), old(arena).model(), e as int);
            &&& final(arena).model() == m2
            &&& match res {
                Ok(v) => r matches Ok(x) && x.model() == v && (ast is List ==> x is List),
                Err(t) => r matches Err(err) && err.text@ == t,
            }
        }),
    decreases val_size(ast.model()), 0int, 0int,
{
    match ast {
        MalValue::Symbol(s) => {
            let key = MalValue::Symbol(s);
            env::get(arena, e, &key)
        },
        MalValue::List(l) => {
            let ghost lm = MalValue::List(l).model()->List_0;
            let ghost m0 = arena.model();
            proof {
                assert(lm.len() == l@.len());
                assert(forall|q: int| 0 <= q < l@.len() ==> lm[q] == l@[q].model());
            }
            let mut args: Args = Vec::new();
            let mut j: usize = 0;
            while j < l.len()
                invariant
                    arena.inv(),
                    (e as int) < arena.frames@.len(),
                    m0.len() <= arena.model().len(),
                    m0 == old(arena).model(),
                    old(arena).frames@.len() <= arena.frames@.len(),
                    ast.model() == Val::List(lm),
                    j <= l@.len(),
                    lm.len() == l@.len(),
                    forall|q: int| 0 <= q < l@.len() ==> lm[q] == l@[q].model(),
                    args@.len() == j,
                    ({
                        let done = Seq::new(args@.len(), |q: int| args@[q].model());
                        match spec_eval_seq(lm, j as int, arena.model(), e as int) {
                            (Ok(vs), mx) => spec_eval_seq(lm, 0, m0, e as int) == (
                                Ok::<Seq<Val>, Seq<char>>(done + vs),
                                mx,
                            ),
                            (Err(t), mx) => spec_eval_seq(lm, 0, m0, e as int) == (
                                Err::<Seq<Val>, Seq<char>>(t),
                                mx,
                            ),
                        }
                    }),
                decreases l@.len() - j,
            {
                let ghost done = Seq::new(args@.len(), |q: int| args@[q].model());
                let ghost mcur = arena.model();
                proof {
                    lemma_val_size_seq_elem(lm, 0, j as int);
                }
                let item = l[j].clone();
                match eval(Ok(item), arena, e) {
                    Ok(v) => {
                        args.push(v);
                        proof {
                            let v0 = spec_eval(lm[j as int], mcur, e as int).0->Ok_0;
                            let done2 = Seq::new(args@.len(), |q: int| args@[q].model());
                            assert(done2 =~= done.push(v0));
                            match spec_eval_seq(lm, j as int + 1, arena.model(), e as int) {
                                (Ok(vs), mx) => {
                                    assert(spec_eval_seq(lm, j as int, mcur, e as int) == (
                                        Ok::<Seq<Val>, Seq<char>>(seq![v0] + vs),
                                        mx,
                                    ));
                                    assert(done + (seq![v0] + vs) =~= done2 + vs);
                                },
                                (Err(t), mx) => {
                                    assert(spec_eval_seq(lm, j as int, mcur, e as int) == (
                                        Err::<Seq<Val>, Seq<char>>(t),
                                        mx,
                                    ));
                                },
                            }
                        }
                    },
                    Err(err) => {
                        proof {
                            let t = spec_eval(lm[j as int], mcur, e as int).0->Err_0;
                            assert(spec_eval_seq(lm, j as int, mcur, e as int) == (
                                Err::<Seq<Val>, Seq<char>>(t),
                                arena.model(),
                            ));
                        }
                        return Err(err);
                    },
                }
                j += 1;
            }
            let ghost done = Seq::new(args@.len(), |q: int| args@[q].model());
            let r = MalValue::List(args);
            proof {
                assert(spec_eval_seq(lm, j as int, arena.model(), e as int) == (
                    Ok::<Seq<Val>, Seq<char>>(Seq::empty()),
                    arena.model(),
                ));
                assert(done + Seq::<Val>::empty() =~= done);
                let u = r.model()->List_0;
                assert(u.len() == done.len());
                assert forall|q: int| 0 <= q < u.len() implies u[q] == done[q] by {}
                assert(u =~= done);
            }
            Ok(r)
        },
        other => {
            proof {
                assert(!(other is List));
                assert(match other.model() {
                    Val::Symbol(_) => false,
                    Val::List(_) => false,
                    _ => true,
                });
            }
            Ok(other)
        },
    }
}

/// Evaluates one expression against frame `e`: special forms `def!` and
/// `let*` are recognized before anything is evaluated; any other non-empty
/// list is evaluated element-wise and applied.
pub fn eval(input: MalResult, arena: &mut EnvArena, e: usize) -> (r: MalResult)
    requires
        old(arena).inv(),
        (e as int) < old(arena).frames@.len(),
    ensures
        final(arena).inv(),
        old(arena).frames@.len() <= final(arena).frames@.len(),
        match input {
            Ok(ast) => ({
                let (res, m2) = spec_eval(ast.model(), old(arena).model(), e as int);
                &&& final(arena).model() == m2
                &&& match res {
                    Ok(v) => r matches Ok(x) && x.model() == v,
                    Err(t) => r matches Err(err) && err.text@ == t,
                }
            }),
            Err(err0) => r matches Err(err) && err.text@ == err0.text@ && final(arena).model()
                == old(arena).model(),
        },
    decreases (match input {
        Ok(v) => val_size(v.model()),
        Err(_) => 0nat,
    }), 1int, 0int,
{
    let ast = match input {
        Ok(a) => a,
        Err(err) => {
            return Err(err);
        },
    };
    let is_list = matches!(&ast, MalValue::List(_));
    if !is_list {
        return eval_ast(ast, arena, e);
    }
    match ast {
        MalValue::List(l) => {
            let ghost lm = MalValue::List(l).model()->List_0;
            let ghost m0 = arena.model();
            proof {
                assert(lm.len() == l@.len());
                assert(forall|q: int| 0 <= q < l@.len() ==> lm[q] == l@[q].model());
            }
            if l.len() == 0 {
                let r = MalValue::List(l);
                proof {
                    assert(r.model()->List_0 =~= lm);
                }
                return Ok(r);
            }
            proof {
                reveal_strlit("def!");
                reveal_strlit("let*");
            }
            let head_def = match &l[0] {
                MalValue::Symbol(s) => str_eq(s.as_str(), "def!"),
                _ => false,
            };
            let head_let = match &l[0] {
                MalValue::Symbol(s) => str_eq(s.as_str(), "let*"),
                _ => false,
            };
            proof {
                assert(head_def == (lm[0] == Val::Symbol("def!"@)));
                assert(head_let == (lm[0] == Val::Symbol("let*"@)));
            }
            if head_def {
                if l.len() < 3 {
                    return Err(MalError { text: String::from_str("unexpected") });
                }
                proof {
                    lemma_val_size_seq_elem(lm, 0, 2);
                }
                let value = match eval(Ok(l[2].clone()), arena, e) {
                    Ok(v) => v,
                    Err(err) => {
                        return Err(err);
                    },
                };
                env::set(arena, e, l[1].clone(), value)
            } else if head_let {
                if l.len() < 3 {
                    return Err(MalError { text: String::from_str("unexpected") });
                }
                let child = env::new(arena, Some(e));
                let ghost m1 = arena.model();
                match l[1].clone() {
                    MalValue::List(binds) => {
                        let ghost bm = MalValue::List(binds).model()->List_0;
                        proof {
                            assert(lm[1] == Val::List(bm));
                            assert(bm.len() == binds@.len());
                            assert(forall|q: int|
                                0 <= q < binds@.len() ==> bm[q] == binds@[q].model());
                        }
                        let pairs = pairs_of(&binds);
                        let mut idx: usize = 0;
                        proof {
                            assert(arena.model().len() == arena.frames@.len());
                            assert(m1 == m0.push(
                                FrameModel { binds: Map::empty(), outer: Some(e as int) },
                            ));
                        }
                        while idx < pairs.len()
                            invariant
                                arena.inv(),
                                input matches Ok(a) && a.model() == Val::List(lm),
                                m0 == old(arena).model(),
                                lm.len() >= 3,
                                lm[0] == Val::Symbol("let*"@),
                                !(lm[0] == Val::Symbol("def!"@)),
                                lm[1] == Val::List(bm),
                                (child as int) == m0.len(),
                                m1 == m0.push(
                                    FrameModel { binds: Map::empty(), outer: Some(e as int) },
                                ),
                                (e as int) < arena.frames@.len(),
                                (child as int) < arena.frames@.len(),
                                old(arena).frames@.len() <= arena.frames@.len(),
                                bm.len() == binds@.len(),
                                forall|q: int|
                                    0 <= q < binds@.len() ==> bm[q] == binds@[q].model(),
                                pairs@.len() == binds@.len() / 2,
                                forall|q: int|
                                    0 <= q < pairs@.len() ==> (#[trigger] pairs@[q]).0.model()
                                        == bm[2 * q] && pairs@[q].1.model() == bm[2 * q + 1],
                                idx <= pairs@.len(),
                                spec_eval_binds(bm, 0, m1, child as int) == spec_eval_binds(
                                    bm,
                                    idx as int,
                                    arena.model(),
                                    child as int,
                                ),
                            decreases pairs@.len() - idx,
                        {
                            let ghost mcur = arena.model();
                            proof {
                                assert(2 * idx + 1 < bm.len());
                                lemma_val_size_seq_elem(bm, 0, 2 * idx as int + 1);
                                lemma_val_size_seq_elem(lm, 0, 1);
                                assert(val_size(bm[2 * idx as int + 1]) < val_size(
                                    Val::List(bm),
                                ));
                                assert(val_size(Val::List(bm)) == val_size(lm[1]));
                                assert(val_size(lm[1]) < val_size(Val::List(lm)));
                            }
                            let b = pairs[idx].0.clone();
                            let ex = pairs[idx].1.clone();
                            match &b {
                                MalValue::Symbol(_) => {
                                    let v = match eval(Ok(ex), arena, child) {
                                        Ok(v) => v,
                                        Err(err) => {
                                            return Err(err);
                                        },
                                    };
                                    let _ = env::set(arena, child, b, v);
                                    proof {
                                        assert(arena.model().len() == arena.frames@.len());
                                    }
                                },
                                _ => {
                                    return Err(
                                        MalError {
                                            text: String::from_str("let* key requires symbol."),
                                        },
                                    );
                                },
                            }
                            idx += 1;
                        }
                        proof {
                            assert(2 * idx + 1 >= bm.len());
                            assert(spec_eval_binds(bm, idx as int, arena.model(), child as int)
                                == (Ok::<(), Seq<char>>(()), arena.model()));
                            lemma_val_size_seq_elem(lm, 0, 2);
                        }
                        eval(Ok(l[2].clone()), arena, child)
                    },
                    other => {
                        proof {
                            assert(lm[1] == other.model());
                            assert(!(lm[1] is List));
                        }
                        Err(MalError { text: String::from_str("let* requires binding lists.") })
                    },
                }
            } else {
                let evaluated = match eval_ast(MalValue::List(l), arena, e) {
                    Ok(v) => v,
                    Err(err) => {
                        return Err(err);
                    },
                };
                match evaluated {
                    MalValue::List(leaves) => {
                        proof {
                            lemma_eval_seq_len(lm, 0, m0, e as int);
                            assert(leaves@.len() == lm.len());
                            assert(leaves@.len() >= 1);
                        }
                        let mut tail: Args = Vec::new();
                        let mut j: usize = 1;
                        while j < leaves.len()
                            invariant
                                1 <= j <= leaves@.len(),
                                tail@.len() == j - 1,
                                forall|q: int|
                                    0 <= q < tail@.len() ==> (#[trigger] tail@[q].model())
                                        == leaves@[q + 1].model(),
                            decreases leaves@.len() - j,
                        {
                            tail.push(leaves[j].clone());
                            j += 1;
                        }
                        let out = leaves[0].apply(tail);
                        proof {
                            let vs = spec_eval_seq(lm, 0, m0, e as int).0->Ok_0;
                            let tm = Seq::new(tail@.len(), |i: int| tail@[i].model());
                            assert(Seq::new(leaves@.len(), |i: int| leaves@[i].model())
                                =~= vs);
                            assert(leaves@[0].model() == vs[0]);
                            assert(tm =~= vs.skip(1));
                        }
                        out
                    },
                    other => {
                        proof {
                            assert(other.model() is List);
                            assert(match other {
                                MalValue::Nil => other.model() is Nil,
                                MalValue::Int(_) => other.model() is Int,
                                MalValue::Symbol(_) => other.model() is Symbol,
                                MalValue::List(_) => true,
                                MalValue::Func(_) => other.model() is Func,
                            });
                            assert(false);
                        }
                        Err(MalError { text: String::from_str("unexpected") })
                    },
                }
            }
        },
        other => {
            proof {
                assert(false);
            }
            Err(MalError { text: String::from_str("unexpected") })
        },
    }
}

// ---------------------------------------------------------------------------
// The surrounding read–eval–print pipeline.
// ---------------------------------------------------------------------------

/// The global frame: the four arithmetic built-ins bound in a single root
/// frame with no outer link.
pub fn get_env() -> (arena: EnvArena)
    ensures
        arena.inv(),
        arena.model().len() == 1,
        arena.model()[0].outer is None,
        arena.model()[0].binds == Map::<Seq<char>, Val>::empty().insert(
            "+"@,
            Val::Func(Builtin::Add),
        ).insert("-"@, Val::Func(Builtin::Sub)).insert("*"@, Val::Func(Builtin::Mul)).insert(
            "/"@,
            Val::Func(Builtin::Div),
        ),
{
    let mut arena = EnvArena { frames: Vec::new() };
    proof {
        assert(arena.model() =~= Seq::<FrameModel>::empty());
        assert(arena.inv());
    }
    let root = env::new(&mut arena, None);
    proof {
        assert(arena.model().len() == arena.frames@.len());
    }
    let _ = env::set(
        &mut arena,
        root,
        MalValue::Symbol(String::from_str("+")),
        MalValue::Func(Builtin::Add),
    );
    proof {
        assert(arena.model().len() == arena.frames@.len());
    }
    let _ = env::set(
        &mut arena,
        root,
        MalValue::Symbol(String::from_str("-")),
        MalValue::Func(Builtin::Sub),
    );
    proof {
        assert(arena.model().len() == arena.frames@.len());
    }
    let _ = env::set(
        &mut arena,
        root,
        MalValue::Symbol(String::from_str("*")),
        MalValue::Func(Builtin::Mul),
    );
    proof {
        assert(arena.model().len() == arena.frames@.len());
    }
    let _ = env::set(
        &mut arena,
        root,
        MalValue::Symbol(String::from_str("/")),
        MalValue::Func(Builtin::Div),
    );
    arena
}

/// Reads one whole input line into a value tree.
pub fn read(input: String) -> (r: MalResult)
    ensures
        match reader::spec_read_str(input@) {
            Ok(v) => r matches Ok(val) && val.model() == v,
            Err(t) => r matches Err(e) && e.text@ == t,
        },
{
    reader::read_str(&input)
}

/// Renders a result: a value through the printer, an error through its
/// message.
pub fn print(input: MalResult) -> (out: String)
    ensures
        match input {
            Ok(v) => out@ == printers::pr_spec(v.model()),
            Err(e) => out@ == "MalError: "@ + e.text@,
        },
{
    match input {
        Ok(value) => printers::pr_str(value),
        Err(err) => String::from_str("MalError: ").concat(err.text.as_str()),
    }
}

/// One read–eval–print cycle over a line of input against frame `e`.
pub fn rep(input: String, arena: &mut EnvArena, e: usize) -> (out: String)
    requires
        old(arena).inv(),
        (e as int) < old(arena).frames@.len(),
    ensures
        final(arena).inv(),
        old(arena).frames@.len() <= final(arena).frames@.len(),
        match reader::spec_read_str(input@) {
            Ok(v) => ({
                let (res, m2) = spec_eval(v, old(arena).model(), e as int);
                &&& final(arena).model() == m2
                &&& out@ == (match res {
                    Ok(v2) => printers::pr_spec(v2),
                    Err(t) => "MalError: "@ + t,
                })
            }),
            Err(t) => out@ == "MalError: "@ + t && final(arena).model() == old(arena).model(),
        },
{
    let read_result = read(input);
    let eval_result = eval(read_result, arena, e);
    let print_result = print(eval_result);
    print_result
}

} // verus!
