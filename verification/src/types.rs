use vstd::prelude::*;

verus! {

/// A built-in operation. The language's only functions are the four integer
/// arithmetic primitives; a `Func` value names one of them. Keeping them as a
/// closed enum (rather than a bare function pointer) keeps the value variant
/// set closed and exhaustively matchable at every consumer.
#[derive(Clone, Copy, Debug, PartialEq, Eq, Structural)]
pub enum Builtin {
    Add,
    Sub,
    Mul,
    Div,
}

/// One datum of the language: the closed tagged union over everything an
/// expression can denote, both as syntax (from the reader) and as a result
/// (from the evaluator).
#[derive(Debug, PartialEq)]
pub enum MalValue {
    Nil,
    Int(i64),
    Symbol(String),
    List(Vec<MalValue>),
    Func(Builtin),
}

/// The single flat error kind: a human-readable message, nothing structured.
#[derive(Debug)]
pub struct MalError {
    pub text: String,
}

pub type Args = Vec<MalValue>;

pub type MalResult = Result<MalValue, MalError>;

/// The mathematical model of a value: the same tree, with machine integers
/// widened to `int` and strings viewed as `Seq<char>`. Contracts speak of
/// values through this model.
#[verifier::ext_equal]
pub enum Val {
    Nil,
    Int(int),
    Symbol(Seq<char>),
    List(Seq<Val>),
    Func(Builtin),
}

impl MalValue {
    pub open spec fn model(self) -> Val
        decreases self,
    {
        match self {
            MalValue::Nil => Val::Nil,
            MalValue::Int(i) => Val::Int(i as int),
            MalValue::Symbol(s) => Val::Symbol(s@),
            MalValue::List(l) => Val::List(
                Seq::new(
                    l@.len(),
                    |i: int|
                        if 0 <= i < l@.len() {
                            l@[i].model()
                        } else {
                            Val::Nil
                        },
                ),
            ),
            MalValue::Func(op) => Val::Func(op),
        }
    }
}

impl Clone for MalValue {
    /// A deep copy, with the same model as the value it copies.
    fn clone(&self) -> (r: Self)
        ensures
            r.model() == self.model(),
        decreases val_size(self.model()),
    {
        match self {
            MalValue::Nil => MalValue::Nil,
            MalValue::Int(i) => MalValue::Int(*i),
            MalValue::Symbol(s) => MalValue::Symbol(s.clone()),
            MalValue::List(l) => {
                let ghost s = self.model()->List_0;
                let mut out: Vec<MalValue> = Vec::new();
                let mut j: usize = 0;
                while j < l.len()
                    invariant
                        self.model() == Val::List(s),
                        s.len() == l@.len(),
                        forall|k: int| 0 <= k < l@.len() ==> s[k] == l@[k].model(),
                        j <= l@.len(),
                        out@.len() == j,
                        forall|k: int| 0 <= k < j ==> out@[k].model() == l@[k].model(),
                    decreases l@.len() - j,
                {
                    proof {
                        lemma_val_size_seq_elem(s, 0, j as int);
                    }
                    out.push(l[j].clone());
                    j += 1;
                }
                let r = MalValue::List(out);
                proof {
                    let u = r.model()->List_0;
                    assert(r.model() == Val::List(u));
                    assert(u.len() == out@.len());
                    assert forall|i: int| 0 <= i < u.len() implies u[i] == s[i] by {
                        assert(u[i] == out@[i].model());
                        assert(out@[i].model() == l@[i].model());
                    };
                    assert(u =~= s);
                }
                r
            }
            MalValue::Func(op) => MalValue::Func(*op),
        }
    }
}

/// Structural size of a model value; the evaluator's recursion is bounded by it.
pub open spec fn val_size(v: Val) -> nat
    decreases v, 0nat,
{
    match v {
        Val::List(l) => 1 + val_size_seq(l, 0),
        _ => 1,
    }
}

/// Sum of the sizes of `s[i..]`.
pub open spec fn val_size_seq(s: Seq<Val>, i: int) -> nat
    decreases s, s.len() - i,
{
    if i < 0 || i >= s.len() {
        0
    } else {
        val_size(s[i]) + val_size_seq(s, i + 1)
    }
}

/// The name of a value's variant, as `get_type` reports it.
pub open spec fn type_name_spec(v: Val) -> Seq<char> {
    match v {
        Val::Nil => "Nil"@,
        Val::Int(_) => "Int"@,
        Val::Symbol(_) => "Symbol"@,
        Val::List(_) => "List"@,
        Val::Func(_) => "Func"@,
    }
}

/// The message for applying a value that is not a function.
pub open spec fn no_call_text(v: Val) -> Seq<char> {
    "do not call; "@ + type_name_spec(v) + "("@ + crate::printers::pr_spec(v) + ")"@
}

/// What applying a value to evaluated arguments yields: a built-in runs on
/// the arguments, anything else is a "do not call" error.
pub open spec fn apply_spec(v: Val, args: Seq<Val>) -> Result<Val, Seq<char>> {
    match v {
        Val::Func(op) => crate::interp::builtin_spec(op, args),
        _ => Err(no_call_text(v)),
    }
}

impl MalValue {
    /// The variant's name, for error messages.
    pub fn get_type(&self) -> (r: &'static str)
        ensures
            r@ == type_name_spec(self.model()),
    {
        match *self {
            MalValue::Nil => "Nil",
            MalValue::Int(_) => "Int",
            MalValue::Symbol(_) => "Symbol",
            MalValue::List(_) => "List",
            MalValue::Func(_) => "Func",
        }
    }

    /// Applies this value to an evaluated argument list.
    pub fn apply(&self, args: Args) -> (r: MalResult)
        ensures
            ({
                let am = Seq::new(args@.len(), |i: int| args@[i].model());
                match apply_spec(self.model(), am) {
                    Ok(v) => r matches Ok(x) && x.model() == v,
                    Err(t) => r matches Err(e) && e.text@ == t,
                }
            }),
    {
        match self {
            MalValue::Func(op) => crate::interp::handle_int_operation(*op, args),
            _ => {
                let printed = self.pr_str();
                let text = String::from_str("do not call; ").concat(self.get_type()).concat(
                    "(",
                ).concat(printed.as_str()).concat(")");
                Err(MalError { text })
            },
        }
    }
}

/// Law: applying any value that is not a function fails with the
/// "do not call" error, whatever the arguments.
pub proof fn lemma_apply_non_func(v: Val, args: Seq<Val>)
    requires
        !(v is Func),
    ensures
        apply_spec(v, args) == Err::<Val, Seq<char>>(no_call_text(v)),
{
}

/// Character-for-character string comparison.
pub fn str_eq(a: &str, b: &str) -> (r: bool)
    ensures
        r == (a@ == b@),
{
    let n = a.unicode_len();
    if n != b.unicode_len() {
        return false;
    }
    let mut i: usize = 0;
    while i < n
        invariant
            n == a@.len(),
            n == b@.len(),
            i <= n,
            forall|k: int| 0 <= k < i ==> a@[k] == b@[k],
        decreases n - i,
    {
        if a.get_char(i) != b.get_char(i) {
            return false;
        }
        i += 1;
    }
    proof {
        assert(a@ =~= b@);
    }
    true
}

/// Each element's size is bounded by the size of the tail that holds it.
pub proof fn lemma_val_size_seq_elem(s: Seq<Val>, i: int, j: int)
    requires
        0 <= i <= j < s.len(),
    ensures
        val_size(s[j]) <= val_size_seq(s, i),
    decreases j - i,
{
    if i < j {
        lemma_val_size_seq_elem(s, i + 1, j);
    }
}

} // verus!
