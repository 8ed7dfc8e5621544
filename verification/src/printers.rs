use crate::types::{MalValue, Val, lemma_val_size_seq_elem, val_size};
use vstd::prelude::*;

verus! {

/// The decimal digit character for `d`.
pub open spec fn digit_char(d: int) -> char {
    if d == 0 {
        '0'
    } else if d == 1 {
        '1'
    } else if d == 2 {
        '2'
    } else if d == 3 {
        '3'
    } else if d == 4 {
        '4'
    } else if d == 5 {
        '5'
    } else if d == 6 {
        '6'
    } else if d == 7 {
        '7'
    } else if d == 8 {
        '8'
    } else {
        '9'
    }
}

/// The decimal digit string of a non-negative number, most significant first.
pub open spec fn dec_digits(n: nat) -> Seq<char>
    decreases n,
{
    if n < 10 {
        seq![digit_char(n as int)]
    } else {
        dec_digits(n / 10) + seq![digit_char((n % 10) as int)]
    }
}

/// The decimal rendering of an integer, with a leading minus when negative.
pub open spec fn int_text(i: int) -> Seq<char> {
    if i < 0 {
        seq!['-'] + dec_digits((-i) as nat)
    } else {
        dec_digits(i as nat)
    }
}

/// The rendering of a value: integers in decimal, symbols verbatim, lists as
/// `(` + space-joined elements + `)`; `Nil` and `Func` fall back to the empty
/// string, as variants the printer does not special-case.
pub open spec fn pr_spec(v: Val) -> Seq<char>
    decreases v, 0nat,
{
    match v {
        Val::Nil => Seq::empty(),
        Val::Int(i) => int_text(i),
        Val::Symbol(s) => s,
        Val::List(l) => seq!['('] + join_upto(l, l.len() as int) + seq![')'],
        Val::Func(_) => Seq::empty(),
    }
}

/// The space-joined rendering of the first `j` elements of `s`.
pub open spec fn join_upto(s: Seq<Val>, j: int) -> Seq<char>
    decreases s, j + 1,
{
    if j <= 0 || j > s.len() {
        Seq::empty()
    } else if j == 1 {
        pr_spec(s[0])
    } else {
        join_upto(s, j - 1) + seq![' '] + pr_spec(s[j - 1])
    }
}

/// The digit character of one decimal digit.
fn digit_str(d: u64) -> (r: &'static str)
    requires
        d < 10,
    ensures
        r@ == seq![digit_char(d as int)],
{
    proof {
        reveal_strlit("0");
        reveal_strlit("1");
        reveal_strlit("2");
        reveal_strlit("3");
        reveal_strlit("4");
        reveal_strlit("5");
        reveal_strlit("6");
        reveal_strlit("7");
        reveal_strlit("8");
        reveal_strlit("9");
    }
    let r = match d {
        0 => "0",
        1 => "1",
        2 => "2",
        3 => "3",
        4 => "4",
        5 => "5",
        6 => "6",
        7 => "7",
        8 => "8",
        _ => "9",
    };
    proof {
        assert(r@ =~= seq![digit_char(d as int)]);
    }
    r
}

/// Writes a non-negative number in decimal.
fn u64_text(n: u64) -> (s: String)
    ensures
        s@ == dec_digits(n as nat),
    decreases n,
{
    if n < 10 {
        let mut s = String::new();
        s.append(digit_str(n));
        proof {
            assert(s@ =~= dec_digits(n as nat));
        }
        s
    } else {
        let mut s = u64_text(n / 10);
        s.append(digit_str(n % 10));
        proof {
            assert(n as nat / 10 == (n / 10) as nat);
            assert(n as nat % 10 == (n % 10) as nat);
        }
        s
    }
}

/// Writes an integer in decimal, minus sign included.
fn int_to_text(i: i64) -> (s: String)
    ensures
        s@ == int_text(i as int),
{
    if i >= 0 {
        u64_text(i as u64)
    } else {
        let mag: u64 = if i == i64::MIN {
            9223372036854775808u64
        } else {
            (-i) as u64
        };
        let mut s = String::from_str("-");
        let t = u64_text(mag);
        s.append(t.as_str());
        proof {
            reveal_strlit("-");
            assert(mag as nat == (-(i as int)) as nat);
            assert(s@ =~= int_text(i as int));
        }
        s
    }
}

impl MalValue {
    /// Renders a value for display; total over every variant.
    pub fn pr_str(&self) -> (out: String)
        ensures
            out@ == pr_spec(self.model()),
        decreases val_size(self.model()),
    {
        match self {
            MalValue::Nil => String::new(),
            MalValue::Int(i) => int_to_text(*i),
            MalValue::Symbol(s) => s.clone(),
            MalValue::List(l) => {
                let ghost lm = self.model()->List_0;
                let mut out = String::from_str("(");
                proof {
                    reveal_strlit("(");
                    assert(out@ =~= seq!['('] + join_upto(lm, 0));
                }
                let mut j: usize = 0;
                while j < l.len()
                    invariant
                        self.model() == Val::List(lm),
                        lm.len() == l@.len(),
                        forall|k: int| 0 <= k < l@.len() ==> lm[k] == l@[k].model(),
                        j <= l@.len(),
                        out@ == seq!['('] + join_upto(lm, j as int),
                    decreases l@.len() - j,
                {
                    if j > 0 {
                        out.append(" ");
                        proof {
                            reveal_strlit(" ");
                        }
                    }
                    proof {
                        lemma_val_size_seq_elem(lm, 0, j as int);
                    }
                    let piece = l[j].pr_str();
                    out.append(piece.as_str());
                    proof {
                        assert(out@ =~= seq!['('] + join_upto(lm, j as int + 1));
                    }
                    j += 1;
                }
                out.append(")");
                proof {
                    reveal_strlit(")");
                    assert(out@ =~= pr_spec(self.model()));
                }
                out
            },
            MalValue::Func(_) => String::new(),
        }
    }
}

/// Renders a value for display (free-function form).
pub fn pr_str(value: MalValue) -> (out: String)
    ensures
        out@ == pr_spec(value.model()),
{
    value.pr_str()
}

} // verus!
