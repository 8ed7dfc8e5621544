use crate::types::{MalError, MalResult, MalValue, Val};
use vstd::prelude::*;

verus! {

// ---------------------------------------------------------------------------
// Token shapes.
// ---------------------------------------------------------------------------

/// Separator characters: ASCII whitespace and the comma.
pub open spec fn is_token_ws(c: char) -> bool {
    c == ' ' || c == '\t' || c == '\n' || c == '\r' || c == '\u{b}' || c == '\u{c}' || c == ','
}

/// Characters that form a one-character token of their own.
pub open spec fn is_special(c: char) -> bool {
    c == '(' || c == ')' || c == '[' || c == ']' || c == '{' || c == '}' || c == '\'' || c == '`'
        || c == '~' || c == '^' || c == '@'
}

/// Characters a bare atom token may contain.
pub open spec fn is_atom_char(c: char) -> bool {
    !is_token_ws(c) && c != '(' && c != ')' && c != '[' && c != ']' && c != '{' && c != '}'
        && c != '\'' && c != '"' && c != '`' && c != ';'
}

/// Length of the maximal run of atom characters starting at `i`.
pub open spec fn atom_len(s: Seq<char>, i: int) -> nat
    decreases s.len() - i,
{
    if 0 <= i < s.len() && is_atom_char(s[i]) {
        1 + atom_len(s, i + 1)
    } else {
        0
    }
}

/// Length of a comment body: everything up to (not including) the newline.
pub open spec fn comment_len(s: Seq<char>, i: int) -> nat
    decreases s.len() - i,
{
    if 0 <= i < s.len() && s[i] != '\n' {
        1 + comment_len(s, i + 1)
    } else {
        0
    }
}

/// Length of a string token's body starting just after the opening quote:
/// a backslash escapes the character after it, a quote ends the token, and a
/// string the input ends before closing is taken as it stands (best effort).
pub open spec fn str_body_len(s: Seq<char>, i: int) -> nat
    decreases s.len() - i,
{
    if i < 0 || i >= s.len() {
        0
    } else if s[i] == '"' {
        1
    } else if s[i] == '\\' {
        if i + 1 < s.len() {
            2 + str_body_len(s, i + 2)
        } else {
            1
        }
    } else {
        1 + str_body_len(s, i + 1)
    }
}

/// The token sequence of the input from position `i` on: separators are
/// skipped, `~@` and the special characters stand alone, string tokens keep
/// their quotes, comments are dropped, and any other run of atom characters
/// is one token. Comments are filtered here, so the result holds the
/// non-comment tokens only and every token is non-empty.
pub open spec fn cap_end(s: Seq<char>, e: int) -> int {
    if e > s.len() {
        s.len() as int
    } else {
        e
    }
}

pub open spec fn tokens_from(s: Seq<char>, i: int) -> Seq<Seq<char>>
    decreases s.len() - i,
{
    if i < 0 || i >= s.len() {
        Seq::empty()
    } else if is_token_ws(s[i]) {
        tokens_from(s, i + 1)
    } else if s[i] == '~' && i + 1 < s.len() && s[i + 1] == '@' {
        seq![s.subrange(i, i + 2)] + tokens_from(s, i + 2)
    } else if is_special(s[i]) {
        seq![s.subrange(i, i + 1)] + tokens_from(s, i + 1)
    } else if s[i] == '"' {
        seq![s.subrange(i, cap_end(s, i + 1 + str_body_len(s, i + 1)))] + tokens_from(
            s,
            cap_end(s, i + 1 + str_body_len(s, i + 1)),
        )
    } else if s[i] == ';' {
        tokens_from(s, cap_end(s, i + 1 + comment_len(s, i + 1)))
    } else {
        seq![s.subrange(i, cap_end(s, i + 1 + atom_len(s, i + 1)))] + tokens_from(
            s,
            cap_end(s, i + 1 + atom_len(s, i + 1)),
        )
    }
}

// ---------------------------------------------------------------------------
// Integer tokens.
// ---------------------------------------------------------------------------

/// An ASCII decimal digit.
pub open spec fn is_digit(c: char) -> bool {
    48 <= c as u32 <= 57
}

/// The value of one digit character.
pub open spec fn digit_val(c: char) -> int {
    c as u32 - 48
}

/// The value of a digit run, most significant first.
pub open spec fn dec_val(d: Seq<char>) -> int
    decreases d.len(),
{
    if d.len() == 0 {
        0
    } else {
        dec_val(d.drop_last()) * 10 + digit_val(d.last())
    }
}

/// The integer pattern: an optional minus, then one or more digits.
pub open spec fn is_int_token(t: Seq<char>) -> bool {
    if t.len() == 0 {
        false
    } else if t[0] == '-' {
        t.len() >= 2 && forall|k: int| 1 <= k < t.len() ==> is_digit(#[trigger] t[k])
    } else {
        forall|k: int| 0 <= k < t.len() ==> is_digit(#[trigger] t[k])
    }
}

/// The value an integer token denotes.
pub open spec fn int_token_val(t: Seq<char>) -> int {
    if t.len() > 0 && t[0] == '-' {
        -dec_val(t.subrange(1, t.len() as int))
    } else {
        dec_val(t)
    }
}

// ---------------------------------------------------------------------------
// The parser's result, on the token stream.
// ---------------------------------------------------------------------------

pub open spec fn unexpected_text() -> Seq<char> {
    "unexpected"@
}

pub open spec fn syntax_err_text() -> Seq<char> {
    "syntax error"@
}

/// The token stream ended before the expected closer appeared.
pub open spec fn eor_text(right: Seq<char>) -> Seq<char> {
    "syntax error; expected '"@ + right + "', but EOR appeared"@
}

/// A closer other than `)` ended the list.
pub open spec fn expected_text(right: Seq<char>) -> Seq<char> {
    "syntax error; expected '"@ + right + "'"@
}

/// An integer literal the host integer type cannot hold; reported through
/// the ordinary error channel rather than aborting.
pub open spec fn int_range_text() -> Seq<char> {
    "integer literal does not fit"@
}

/// The closing token an opening bracket calls for.
pub open spec fn pair_token_spec(t: Seq<char>) -> Seq<char> {
    if t == seq!['('] {
        seq![')']
    } else if t == seq!['['] {
        seq![']']
    } else if t == seq!['{'] {
        seq!['}']
    } else {
        Seq::empty()
    }
}

/// Reading one atom at position `p`: an integer token becomes an `Int` when
/// it fits the host integer, any other token a `Symbol` carrying its text.
pub open spec fn spec_read_atom(toks: Seq<Seq<char>>, p: int) -> Result<(Val, int), Seq<char>> {
    if p < 0 || p >= toks.len() {
        Err(unexpected_text())
    } else {
        let t = toks[p];
        if is_int_token(t) {
            if i64::MIN <= int_token_val(t) <= i64::MAX {
                Ok((Val::Int(int_token_val(t)), p + 1))
            } else {
                Err(int_range_text())
            }
        } else {
            Ok((Val::Symbol(t), p + 1))
        }
    }
}

/// Reading one form at position `p`: an opening paren starts a list, any
/// other token is an atom.
pub open spec fn spec_read_form(toks: Seq<Seq<char>>, p: int) -> Result<(Val, int), Seq<char>>
    decreases toks.len() - p, 2int,
{
    if p < 0 || p >= toks.len() {
        Err(unexpected_text())
    } else if toks[p] == seq!['('] {
        spec_read_list(toks, p)
    } else {
        spec_read_atom(toks, p)
    }
}

/// Reading a list whose opener stands at `p`.
pub open spec fn spec_read_list(toks: Seq<Seq<char>>, p: int) -> Result<(Val, int), Seq<char>>
    decreases toks.len() - p, 1int,
{
    if p < 0 || p >= toks.len() {
        Err(syntax_err_text())
    } else {
        let right = pair_token_spec(toks[p]);
        match spec_read_elems(toks, p + 1, right) {
            Ok((vs, p2)) => if right == seq![')'] {
                Ok((Val::List(vs), p2))
            } else {
                Err(expected_text(right))
            },
            Err(t) => Err(t),
        }
    }
}

/// Reading list elements from `p` until the closer `right`, which is
/// consumed.
pub open spec fn spec_read_elems(toks: Seq<Seq<char>>, p: int, right: Seq<char>) -> Result<
    (Seq<Val>, int),
    Seq<char>,
>
    decreases toks.len() - p, 3int,
{
    if p < 0 || p >= toks.len() {
        Err(eor_text(right))
    } else if toks[p] == right {
        Ok((Seq::empty(), p + 1))
    } else {
        match spec_read_form(toks, p) {
            Ok((v, p2)) => if p < p2 <= toks.len() {
                match spec_read_elems(toks, p2, right) {
                    Ok((vs, p3)) => Ok((seq![v] + vs, p3)),
                    Err(t) => Err(t),
                }
            } else {
                Err(unexpected_text())
            },
            Err(t) => Err(t),
        }
    }
}

/// What `read_str` returns on a whole input: its token stream's first form.
pub open spec fn spec_read_str(s: Seq<char>) -> Result<Val, Seq<char>> {
    match spec_read_form(tokens_from(s, 0), 0) {
        Ok((v, _)) => Ok(v),
        Err(t) => Err(t),
    }
}

// ---------------------------------------------------------------------------
// The tokenizer.
// ---------------------------------------------------------------------------

fn is_token_ws_e(c: char) -> (b: bool)
    ensures
        b == is_token_ws(c),
{
    c == ' ' || c == '\t' || c == '\n' || c == '\r' || c == '\u{b}' || c == '\u{c}' || c == ','
}

fn is_special_e(c: char) -> (b: bool)
    ensures
        b == is_special(c),
{
    c == '(' || c == ')' || c == '[' || c == ']' || c == '{' || c == '}' || c == '\'' || c == '`'
        || c == '~' || c == '^' || c == '@'
}

fn is_atom_char_e(c: char) -> (b: bool)
    ensures
        b == is_atom_char(c),
{
    !(c == ' ' || c == '\t' || c == '\n' || c == '\r' || c == '\u{b}' || c == '\u{c}' || c == ','
        || c == '(' || c == ')' || c == '[' || c == ']' || c == '{' || c == '}' || c == '\''
        || c == '"' || c == '`' || c == ';')
}

fn scan_atom_end(s: &str, j: usize) -> (e: usize)
    requires
        j <= s@.len(),
    ensures
        e == j + atom_len(s@, j as int),
        j <= e <= s@.len(),
    decreases s@.len() - j,
{
    if j < s.unicode_len() && is_atom_char_e(s.get_char(j)) {
        scan_atom_end(s, j + 1)
    } else {
        j
    }
}

fn scan_comment_end(s: &str, j: usize) -> (e: usize)
    requires
        j <= s@.len(),
    ensures
        e == j + comment_len(s@, j as int),
        j <= e <= s@.len(),
    decreases s@.len() - j,
{
    if j < s.unicode_len() && s.get_char(j) != '\n' {
        scan_comment_end(s, j + 1)
    } else {
        j
    }
}

fn scan_string_end(s: &str, j: usize) -> (e: usize)
    requires
        j <= s@.len(),
    ensures
        e == j + str_body_len(s@, j as int),
        j <= e <= s@.len(),
    decreases s@.len() - j,
{
    if j >= s.unicode_len() {
        return j;
    }
    let c = s.get_char(j);
    if c == '"' {
        j + 1
    } else if c == '\\' {
        if j + 1 < s.unicode_len() {
            scan_string_end(s, j + 2)
        } else {
            j + 1
        }
    } else {
        scan_string_end(s, j + 1)
    }
}

/// Scans the input left to right into its token strings; separators and
/// comments are dropped. Empty input yields an empty sequence.
pub fn tokenize(input: &String) -> (toks: Vec<String>)
    ensures
        toks@.map_values(|t: String| t@) == tokens_from(input@, 0),
{
    let s = input.as_str();
    let n = s.unicode_len();
    let mut toks: Vec<String> = Vec::new();
    let mut i: usize = 0;
    while i < n
        invariant
            n == s@.len(),
            s@ == input@,
            i <= n,
            tokens_from(input@, 0) == toks@.map_values(|t: String| t@) + tokens_from(
                input@,
                i as int,
            ),
        decreases n - i,
    {
        let c = s.get_char(i);
        let ghost prev = toks@.map_values(|t: String| t@);
        if is_token_ws_e(c) {
            i += 1;
        } else if c == '~' && i + 1 < n && s.get_char(i + 1) == '@' {
            let piece = s.substring_char(i, i + 2).to_owned();
            toks.push(piece);
            proof {
                assert(toks@.map_values(|t: String| t@) =~= prev + seq![s@.subrange(
                    i as int,
                    i as int + 2,
                )]);
            }
            i += 2;
        } else if is_special_e(c) {
            let piece = s.substring_char(i, i + 1).to_owned();
            toks.push(piece);
            proof {
                assert(toks@.map_values(|t: String| t@) =~= prev + seq![s@.subrange(
                    i as int,
                    i as int + 1,
                )]);
            }
            i += 1;
        } else if c == '"' {
            let e = scan_string_end(s, i + 1);
            let piece = s.substring_char(i, e).to_owned();
            toks.push(piece);
            proof {
                assert(toks@.map_values(|t: String| t@) =~= prev + seq![s@.subrange(
                    i as int,
                    e as int,
                )]);
            }
            i = e;
        } else if c == ';' {
            let e = scan_comment_end(s, i + 1);
            i = e;
        } else {
            let e = scan_atom_end(s, i + 1);
            let piece = s.substring_char(i, e).to_owned();
            toks.push(piece);
            proof {
                assert(toks@.map_values(|t: String| t@) =~= prev + seq![s@.subrange(
                    i as int,
                    e as int,
                )]);
            }
            i = e;
        }
    }
    toks
}

// ---------------------------------------------------------------------------
// The reader cursor and the parser.
// ---------------------------------------------------------------------------

/// A cursor over the token strings: `peek` looks at the current token
/// without consuming it, `next` consumes it and advances.
struct Reader {
    tokens: Vec<String>,
    position: usize,
}

impl Reader {
    spec fn toks(self) -> Seq<Seq<char>> {
        self.tokens@.map_values(|t: String| t@)
    }

    fn next(&mut self) -> (r: Option<String>)
        ensures
            final(self).tokens == old(self).tokens,
            if old(self).position < old(self).toks().len() {
                r matches Some(t) && t@ == old(self).toks()[old(self).position as int]
                    && final(self).position == old(self).position + 1
            } else {
                r is None && final(self).position == old(self).position
            },
    {
        if self.position < self.tokens.len() {
            let t = self.tokens[self.position].clone();
            self.position = self.position + 1;
            Some(t)
        } else {
            None
        }
    }

    fn peek(&self) -> (r: Option<String>)
        ensures
            if self.position < self.toks().len() {
                r matches Some(t) && t@ == self.toks()[self.position as int]
            } else {
                r is None
            },
    {
        if self.position < self.tokens.len() {
            Some(self.tokens[self.position].clone())
        } else {
            None
        }
    }
}

/// The closing token an opening bracket calls for; empty for any other token.
fn get_pair_token(token: &String) -> (r: String)
    ensures
        r@ == pair_token_spec(token@),
{
    proof {
        reveal_strlit("(");
        reveal_strlit(")");
        reveal_strlit("[");
        reveal_strlit("]");
        reveal_strlit("{");
        reveal_strlit("}");
        reveal_strlit("");
    }
    let s = token.as_str();
    let r = if s.unicode_len() == 1 {
        let c = s.get_char(0);
        if c == '(' {
            ")"
        } else if c == '[' {
            "]"
        } else if c == '{' {
            "}"
        } else {
            ""
        }
    } else {
        ""
    };
    proof {
        assert(token@ == seq!['('] ==> token@.len() == 1 && token@[0] == '(');
        assert(token@ == seq!['['] ==> token@.len() == 1 && token@[0] == '[');
        assert(token@ == seq!['{'] ==> token@.len() == 1 && token@[0] == '{');
        if s@.len() == 1 {
            let c = s@[0];
            if c == '(' {
                assert(token@ =~= seq!['(']);
            } else if c == '[' {
                assert(token@ =~= seq!['[']);
            } else if c == '{' {
                assert(token@ =~= seq!['{']);
            }
        }
    }
    r.to_owned()
}

/// Whether a token string matches the integer pattern.
fn token_is_int(t: &str) -> (b: bool)
    ensures
        b == is_int_token(t@),
{
    let n = t.unicode_len();
    if n == 0 {
        return false;
    }
    let first = t.get_char(0);
    let start: usize = if first == '-' {
        1
    } else {
        0
    };
    if first == '-' && n < 2 {
        return false;
    }
    let mut k: usize = start;
    while k < n
        invariant
            n == t@.len(),
            start <= k <= n,
            start == (if t@[0] == '-' {
                1int
            } else {
                0int
            }),
            n >= 1,
            t@[0] == '-' ==> n >= 2,
            forall|q: int| start <= q < k ==> is_digit(#[trigger] t@[q]),
        decreases n - k,
    {
        let c = t.get_char(k);
        let cv = c as u32;
        if !(48 <= cv && cv <= 57) {
            return false;
        }
        k += 1;
    }
    true
}

/// Reads the digits of an integer token into the host integer; reports when
/// the value does not fit.
fn parse_int_token(t: &str) -> (r: Result<i64, ()>)
    requires
        is_int_token(t@),
    ensures
        match r {
            Ok(v) => i64::MIN <= int_token_val(t@) <= i64::MAX && v as int == int_token_val(t@),
            Err(_) => !(i64::MIN <= int_token_val(t@) <= i64::MAX),
        },
{
    let n = t.unicode_len();
    let neg = t.get_char(0) == '-';
    let start: usize = if neg {
        1
    } else {
        0
    };
    let ghost digits = t@.subrange(start as int, n as int);
    let mut acc: u64 = 0;
    let mut k: usize = start;
    while k < n
        invariant
            is_int_token(t@),
            n == t@.len(),
            neg == (t@[0] == '-'),
            start == (if neg {
                1int
            } else {
                0int
            }),
            start <= k <= n,
            digits == t@.subrange(start as int, n as int),
            acc as int == dec_val(t@.subrange(start as int, k as int)),
        decreases n - k,
    {
        let c = t.get_char(k);
        let d: u64 = (c as u32 - 48) as u64;
        let ghost pref = t@.subrange(start as int, k as int);
        let ghost pref2 = t@.subrange(start as int, k as int + 1);
        proof {
            assert(is_digit(t@[k as int]));
            assert(pref2.drop_last() =~= pref);
            assert(pref2.last() == t@[k as int]);
        }
        proof {
            assert(dec_val(pref2) == dec_val(pref) * 10 + digit_val(pref2.last()));
            assert(digit_val(t@[k as int]) == d as int);
        }
        let m = match acc.checked_mul(10) {
            Some(m) => m,
            None => {
                proof {
                    lemma_dec_val_grows(t@, start as int, k as int + 1, n as int);
                    assert(dec_val(pref2) > u64::MAX);
                    assert(dec_val(digits) >= dec_val(pref2));
                    if neg {
                        assert(digits =~= t@.subrange(1, t@.len() as int));
                    } else {
                        assert(digits =~= t@);
                    }
                    assert(int_token_val(t@) == if neg { -dec_val(digits) } else { dec_val(digits) });
                }
                return Err(());
            },
        };
        let a = match m.checked_add(d) {
            Some(a) => a,
            None => {
                proof {
                    lemma_dec_val_grows(t@, start as int, k as int + 1, n as int);
                    assert(dec_val(pref2) > u64::MAX);
                    assert(dec_val(digits) >= dec_val(pref2));
                    if neg {
                        assert(digits =~= t@.subrange(1, t@.len() as int));
                    } else {
                        assert(digits =~= t@);
                    }
                    assert(int_token_val(t@) == if neg { -dec_val(digits) } else { dec_val(digits) });
                }
                return Err(());
            },
        };
        acc = a;
        k += 1;
    }
    proof {
        assert(t@.subrange(start as int, n as int) =~= digits);
        assert(acc as int == dec_val(digits));
        if neg {
            assert(digits =~= t@.subrange(1, t@.len() as int));
        } else {
            assert(digits =~= t@);
        }
        assert(int_token_val(t@) == if neg { -dec_val(digits) } else { dec_val(digits) });
    }
    if neg {
        if acc <= 9223372036854775807u64 {
            proof {
                assert(int_token_val(t@) == -dec_val(digits));
            }
            Ok(-(acc as i64))
        } else if acc == 9223372036854775808u64 {
            Ok(i64::MIN)
        } else {
            Err(())
        }
    } else {
        if acc <= 9223372036854775807u64 {
            Ok(acc as i64)
        } else {
            Err(())
        }
    }
}

/// Digit runs only grow as digits are appended: the value of a prefix bounds
/// the value of the whole run from below.
proof fn lemma_dec_val_grows(t: Seq<char>, start: int, mid: int, end: int)
    requires
        0 <= start <= mid <= end <= t.len(),
        forall|q: int| start <= q < end ==> is_digit(#[trigger] t[q]),
    ensures
        dec_val(t.subrange(start, end)) >= dec_val(t.subrange(start, mid)),
        dec_val(t.subrange(start, mid)) >= 0,
    decreases end - mid,
{
    lemma_dec_val_nonneg(t, start, mid);
    if mid < end {
        lemma_dec_val_grows(t, start, mid + 1, end);
        let p = t.subrange(start, mid);
        let p2 = t.subrange(start, mid + 1);
        assert(p2.drop_last() =~= p);
        assert(is_digit(p2.last()));
        assert(dec_val(p2) == dec_val(p) * 10 + digit_val(p2.last()));
    }
}

proof fn lemma_dec_val_nonneg(t: Seq<char>, start: int, end: int)
    requires
        0 <= start <= end <= t.len(),
        forall|q: int| start <= q < end ==> is_digit(#[trigger] t[q]),
    ensures
        dec_val(t.subrange(start, end)) >= 0,
    decreases end - start,
{
    if start < end {
        lemma_dec_val_nonneg(t, start, end - 1);
        let p = t.subrange(start, end);
        assert(p.drop_last() =~= t.subrange(start, end - 1));
        assert(is_digit(p.last()));
    }
}

fn read_atom(reader: &mut Reader) -> (r: MalResult)
    ensures
        final(reader).tokens == old(reader).tokens,
        match spec_read_atom(old(reader).toks(), old(reader).position as int) {
            Ok((v, p)) => r matches Ok(val) && val.model() == v && final(reader).position == p,
            Err(t) => r matches Err(e) && e.text@ == t,
        },
{
    match reader.next() {
        None => Err(MalError { text: String::from_str("unexpected") }),
        Some(token) => {
            if token_is_int(token.as_str()) {
                match parse_int_token(token.as_str()) {
                    Ok(v) => Ok(MalValue::Int(v)),
                    Err(_) => Err(
                        MalError { text: String::from_str("integer literal does not fit") },
                    ),
                }
            } else {
                Ok(MalValue::Symbol(token))
            }
        },
    }
}

fn read_form(reader: &mut Reader) -> (r: MalResult)
    ensures
        final(reader).tokens == old(reader).tokens,
        match spec_read_form(old(reader).toks(), old(reader).position as int) {
            Ok((v, p)) => r matches Ok(val) && val.model() == v && final(reader).position == p
                && old(reader).position < p <= old(reader).toks().len(),
            Err(t) => r matches Err(e) && e.text@ == t,
        },
    decreases old(reader).toks().len() - old(reader).position, 1int,
{
    proof {
        reveal_strlit("(");
    }
    match reader.peek() {
        None => Err(MalError { text: String::from_str("unexpected") }),
        Some(token) => {
            let is_lparen = crate::types::str_eq(token.as_str(), "(");
            proof {
                assert("("@ =~= seq!['(']);
                assert(is_lparen == (token@ == seq!['(']));
            }
            if is_lparen {
                read_list(reader)
            } else {
                read_atom(reader)
            }
        },
    }
}

fn read_list(reader: &mut Reader) -> (r: MalResult)
    requires
        old(reader).position < old(reader).toks().len(),
        old(reader).toks()[old(reader).position as int] == seq!['('],
    ensures
        final(reader).tokens == old(reader).tokens,
        match spec_read_list(old(reader).toks(), old(reader).position as int) {
            Ok((v, p)) => r matches Ok(val) && val.model() == v && final(reader).position == p
                && old(reader).position < p <= old(reader).toks().len(),
            Err(t) => r matches Err(e) && e.text@ == t,
        },
    decreases old(reader).toks().len() - old(reader).position, 0int,
{
    let ghost toks = old(reader).toks();
    let ghost p0 = old(reader).position as int;
    let left = reader.next().unwrap();
    let right = get_pair_token(&left);
    proof {
        reveal_strlit("(");
        reveal_strlit(")");
        assert(left@ =~= seq!['(']);
        assert(right@ == seq![')']);
    }
    let mut elems: Vec<MalValue> = Vec::new();
    loop
        invariant
            old(reader).toks() == toks,
            old(reader).position as int == p0,
            reader.tokens == old(reader).tokens,
            reader.toks() == toks,
            p0 + 1 <= reader.position <= toks.len(),
            right@ == seq![')'],
            0 <= p0 < toks.len(),
            toks[p0] == seq!['('],
            ({
                let done = Seq::new(elems@.len(), |q: int| elems@[q].model());
                match spec_read_elems(toks, reader.position as int, right@) {
                    Ok((vs, p)) => spec_read_elems(toks, p0 + 1, right@) == Ok::<
                        (Seq<Val>, int),
                        Seq<char>,
                    >((done + vs, p)),
                    Err(t) => spec_read_elems(toks, p0 + 1, right@) == Err::<
                        (Seq<Val>, int),
                        Seq<char>,
                    >(t),
                }
            }),
        decreases toks.len() - reader.position,
    {
        let ghost done = Seq::new(elems@.len(), |q: int| elems@[q].model());
        let ghost cur = reader.position as int;
        proof {
            reveal_strlit("(");
            reveal_strlit(")");
        }
        match reader.peek() {
            None => {
                let text = String::from_str("syntax error; expected '").concat(
                    right.as_str(),
                ).concat("', but EOR appeared");
                proof {
                    assert(text@ == eor_text(right@));
                }
                return Err(MalError { text });
            },
            Some(token) => {
                if crate::types::str_eq(token.as_str(), right.as_str()) {
                    proof {
                        assert(token@ == right@);
                        assert(spec_read_elems(toks, cur, right@) == Ok::<
                            (Seq<Val>, int),
                            Seq<char>,
                        >((Seq::empty(), cur + 1)));
                        assert(done + Seq::<Val>::empty() =~= done);
                    }
                    let _ = reader.next();
                    let r = MalValue::List(elems);
                    proof {
                        let u = r.model()->List_0;
                        assert(u.len() == done.len());
                        assert forall|q: int| 0 <= q < u.len() implies u[q] == done[q] by {}
                        assert(u =~= done);
                        assert(spec_read_list(toks, p0) == Ok::<(Val, int), Seq<char>>(
                            (Val::List(done), cur + 1),
                        ));
                    }
                    return Ok(r);
                } else {
                    proof {
                        assert(token@ == toks[cur]);
                        assert(toks[cur] != right@);
                    }
                    match read_form(reader) {
                        Ok(v) => {
                            proof {
                                let fr = spec_read_form(toks, cur);
                                assert(fr is Ok);
                                assert(reader.position as int == fr->Ok_0.1);
                                assert(cur < reader.position as int);
                            }
                            elems.push(v);
                            proof {
                                let done2 = Seq::new(
                                    elems@.len(),
                                    |q: int| elems@[q].model(),
                                );
                                let v0 = spec_read_form(toks, cur)->Ok_0.0;
                                assert(done2 =~= done + seq![v0]);
                                match spec_read_elems(
                                    toks,
                                    reader.position as int,
                                    right@,
                                ) {
                                    Ok((vs, p)) => {
                                        assert(spec_read_elems(toks, cur, right@) == Ok::<
                                            (Seq<Val>, int),
                                            Seq<char>,
                                        >((seq![v0] + vs, p)));
                                        assert(done + (seq![v0] + vs) =~= done2 + vs);
                                    },
                                    Err(t) => {
                                        assert(spec_read_elems(toks, cur, right@) == Err::<
                                            (Seq<Val>, int),
                                            Seq<char>,
                                        >(t));
                                    },
                                }
                            }
                        },
                        Err(e) => {
                            proof {
                                let t = spec_read_form(toks, cur)->Err_0;
                                assert(spec_read_elems(toks, cur, right@) == Err::<
                                    (Seq<Val>, int),
                                    Seq<char>,
                                >(t));
                            }
                            return Err(e);
                        },
                    }
                }
            },
        }
    }
}

/// Tokenizes the whole input and reads its first complete form; trailing
/// tokens after that form are ignored.
pub fn read_str(input: &String) -> (r: MalResult)
    ensures
        match spec_read_str(input@) {
            Ok(v) => r matches Ok(val) && val.model() == v,
            Err(t) => r matches Err(e) && e.text@ == t,
        },
{
    let tokens = tokenize(input);
    let mut reader = Reader { tokens, position: 0 };
    read_form(&mut reader)
}

} // verus!
