//! Grammar and parser for arithmetic expressions.
//!
//! The grammar, precedence low to high (binary operators are
//! left-associative, unary minus binds tighter than any binary operator):
//!
//! ```text
//! sum      := product (('+' | '-') product)*
//! product  := unary (('*' | '/') unary)*
//! unary    := '-'* atom
//! atom     := integer ('.' integer)?
//! integer  := digit+
//! ```
//!
//! Spaces may appear around any number or operator. A parse succeeds only
//! if the grammar matches the entire input; trailing unconsumed characters
//! are a failure. A numeric literal is kept as its exact character text
//! (integer part, and fractional part if present, joined by `'.'`), so a
//! backend converts precisely the digits that were written.

use vstd::prelude::*;
use vstd::string::StrSliceExecFns;

verus! {

/// The abstract syntax tree of an expression: a closed sum type whose
/// recursive fields are exclusively owned, so the tree is finite, acyclic
/// and destroyed recursively. A `Num` leaf holds the literal's exact text.
#[derive(Debug, PartialEq)]
pub enum Expr {
    Num(String),
    Neg(Box<Expr>),
    Add(Box<Expr>, Box<Expr>),
    Sub(Box<Expr>, Box<Expr>),
    Mul(Box<Expr>, Box<Expr>),
    Div(Box<Expr>, Box<Expr>),
}

/// The mathematical model of an expression tree: the same shape as
/// [`Expr`], with each literal as its character sequence.
pub enum ExprModel {
    Num(Seq<char>),
    Neg(Box<ExprModel>),
    Add(Box<ExprModel>, Box<ExprModel>),
    Sub(Box<ExprModel>, Box<ExprModel>),
    Mul(Box<ExprModel>, Box<ExprModel>),
    Div(Box<ExprModel>, Box<ExprModel>),
}

impl View for Expr {
    type V = ExprModel;

    open spec fn view(&self) -> ExprModel
        decreases self,
    {
        match self {
            Expr::Num(lit) => ExprModel::Num(lit@),
            Expr::Neg(e) => ExprModel::Neg(Box::new((**e)@)),
            Expr::Add(l, r) => ExprModel::Add(Box::new((**l)@), Box::new((**r)@)),
            Expr::Sub(l, r) => ExprModel::Sub(Box::new((**l)@), Box::new((**r)@)),
            Expr::Mul(l, r) => ExprModel::Mul(Box::new((**l)@), Box::new((**r)@)),
            Expr::Div(l, r) => ExprModel::Div(Box::new((**l)@), Box::new((**r)@)),
        }
    }
}

/// Rejection of a malformed or incomplete expression: the position at
/// which parsing could not continue, and what the grammar required there.
#[derive(Debug, Clone)]
pub struct ParseError {
    /// Character position at which parsing stopped.
    pub pos: usize,
    /// What the grammar required at that position.
    pub expected: String,
}

pub open spec fn is_digit(c: char) -> bool {
    '0' <= c && c <= '9'
}

pub open spec fn is_space(c: char) -> bool {
    c == ' '
}

/// End of the run of digits that starts at `i`.
pub open spec fn digits_end(s: Seq<char>, i: nat) -> nat
    decreases s.len() - i,
{
    if i < s.len() && is_digit(s[i as int]) {
        digits_end(s, i + 1)
    } else {
        i
    }
}

/// A bare integer literal: one or more digits.
pub open spec fn is_int_literal(s: Seq<char>) -> bool {
    s.len() > 0 && forall|t: int| 0 <= t < s.len() ==> is_digit(s[t])
}

/// A numeric literal: `integer` or `integer '.' integer`. This is the
/// invariant of every `Num` leaf the parser builds.
pub open spec fn is_literal(s: Seq<char>) -> bool {
    is_int_literal(s) || exists|d: int|
        0 < d < s.len() && #[trigger] s[d] == '.' && is_int_literal(s.subrange(0, d))
            && is_int_literal(s.subrange(d + 1, s.len() as int))
}

/// Every literal in the tree is well formed.
pub open spec fn wf_expr(e: ExprModel) -> bool
    decreases e,
{
    match e {
        ExprModel::Num(lit) => is_literal(lit),
        ExprModel::Neg(e1) => wf_expr(*e1),
        ExprModel::Add(l, r) => wf_expr(*l) && wf_expr(*r),
        ExprModel::Sub(l, r) => wf_expr(*l) && wf_expr(*r),
        ExprModel::Mul(l, r) => wf_expr(*l) && wf_expr(*r),
        ExprModel::Div(l, r) => wf_expr(*l) && wf_expr(*r),
    }
}

/// The `atom` rule at position `i`: a numeric literal lexeme, taken
/// greedily, with no space inside it. Yields the literal's text and the
/// position just past it. A `'.'` not followed by a digit is left
/// unconsumed and the literal ends as a bare integer.
pub open spec fn spec_atom(s: Seq<char>, i: nat) -> Option<(Seq<char>, nat)> {
    let j = digits_end(s, i);
    if j == i {
        None
    } else if j < s.len() && s[j as int] == '.' && digits_end(s, j + 1) > j + 1 {
        let k = digits_end(s, j + 1);
        Some((s.subrange(i as int, k as int), k))
    } else {
        Some((s.subrange(i as int, j as int), j))
    }
}

/// The `unary` rule at position `i`: spaces and unary minuses, then an
/// atom. The minuses fold right-to-left into nested `Neg` nodes.
pub open spec fn spec_unary(s: Seq<char>, i: nat) -> Option<(ExprModel, nat)>
    decreases s.len() - i,
{
    if i < s.len() && is_space(s[i as int]) {
        spec_unary(s, i + 1)
    } else if i < s.len() && s[i as int] == '-' {
        match spec_unary(s, i + 1) {
            Some((e, k)) => Some((ExprModel::Neg(Box::new(e)), k)),
            None => None,
        }
    } else {
        match spec_atom(s, i) {
            Some((lit, k)) => Some((ExprModel::Num(lit), k)),
            None => None,
        }
    }
}

/// The tail of the `product` rule: with `acc` parsed so far, fold
/// `('*' | '/') unary` repetitions onto it left-to-right, skipping spaces.
/// Stops, without consuming, at the first character that continues
/// neither the rule nor a space run.
pub open spec fn spec_product_rest(s: Seq<char>, i: nat, acc: ExprModel) -> Option<
    (ExprModel, nat),
>
    decreases s.len() - i,
{
    if i < s.len() && is_space(s[i as int]) {
        spec_product_rest(s, i + 1, acc)
    } else if i < s.len() && (s[i as int] == '*' || s[i as int] == '/') {
        match spec_unary(s, i + 1) {
            Some((rhs, k)) => if i + 1 <= k && k <= s.len() {
                let node = if s[i as int] == '*' {
                    ExprModel::Mul(Box::new(acc), Box::new(rhs))
                } else {
                    ExprModel::Div(Box::new(acc), Box::new(rhs))
                };
                spec_product_rest(s, k, node)
            } else {
                None
            },
            None => None,
        }
    } else {
        Some((acc, i))
    }
}

/// The `product` rule at position `i`.
pub open spec fn spec_product(s: Seq<char>, i: nat) -> Option<(ExprModel, nat)> {
    match spec_unary(s, i) {
        Some((e, j)) => spec_product_rest(s, j, e),
        None => None,
    }
}

/// The tail of the `sum` rule: fold `('+' | '-') product` repetitions
/// onto `acc` left-to-right, skipping spaces.
pub open spec fn spec_sum_rest(s: Seq<char>, i: nat, acc: ExprModel) -> Option<(ExprModel, nat)>
    decreases s.len() - i,
{
    if i < s.len() && is_space(s[i as int]) {
        spec_sum_rest(s, i + 1, acc)
    } else if i < s.len() && (s[i as int] == '+' || s[i as int] == '-') {
        match spec_product(s, i + 1) {
            Some((rhs, k)) => if i + 1 <= k && k <= s.len() {
                let node = if s[i as int] == '+' {
                    ExprModel::Add(Box::new(acc), Box::new(rhs))
                } else {
                    ExprModel::Sub(Box::new(acc), Box::new(rhs))
                };
                spec_sum_rest(s, k, node)
            } else {
                None
            },
            None => None,
        }
    } else {
        Some((acc, i))
    }
}

/// The `sum` rule at position `i`: the whole expression grammar.
pub open spec fn spec_sum(s: Seq<char>, i: nat) -> Option<(ExprModel, nat)> {
    match spec_product(s, i) {
        Some((e, j)) => spec_sum_rest(s, j, e),
        None => None,
    }
}

/// What parsing a whole input means: the `sum` rule must match the entire
/// character sequence (trailing spaces are consumed by the rule itself),
/// or the input is rejected.
pub open spec fn spec_parse(s: Seq<char>) -> Option<ExprModel> {
    match spec_sum(s, 0) {
        Some((e, k)) => if k == s.len() {
            Some(e)
        } else {
            None
        },
        None => None,
    }
}

/// The digit run starting at `i` ends within the sequence, consists of
/// digits, and ends right before a non-digit.
proof fn lemma_digits_end(s: Seq<char>, i: nat)
    requires
        i <= s.len(),
    ensures
        i <= digits_end(s, i) <= s.len(),
        forall|t: int| i <= t < digits_end(s, i) ==> is_digit(s[t]),
        digits_end(s, i) < s.len() ==> !is_digit(s[digits_end(s, i) as int]),
    decreases s.len() - i,
{
    if i < s.len() && is_digit(s[i as int]) {
        lemma_digits_end(s, i + 1);
    }
}

fn digits_end_exec(s: &str, i: usize) -> (j: usize)
    requires
        i as nat <= s@.len(),
    ensures
        j as nat == digits_end(s@, i as nat),
        i <= j,
        j as nat <= s@.len(),
{
    let n = s.unicode_len();
    let mut j: usize = i;
    loop
        invariant
            i <= j,
            j as nat <= s@.len(),
            n as nat == s@.len(),
            digits_end(s@, i as nat) == digits_end(s@, j as nat),
        decreases s@.len() - j,
    {
        if j < n {
            let c = s.get_char(j);
            if c >= '0' && c <= '9' {
                j = j + 1;
            } else {
                return j;
            }
        } else {
            return j;
        }
    }
}

fn parse_atom(s: &str, i: usize) -> (r: Result<(String, usize), ParseError>)
    requires
        i as nat <= s@.len(),
    ensures
        match r {
            Ok((lit, k)) => {
                &&& spec_atom(s@, i as nat) == Some((lit@, k as nat))
                &&& i < k
                &&& k as nat <= s@.len()
                &&& is_literal(lit@)
            },
            Err(pe) => spec_atom(s@, i as nat) is None && pe.pos <= s@.len(),
        },
{
    let n = s.unicode_len();
    let j = digits_end_exec(s, i);
    proof {
        lemma_digits_end(s@, i as nat);
    }
    if j == i {
        return Err(ParseError { pos: i, expected: "a digit".to_owned() });
    }
    if j < n && s.get_char(j) == '.' {
        let k = digits_end_exec(s, j + 1);
        proof {
            lemma_digits_end(s@, (j + 1) as nat);
        }
        if k > j + 1 {
            let lit = s.substring_char(i, k).to_owned();
            proof {
                assert(lit@ =~= s@.subrange(i as int, k as int));
                let d: int = j - i;
                assert(lit@.subrange(0, d) =~= s@.subrange(i as int, j as int));
                assert(lit@.subrange(d + 1, lit@.len() as int) =~= s@.subrange(
                    j + 1 as int,
                    k as int,
                ));
                assert(is_literal(lit@));
            }
            return Ok((lit, k));
        }
    }
    let lit = s.substring_char(i, j).to_owned();
    proof {
        assert(lit@ =~= s@.subrange(i as int, j as int));
        assert(is_int_literal(lit@));
    }
    Ok((lit, j))
}

fn parse_unary(s: &str, i: usize) -> (r: Result<(Expr, usize), ParseError>)
    requires
        i as nat <= s@.len(),
    ensures
        match r {
            Ok((e, k)) => {
                &&& spec_unary(s@, i as nat) == Some((e@, k as nat))
                &&& i < k
                &&& k as nat <= s@.len()
                &&& wf_expr(e@)
            },
            Err(pe) => spec_unary(s@, i as nat) is None && pe.pos <= s@.len(),
        },
    decreases s@.len() - i,
{
    let n = s.unicode_len();
    if i < n {
        let c = s.get_char(i);
        if c == ' ' {
            return parse_unary(s, i + 1);
        }
        if c == '-' {
            return match parse_unary(s, i + 1) {
                Ok((e, k)) => Ok((Expr::Neg(Box::new(e)), k)),
                Err(pe) => Err(pe),
            };
        }
    }
    match parse_atom(s, i) {
        Ok((lit, k)) => Ok((Expr::Num(lit), k)),
        Err(pe) => Err(pe),
    }
}

fn parse_product(s: &str, i: usize) -> (r: Result<(Expr, usize), ParseError>)
    requires
        i as nat <= s@.len(),
    ensures
        match r {
            Ok((e, k)) => {
                &&& spec_product(s@, i as nat) == Some((e@, k as nat))
                &&& i < k
                &&& k as nat <= s@.len()
                &&& wf_expr(e@)
            },
            Err(pe) => spec_product(s@, i as nat) is None && pe.pos <= s@.len(),
        },
{
    let (first, j) = match parse_unary(s, i) {
        Ok(v) => v,
        Err(pe) => {
            return Err(pe);
        },
    };
    let n = s.unicode_len();
    let mut acc = first;
    let mut pos = j;
    loop
        invariant
            i < pos,
            pos as nat <= s@.len(),
            n as nat == s@.len(),
            wf_expr(acc@),
            spec_product(s@, i as nat) == spec_product_rest(s@, pos as nat, acc@),
        decreases s@.len() - pos,
    {
        if pos < n {
            let c = s.get_char(pos);
            if c == ' ' {
                pos = pos + 1;
            } else if c == '*' || c == '/' {
                match parse_unary(s, pos + 1) {
                    Ok((rhs, k)) => {
                        let node = if c == '*' {
                            Expr::Mul(Box::new(acc), Box::new(rhs))
                        } else {
                            Expr::Div(Box::new(acc), Box::new(rhs))
                        };
                        acc = node;
                        pos = k;
                    },
                    Err(pe) => {
                        return Err(pe);
                    },
                }
            } else {
                return Ok((acc, pos));
            }
        } else {
            return Ok((acc, pos));
        }
    }
}

fn parse_sum(s: &str, i: usize) -> (r: Result<(Expr, usize), ParseError>)
    requires
        i as nat <= s@.len(),
    ensures
        match r {
            Ok((e, k)) => {
                &&& spec_sum(s@, i as nat) == Some((e@, k as nat))
                &&& i < k
                &&& k as nat <= s@.len()
                &&& wf_expr(e@)
            },
            Err(pe) => spec_sum(s@, i as nat) is None && pe.pos <= s@.len(),
        },
{
    let (first, j) = match parse_product(s, i) {
        Ok(v) => v,
        Err(pe) => {
            return Err(pe);
        },
    };
    let n = s.unicode_len();
    let mut acc = first;
    let mut pos = j;
    loop
        invariant
            i < pos,
            pos as nat <= s@.len(),
            n as nat == s@.len(),
            wf_expr(acc@),
            spec_sum(s@, i as nat) == spec_sum_rest(s@, pos as nat, acc@),
        decreases s@.len() - pos,
    {
        if pos < n {
            let c = s.get_char(pos);
            if c == ' ' {
                pos = pos + 1;
            } else if c == '+' || c == '-' {
                match parse_product(s, pos + 1) {
                    Ok((rhs, k)) => {
                        let node = if c == '+' {
                            Expr::Add(Box::new(acc), Box::new(rhs))
                        } else {
                            Expr::Sub(Box::new(acc), Box::new(rhs))
                        };
                        acc = node;
                        pos = k;
                    },
                    Err(pe) => {
                        return Err(pe);
                    },
                }
            } else {
                return Ok((acc, pos));
            }
        } else {
            return Ok((acc, pos));
        }
    }
}

/// Parse a whole input text into an expression tree.
///
/// Succeeds exactly when the grammar matches the entire input, and then
/// returns the tree the grammar derives, every literal well formed. On
/// any other input it rejects, reporting where parsing stopped and what
/// was required there; it performs no recovery and has no side effects.
pub fn parser(input: &str) -> (r: Result<Expr, ParseError>)
    ensures
        match r {
            Ok(e) => spec_parse(input@) == Some(e@) && wf_expr(e@),
            Err(pe) => spec_parse(input@) is None && pe.pos <= input@.len(),
        },
{
    let n = input.unicode_len();
    match parse_sum(input, 0) {
        Ok((e, k)) => {
            if k == n {
                Ok(e)
            } else {
                Err(ParseError { pos: k, expected: "end of input".to_owned() })
            }
        },
        Err(pe) => Err(pe),
    }
}

/// Conversely, a digit run is pinned down by its contents: all digits up
/// to `j`, and a non-digit (or the end) at `j`.
proof fn lemma_digits_end_exact(s: Seq<char>, i: nat, j: nat)
    requires
        i <= j <= s.len(),
        forall|t: int| i <= t < j ==> is_digit(s[t]),
        j < s.len() ==> !is_digit(s[j as int]),
    ensures
        digits_end(s, i) == j,
    decreases j - i,
{
    if i < j {
        lemma_digits_end_exact(s, i + 1, j);
    }
}

/// A literal sitting at `[i, j)`, with nothing at `j` that could extend
/// it, is exactly what the `atom` rule takes there.
proof fn lemma_atom_at(s: Seq<char>, i: nat, j: nat)
    requires
        i < j <= s.len(),
        is_literal(s.subrange(i as int, j as int)),
        j < s.len() ==> !is_digit(s[j as int]) && s[j as int] != '.',
    ensures
        spec_atom(s, i) == Some((s.subrange(i as int, j as int), j)),
{
    let l = s.subrange(i as int, j as int);
    if is_int_literal(l) {
        assert forall|t: int| i <= t < j implies is_digit(s[t]) by {
            assert(l[t - i] == s[t]);
        }
        lemma_digits_end_exact(s, i, j);
    } else {
        let d = choose|d: int|
            0 < d < l.len() && #[trigger] l[d] == '.' && is_int_literal(l.subrange(0, d))
                && is_int_literal(l.subrange(d + 1, l.len() as int));
        let ip = l.subrange(0, d);
        let fp = l.subrange(d + 1, l.len() as int);
        assert forall|t: int| i <= t < i + d implies is_digit(s[t]) by {
            assert(ip[t - i] == s[t]);
        }
        assert(s[i + d] == l[d]);
        lemma_digits_end_exact(s, i, (i + d) as nat);
        assert forall|t: int| i + d + 1 <= t < j implies is_digit(s[t]) by {
            assert(fp[t - (i + d + 1)] == s[t]);
        }
        lemma_digits_end_exact(s, (i + d + 1) as nat, j);
        assert(fp.len() > 0);
    }
}

/// The first character of any literal is a digit.
proof fn lemma_literal_starts_with_digit(l: Seq<char>)
    requires
        is_literal(l),
    ensures
        l.len() > 0 && is_digit(l[0]),
{
    if !is_int_literal(l) {
        let d = choose|d: int|
            0 < d < l.len() && #[trigger] l[d] == '.' && is_int_literal(l.subrange(0, d))
                && is_int_literal(l.subrange(d + 1, l.len() as int));
        assert(l.subrange(0, d)[0] == l[0]);
    }
}

/// Parsing a text that is one bare numeric literal yields exactly that
/// literal's `Num` leaf.
pub proof fn lemma_parse_literal(s: Seq<char>)
    requires
        is_literal(s),
    ensures
        spec_parse(s) == Some(ExprModel::Num(s)),
{
    lemma_literal_starts_with_digit(s);
    assert(s.subrange(0, s.len() as int) =~= s);
    lemma_atom_at(s, 0, s.len());
    assert(spec_unary(s, 0) == Some((ExprModel::Num(s), s.len() as nat)));
}

/// Chained subtraction folds left-to-right: for any literals `a`, `b`,
/// `c`, the text `a-b-c` parses as `(a - b) - c`, never as `a - (b - c)`.
pub proof fn lemma_sub_left_associative(a: Seq<char>, b: Seq<char>, c: Seq<char>)
    requires
        is_literal(a),
        is_literal(b),
        is_literal(c),
    ensures
        spec_parse(a + seq!['-'] + b + seq!['-'] + c) == Some(
            ExprModel::Sub(
                Box::new(
                    ExprModel::Sub(Box::new(ExprModel::Num(a)), Box::new(ExprModel::Num(b))),
                ),
                Box::new(ExprModel::Num(c)),
            ),
        ),
{
    let s = a + seq!['-'] + b + seq!['-'] + c;
    let la = a.len() as int;
    let p2 = la + 1 + b.len() as int;
    let n = s.len() as int;
    lemma_literal_starts_with_digit(a);
    lemma_literal_starts_with_digit(b);
    lemma_literal_starts_with_digit(c);
    assert(s.subrange(0, la) =~= a);
    assert(s[la] == '-');
    assert(s.subrange(la + 1, p2) =~= b);
    assert(s[p2] == '-');
    assert(s.subrange(p2 + 1, n) =~= c);
    lemma_atom_at(s, 0, la as nat);
    assert(spec_unary(s, 0) == Some((ExprModel::Num(a), la as nat)));
    assert(spec_product(s, 0) == Some((ExprModel::Num(a), la as nat)));
    lemma_atom_at(s, (la + 1) as nat, p2 as nat);
    assert(spec_unary(s, (la + 1) as nat) == Some((ExprModel::Num(b), p2 as nat)));
    assert(spec_product(s, (la + 1) as nat) == Some((ExprModel::Num(b), p2 as nat)));
    lemma_atom_at(s, (p2 + 1) as nat, n as nat);
    assert(spec_unary(s, (p2 + 1) as nat) == Some((ExprModel::Num(c), n as nat)));
    assert(spec_product(s, (p2 + 1) as nat) == Some((ExprModel::Num(c), n as nat)));
    let ab = ExprModel::Sub(Box::new(ExprModel::Num(a)), Box::new(ExprModel::Num(b)));
    let abc = ExprModel::Sub(Box::new(ab), Box::new(ExprModel::Num(c)));
    assert(spec_sum_rest(s, n as nat, abc) == Some((abc, n as nat)));
    assert(spec_sum_rest(s, p2 as nat, ab) == Some((abc, n as nat)));
    assert(spec_sum_rest(s, la as nat, ExprModel::Num(a)) == Some((abc, n as nat)));
    assert(spec_sum(s, 0) == Some((abc, n as nat)));
}

/// Precedence: unary minus binds only the atom right after it, and a
/// product binds tighter than a sum. For any literals `a`, `b`, `c`, the
/// text `-a*b+c` parses as `((-a) * b) + c` — not as `-(a*b)` anywhere,
/// nor as `(-a) * (b+c)`.
pub proof fn lemma_precedence(a: Seq<char>, b: Seq<char>, c: Seq<char>)
    requires
        is_literal(a),
        is_literal(b),
        is_literal(c),
    ensures
        spec_parse(seq!['-'] + a + seq!['*'] + b + seq!['+'] + c) == Some(
            ExprModel::Add(
                Box::new(
                    ExprModel::Mul(
                        Box::new(ExprModel::Neg(Box::new(ExprModel::Num(a)))),
                        Box::new(ExprModel::Num(b)),
                    ),
                ),
                Box::new(ExprModel::Num(c)),
            ),
        ),
{
    let s = seq!['-'] + a + seq!['*'] + b + seq!['+'] + c;
    let p1 = 1 + a.len() as int;
    let p2 = p1 + 1 + b.len() as int;
    let n = s.len() as int;
    lemma_literal_starts_with_digit(a);
    lemma_literal_starts_with_digit(b);
    lemma_literal_starts_with_digit(c);
    assert(s[0] == '-');
    assert(s.subrange(1, p1) =~= a);
    assert(s[p1] == '*');
    assert(s.subrange(p1 + 1, p2) =~= b);
    assert(s[p2] == '+');
    assert(s.subrange(p2 + 1, n) =~= c);
    lemma_atom_at(s, 1, p1 as nat);
    assert(spec_unary(s, 1) == Some((ExprModel::Num(a), p1 as nat)));
    let neg_a = ExprModel::Neg(Box::new(ExprModel::Num(a)));
    assert(spec_unary(s, 0) == Some((neg_a, p1 as nat)));
    lemma_atom_at(s, (p1 + 1) as nat, p2 as nat);
    assert(spec_unary(s, (p1 + 1) as nat) == Some((ExprModel::Num(b), p2 as nat)));
    let prod = ExprModel::Mul(Box::new(neg_a), Box::new(ExprModel::Num(b)));
    assert(spec_product_rest(s, p2 as nat, prod) == Some((prod, p2 as nat)));
    assert(spec_product(s, 0) == Some((prod, p2 as nat)));
    lemma_atom_at(s, (p2 + 1) as nat, n as nat);
    assert(spec_unary(s, (p2 + 1) as nat) == Some((ExprModel::Num(c), n as nat)));
    assert(spec_product(s, (p2 + 1) as nat) == Some((ExprModel::Num(c), n as nat)));
    let total = ExprModel::Add(Box::new(prod), Box::new(ExprModel::Num(c)));
    assert(spec_sum_rest(s, n as nat, total) == Some((total, n as nat)));
    assert(spec_sum_rest(s, p2 as nat, prod) == Some((total, n as nat)));
    assert(spec_sum(s, 0) == Some((total, n as nat)));
}

/// Double negation is two nested `Neg` nodes: for any literal `a`, the
/// text `--a` parses as `Neg(Neg(a))` — the two minuses fold
/// right-to-left onto the atom, they do not cancel in the grammar.
pub proof fn lemma_double_negation(a: Seq<char>)
    requires
        is_literal(a),
    ensures
        spec_parse(seq!['-', '-'] + a) == Some(
            ExprModel::Neg(Box::new(ExprModel::Neg(Box::new(ExprModel::Num(a))))),
        ),
{
    let s = seq!['-', '-'] + a;
    let n = s.len() as int;
    lemma_literal_starts_with_digit(a);
    assert(s[0] == '-');
    assert(s[1] == '-');
    assert(s.subrange(2, n) =~= a);
    lemma_atom_at(s, 2, n as nat);
    assert(spec_unary(s, 2) == Some((ExprModel::Num(a), n as nat)));
    assert(spec_unary(s, 1) == Some(
        (ExprModel::Neg(Box::new(ExprModel::Num(a))), n as nat),
    ));
    let e = ExprModel::Neg(Box::new(ExprModel::Neg(Box::new(ExprModel::Num(a)))));
    assert(spec_unary(s, 0) == Some((e, n as nat)));
    assert(spec_sum(s, 0) == Some((e, n as nat)));
}

/// Where the `unary` rule matches, it ends after where it began and
/// within the sequence.
proof fn lemma_unary_bounds(s: Seq<char>, i: nat)
    requires
        i <= s.len(),
    ensures
        spec_unary(s, i) matches Some((e, k)) ==> i < k <= s.len(),
    decreases s.len() - i,
{
    if i < s.len() && (is_space(s[i as int]) || s[i as int] == '-') {
        lemma_unary_bounds(s, i + 1);
    } else {
        lemma_digits_end(s, i);
        let j = digits_end(s, i);
        if j != i && j < s.len() && s[j as int] == '.' {
            lemma_digits_end(s, j + 1);
        }
    }
}

/// Where the tail of the `product` rule matches, it ends no earlier than
/// where it began and within the sequence.
proof fn lemma_product_rest_bounds(s: Seq<char>, i: nat, acc: ExprModel)
    requires
        i <= s.len(),
    ensures
        spec_product_rest(s, i, acc) matches Some((e, k)) ==> i <= k <= s.len(),
    decreases s.len() - i,
{
    if i < s.len() && is_space(s[i as int]) {
        lemma_product_rest_bounds(s, i + 1, acc);
    } else if i < s.len() && (s[i as int] == '*' || s[i as int] == '/') {
        match spec_unary(s, i + 1) {
            Some((rhs, k)) => {
                if i + 1 <= k && k <= s.len() {
                    let node = if s[i as int] == '*' {
                        ExprModel::Mul(Box::new(acc), Box::new(rhs))
                    } else {
                        ExprModel::Div(Box::new(acc), Box::new(rhs))
                    };
                    lemma_product_rest_bounds(s, k, node);
                }
            },
            None => {},
        }
    }
}

/// Where the tail of the `sum` rule matches, it ends no earlier than
/// where it began and within the sequence.
proof fn lemma_sum_rest_bounds(s: Seq<char>, i: nat, acc: ExprModel)
    requires
        i <= s.len(),
    ensures
        spec_sum_rest(s, i, acc) matches Some((e, k)) ==> i <= k <= s.len(),
    decreases s.len() - i,
{
    if i < s.len() && is_space(s[i as int]) {
        lemma_sum_rest_bounds(s, i + 1, acc);
    } else if i < s.len() && (s[i as int] == '+' || s[i as int] == '-') {
        match spec_product(s, i + 1) {
            Some((rhs, k)) => {
                if i + 1 <= k && k <= s.len() {
                    let node = if s[i as int] == '+' {
                        ExprModel::Add(Box::new(acc), Box::new(rhs))
                    } else {
                        ExprModel::Sub(Box::new(acc), Box::new(rhs))
                    };
                    lemma_sum_rest_bounds(s, k, node);
                }
            },
            None => {},
        }
    }
}

/// A digit run is unmoved by a space put in front of the whole sequence.
proof fn lemma_digits_end_space(s: Seq<char>, i: nat)
    requires
        i <= s.len(),
    ensures
        digits_end(seq![' '] + s, i + 1) == digits_end(s, i) + 1,
    decreases s.len() - i,
{
    let t = seq![' '] + s;
    if i < s.len() {
        assert(t[i as int + 1] == s[i as int]);
        if is_digit(s[i as int]) {
            lemma_digits_end_space(s, i + 1);
        }
    }
}

/// The `atom` rule is unmoved by a space put in front of the whole
/// sequence: same literal, position one later.
proof fn lemma_atom_space(s: Seq<char>, i: nat)
    requires
        i <= s.len(),
    ensures
        spec_atom(seq![' '] + s, i + 1) == (match spec_atom(s, i) {
            Some((l, k)) => Some((l, (k + 1) as nat)),
            None => None::<(Seq<char>, nat)>,
        }),
{
    let t = seq![' '] + s;
    lemma_digits_end(s, i);
    lemma_digits_end_space(s, i);
    let j = digits_end(s, i);
    if j != i {
        if j < s.len() {
            assert(t[j as int + 1] == s[j as int]);
        }
        if j < s.len() && s[j as int] == '.' {
            lemma_digits_end(s, j + 1);
            lemma_digits_end_space(s, j + 1);
            let k = digits_end(s, j + 1);
            if k > j + 1 {
                assert(t.subrange(i as int + 1, k as int + 1) =~= s.subrange(i as int, k as int));
            } else {
                assert(t.subrange(i as int + 1, j as int + 1) =~= s.subrange(i as int, j as int));
            }
        } else {
            assert(t.subrange(i as int + 1, j as int + 1) =~= s.subrange(i as int, j as int));
        }
    }
}

/// The `unary` rule is unmoved by a space put in front of the whole
/// sequence.
proof fn lemma_unary_space(s: Seq<char>, i: nat)
    requires
        i <= s.len(),
    ensures
        spec_unary(seq![' '] + s, i + 1) == (match spec_unary(s, i) {
            Some((e, k)) => Some((e, (k + 1) as nat)),
            None => None::<(ExprModel, nat)>,
        }),
    decreases s.len() - i,
{
    let t = seq![' '] + s;
    if i < s.len() {
        assert(t[i as int + 1] == s[i as int]);
        if is_space(s[i as int]) || s[i as int] == '-' {
            lemma_unary_space(s, i + 1);
        } else {
            lemma_atom_space(s, i);
        }
    } else {
        lemma_atom_space(s, i);
    }
}

/// The tail of the `product` rule is unmoved by a space put in front of
/// the whole sequence.
proof fn lemma_product_rest_space(s: Seq<char>, i: nat, acc: ExprModel)
    requires
        i <= s.len(),
    ensures
        spec_product_rest(seq![' '] + s, i + 1, acc) == (match spec_product_rest(s, i, acc) {
            Some((e, k)) => Some((e, (k + 1) as nat)),
            None => None::<(ExprModel, nat)>,
        }),
    decreases s.len() - i,
{
    let t = seq![' '] + s;
    if i < s.len() {
        assert(t[i as int + 1] == s[i as int]);
        if is_space(s[i as int]) {
            lemma_product_rest_space(s, i + 1, acc);
        } else if s[i as int] == '*' || s[i as int] == '/' {
            lemma_unary_space(s, i + 1);
            match spec_unary(s, i + 1) {
                Some((rhs, k)) => {
                    if i + 1 <= k && k <= s.len() {
                        let node = if s[i as int] == '*' {
                            ExprModel::Mul(Box::new(acc), Box::new(rhs))
                        } else {
                            ExprModel::Div(Box::new(acc), Box::new(rhs))
                        };
                        lemma_product_rest_space(s, k, node);
                    }
                },
                None => {},
            }
        }
    }
}

/// The tail of the `sum` rule is unmoved by a space put in front of the
/// whole sequence.
proof fn lemma_sum_rest_space(s: Seq<char>, i: nat, acc: ExprModel)
    requires
        i <= s.len(),
    ensures
        spec_sum_rest(seq![' '] + s, i + 1, acc) == (match spec_sum_rest(s, i, acc) {
            Some((e, k)) => Some((e, (k + 1) as nat)),
            None => None::<(ExprModel, nat)>,
        }),
    decreases s.len() - i,
{
    let t = seq![' '] + s;
    if i < s.len() {
        assert(t[i as int + 1] == s[i as int]);
        if is_space(s[i as int]) {
            lemma_sum_rest_space(s, i + 1, acc);
        } else if s[i as int] == '+' || s[i as int] == '-' {
            lemma_unary_space(s, i + 1);
            lemma_unary_bounds(s, i + 1);
            match spec_unary(s, i + 1) {
                Some((u, j)) => {
                    lemma_product_rest_space(s, j, u);
                },
                None => {},
            }
            match spec_product(s, i + 1) {
                Some((rhs, k)) => {
                    if i + 1 <= k && k <= s.len() {
                        let node = if s[i as int] == '+' {
                            ExprModel::Add(Box::new(acc), Box::new(rhs))
                        } else {
                            ExprModel::Sub(Box::new(acc), Box::new(rhs))
                        };
                        lemma_sum_rest_space(s, k, node);
                    }
                },
                None => {},
            }
        }
    }
}

/// A digit run is unmoved by a space put after the whole sequence.
proof fn lemma_digits_end_trailing(s: Seq<char>, i: nat)
    requires
        i <= s.len(),
    ensures
        digits_end(s + seq![' '], i) == digits_end(s, i),
    decreases s.len() - i,
{
    let t = s + seq![' '];
    if i < s.len() {
        assert(t[i as int] == s[i as int]);
        if is_digit(s[i as int]) {
            lemma_digits_end_trailing(s, i + 1);
        }
    } else {
        assert(t[i as int] == ' ');
    }
}

/// The `atom` rule is unmoved by a space put after the whole sequence.
proof fn lemma_atom_trailing(s: Seq<char>, i: nat)
    requires
        i <= s.len(),
    ensures
        spec_atom(s + seq![' '], i) == spec_atom(s, i),
{
    let t = s + seq![' '];
    lemma_digits_end(s, i);
    lemma_digits_end_trailing(s, i);
    let j = digits_end(s, i);
    if j != i {
        if j < s.len() {
            assert(t[j as int] == s[j as int]);
        } else {
            assert(t[j as int] == ' ');
        }
        if j < s.len() && s[j as int] == '.' {
            lemma_digits_end(s, j + 1);
            lemma_digits_end_trailing(s, j + 1);
            let k = digits_end(s, j + 1);
            if k > j + 1 {
                assert(t.subrange(i as int, k as int) =~= s.subrange(i as int, k as int));
            } else {
                assert(t.subrange(i as int, j as int) =~= s.subrange(i as int, j as int));
            }
        } else {
            assert(t.subrange(i as int, j as int) =~= s.subrange(i as int, j as int));
        }
    }
}

/// The `unary` rule is unmoved by a space put after the whole sequence.
proof fn lemma_unary_trailing(s: Seq<char>, i: nat)
    requires
        i <= s.len(),
    ensures
        spec_unary(s + seq![' '], i) == spec_unary(s, i),
    decreases s.len() + 1 - i,
{
    let t = s + seq![' '];
    if i < s.len() {
        assert(t[i as int] == s[i as int]);
        if is_space(s[i as int]) || s[i as int] == '-' {
            lemma_unary_trailing(s, i + 1);
        } else {
            lemma_atom_trailing(s, i);
        }
    } else {
        assert(t[i as int] == ' ');
        lemma_digits_end(s, i);
        assert(digits_end(t, i + 1) == i + 1);
        assert(spec_unary(t, i + 1) is None);
    }
}

/// The tail of the `product` rule with a space put after the whole
/// sequence: the same fold, except that a fold ending exactly at the old
/// end goes on to take the new space too.
proof fn lemma_product_rest_trailing(s: Seq<char>, i: nat, acc: ExprModel)
    requires
        i <= s.len(),
    ensures
        spec_product_rest(s + seq![' '], i, acc) == (match spec_product_rest(s, i, acc) {
            Some((e, k)) => Some(
                (
                    e,
                    if k == s.len() {
                        (k + 1) as nat
                    } else {
                        k
                    },
                ),
            ),
            None => None::<(ExprModel, nat)>,
        }),
    decreases s.len() - i,
{
    let t = s + seq![' '];
    if i < s.len() {
        assert(t[i as int] == s[i as int]);
        if is_space(s[i as int]) {
            lemma_product_rest_trailing(s, i + 1, acc);
        } else if s[i as int] == '*' || s[i as int] == '/' {
            lemma_unary_trailing(s, i + 1);
            lemma_unary_bounds(s, i + 1);
            match spec_unary(s, i + 1) {
                Some((rhs, k)) => {
                    let node = if s[i as int] == '*' {
                        ExprModel::Mul(Box::new(acc), Box::new(rhs))
                    } else {
                        ExprModel::Div(Box::new(acc), Box::new(rhs))
                    };
                    lemma_product_rest_trailing(s, k, node);
                },
                None => {},
            }
        }
    } else {
        assert(t[i as int] == ' ');
        assert(spec_product_rest(t, i + 1, acc) == Some((acc, (i + 1) as nat)));
    }
}

/// The tail of the `sum` rule with a space put after the whole sequence:
/// the same fold, except that a fold ending exactly at the old end goes
/// on to take the new space too.
proof fn lemma_sum_rest_trailing(s: Seq<char>, i: nat, acc: ExprModel)
    requires
        i <= s.len(),
    ensures
        spec_sum_rest(s + seq![' '], i, acc) == (match spec_sum_rest(s, i, acc) {
            Some((e, k)) => Some(
                (
                    e,
                    if k == s.len() {
                        (k + 1) as nat
                    } else {
                        k
                    },
                ),
            ),
            None => None::<(ExprModel, nat)>,
        }),
    decreases s.len() - i,
{
    let t = s + seq![' '];
    if i < s.len() {
        assert(t[i as int] == s[i as int]);
        if is_space(s[i as int]) {
            lemma_sum_rest_trailing(s, i + 1, acc);
        } else if s[i as int] == '+' || s[i as int] == '-' {
            lemma_unary_trailing(s, i + 1);
            lemma_unary_bounds(s, i + 1);
            match spec_unary(s, i + 1) {
                Some((u, j)) => {
                    lemma_product_rest_trailing(s, j, u);
                    lemma_product_rest_bounds(s, j, u);
                },
                None => {},
            }
            match spec_product(s, i + 1) {
                Some((rhs, k)) => {
                    let node = if s[i as int] == '+' {
                        ExprModel::Add(Box::new(acc), Box::new(rhs))
                    } else {
                        ExprModel::Sub(Box::new(acc), Box::new(rhs))
                    };
                    if k == s.len() {
                        assert(spec_sum_rest(t, (k + 1) as nat, node) == Some(
                            (node, (k + 1) as nat),
                        ));
                        assert(spec_sum_rest(s, k, node) == Some((node, k)));
                    } else if i + 1 <= k {
                        lemma_sum_rest_trailing(s, k, node);
                    }
                },
                None => {},
            }
        }
    } else {
        assert(t[i as int] == ' ');
        assert(spec_sum_rest(t, i + 1, acc) == Some((acc, (i + 1) as nat)));
    }
}

/// A space after the input is insignificant: the parse of the spaced
/// text is exactly the parse of the text.
pub proof fn lemma_trailing_space(s: Seq<char>)
    ensures
        spec_parse(s + seq![' ']) == spec_parse(s),
{
    lemma_unary_trailing(s, 0);
    lemma_unary_bounds(s, 0);
    match spec_unary(s, 0) {
        Some((u, j)) => {
            lemma_product_rest_trailing(s, j, u);
            lemma_product_rest_bounds(s, j, u);
        },
        None => {},
    }
    let t = s + seq![' '];
    match spec_product(s, 0) {
        Some((e, j)) => {
            if j == s.len() {
                assert(spec_sum_rest(t, (j + 1) as nat, e) == Some((e, (j + 1) as nat)));
                assert(spec_sum_rest(s, j, e) == Some((e, j)));
            } else {
                lemma_sum_rest_trailing(s, j, e);
                lemma_sum_rest_bounds(s, j, e);
            }
        },
        None => {},
    }
}

/// A space in front of the input is insignificant: the parse of the
/// spaced text is exactly the parse of the text, so in particular spaces
/// before an expression never change its tree. (Spaces elsewhere around
/// numbers and operators are taken by the rules themselves.)
pub proof fn lemma_leading_space(s: Seq<char>)
    ensures
        spec_parse(seq![' '] + s) == spec_parse(s),
{
    let t = seq![' '] + s;
    lemma_unary_space(s, 0);
    lemma_unary_bounds(s, 0);
    match spec_unary(s, 0) {
        Some((u, j)) => {
            lemma_product_rest_space(s, j, u);
            lemma_product_rest_bounds(s, j, u);
        },
        None => {},
    }
    match spec_product(s, 0) {
        Some((e, j)) => {
            lemma_sum_rest_space(s, j, e);
        },
        None => {},
    }
    assert(t[0] == ' ');
}

impl Expr {
    /// The literal text of a `Num` leaf. The tree's other node kinds hold
    /// no literal, so they are ruled out up front.
    pub fn unwrap_num(self) -> (r: String)
        requires
            self@ is Num,
        ensures
            self@ == ExprModel::Num(r@),
    {
        match self {
            Expr::Num(num) => num,
            _ => unreached(),
        }
    }
}

} // verus!
