use crate::constant::{Decimal, MAX_SCALE};
use vstd::prelude::*;

verus! {

/// The grammar's modifier tokens, and the expression rule itself.
#[derive(Debug, Clone, Copy, PartialEq, Eq, Structural)]
pub enum Rule {
    Expr,
    Explode,
    IExplode,
    Reroll,
    IReroll,
    KeepHi,
    KeepLo,
    DropHi,
    DropLo,
    Target,
    DoubleTarget,
    Failure,
}

/// The infix operators, by increasing precedence: `+` and `-`, then `*` and `/`.
#[derive(Debug, Clone, Copy, PartialEq, Eq, Structural)]
pub enum Op {
    Add,
    Sub,
    Mul,
    Div,
}

impl Op {
    /// How the operator is written in a history.
    pub fn symbol(&self) -> (r: &'static str)
        ensures
            r@ == crate::render::op_text(*self),
    {
        proof {
            reveal_strlit(" + ");
            reveal_strlit(" - ");
            reveal_strlit(" * ");
            reveal_strlit(" / ");
        }
        match *self {
            Op::Add => " + ",
            Op::Sub => " - ",
            Op::Mul => " * ",
            Op::Div => " / ",
        }
    }
}

/// A modifier token of a dice term, with the number it carries.
#[derive(Debug, Clone, Copy, PartialEq, Eq, Structural)]
pub enum Token {
    Explode(Option<u64>),
    IExplode(Option<u64>),
    Reroll(u64),
    IReroll(u64),
    KeepHi(u64),
    KeepLo(u64),
    DropHi(u64),
    DropLo(u64),
    Target(u64),
    /// `t[...]`: the list of faces starts at this position, after the bracket.
    TargetList(usize),
    DoubleTarget(u64),
    Failure(u64),
}

/// A dice term `NdS` or `NdF`, followed by its modifier tokens.
#[derive(Debug, Clone, Copy, PartialEq, Eq, Structural)]
pub struct Dice {
    /// The number of dice; one when absent.
    pub amount: Option<u64>,
    /// The number of sides; `None` for fudge dice.
    pub sides: Option<u64>,
    /// Where the term starts.
    pub start: usize,
    /// Where its modifier tokens start.
    pub mods: usize,
    /// Where the term ends.
    pub end: usize,
}

/// An expression of the grammar.
#[derive(Debug)]
pub enum Expr {
    Integer(i64),
    Float(Decimal),
    Dice(Dice),
    Block(Box<Expr>),
    Binary(Op, Box<Expr>, Box<Expr>),
}

/// How a repeated expression combines its results.
#[derive(Debug, Clone, Copy, PartialEq, Eq, Structural)]
pub enum Repeat {
    /// `^ N`: the results as they come.
    Plain,
    /// `^+ N`: the results and their sum.
    Sum,
    /// `^# N`: the results sorted by ascending total.
    Sort,
}

/// An expression, or an expression to evaluate a number of times.
#[derive(Debug)]
pub enum Body {
    Single(Expr),
    Repeated(Expr, Repeat, u64),
}

/// A whole query: the body and where the reason starts (after the `:`), if any.
#[derive(Debug)]
pub struct Command {
    pub body: Body,
    pub reason: Option<usize>,
}

/// Every decimal literal of the expression is well formed.
pub open spec fn expr_wf(e: Expr) -> bool
    decreases e,
{
    match e {
        Expr::Float(d) => d.wf(),
        Expr::Block(b) => expr_wf(*b),
        Expr::Binary(_, l, r) => expr_wf(*l) && expr_wf(*r),
        _ => true,
    }
}

/// Every dice term of the expression lies inside the first `n` characters.
pub open spec fn spans_ok(e: Expr, n: int) -> bool
    decreases e,
{
    match e {
        Expr::Dice(d) => d.start <= d.end <= n,
        Expr::Block(b) => spans_ok(*b, n),
        Expr::Binary(_, l, r) => spans_ok(*l, n) && spans_ok(*r, n),
        _ => true,
    }
}

/// The dice terms of the expression, left to right.
pub open spec fn dice_terms(e: Expr) -> Seq<Dice>
    decreases e,
{
    match e {
        Expr::Dice(d) => seq![d],
        Expr::Block(b) => dice_terms(*b),
        Expr::Binary(_, l, r) => dice_terms(*l) + dice_terms(*r),
        _ => Seq::empty(),
    }
}

/// The expression of a body.
pub open spec fn body_expr(b: Body) -> Expr {
    match b {
        Body::Single(e) => e,
        Body::Repeated(e, _, _) => e,
    }
}

/// The body's expression is well formed.
pub open spec fn body_wf(b: Body) -> bool {
    match b {
        Body::Single(e) => expr_wf(e),
        Body::Repeated(e, _, _) => expr_wf(e),
    }
}

pub open spec fn lift<T>(r: Option<(T, usize)>) -> Option<(T, int)> {
    match r {
        Some((v, q)) => Some((v, q as int)),
        None => None,
    }
}

pub open spec fn is_space(c: char) -> bool {
    c == ' ' || c == '\t' || c == '\n' || c == '\r'
}

pub open spec fn is_digit(c: char) -> bool {
    48 <= (c as u32) <= 57
}

pub open spec fn digit_value(c: char) -> int {
    (c as u32) - 48
}

/// The character at `p`, if `p` is inside `s`.
pub open spec fn at(s: Seq<char>, p: int, c: char) -> bool {
    0 <= p < s.len() && s[p] == c
}

/// The first position from `p` on that does not hold white space.
pub open spec fn skip_ws(s: Seq<char>, p: int) -> int
    decreases s.len() - p,
{
    if 0 <= p < s.len() && is_space(s[p]) {
        skip_ws(s, p + 1)
    } else {
        p
    }
}

/// Reads the digits from `p` on after the value `acc`, and where they end;
/// `None` once the value exceeds `u64::MAX`.
pub open spec fn digits(s: Seq<char>, p: int, acc: int) -> Option<(int, int)>
    decreases s.len() - p,
{
    if 0 <= p < s.len() && is_digit(s[p]) {
        let a = acc * 10 + digit_value(s[p]);
        if a > u64::MAX {
            None
        } else {
            digits(s, p + 1, a)
        }
    } else {
        Some((acc, p))
    }
}

/// An unsigned number of at least one digit.
pub open spec fn number(s: Seq<char>, p: int) -> Option<(u64, int)> {
    if 0 <= p < s.len() && is_digit(s[p]) {
        match digits(s, p, 0) {
            Some((v, q)) => Some((v as u64, q)),
            None => None,
        }
    } else {
        None
    }
}

/// An optional sign, with the white space after it: whether it is `-`, and where
/// the rest starts.
pub open spec fn sign(s: Seq<char>, p: int) -> (bool, int) {
    if at(s, p, '-') {
        (true, skip_ws(s, p + 1))
    } else if at(s, p, '+') {
        (false, skip_ws(s, p + 1))
    } else {
        (false, p)
    }
}

/// A signed integer literal.
pub open spec fn integer(s: Seq<char>, p: int) -> Option<(i64, int)> {
    let (neg, q) = sign(s, p);
    match number(s, q) {
        Some((v, e)) => if v > i64::MAX {
            None
        } else if neg {
            Some(((-(v as int)) as i64, e))
        } else {
            Some((v as i64, e))
        },
        None => None,
    }
}

/// A signed decimal literal `D.D`, with at most `MAX_SCALE` digits after the point.
pub open spec fn float(s: Seq<char>, p: int) -> Option<(Decimal, int)> {
    let (neg, q) = sign(s, p);
    if 0 <= q < s.len() && is_digit(s[q]) {
        match digits(s, q, 0) {
            Some((a, r)) => if at(s, r, '.') && r + 1 < s.len() && is_digit(s[r + 1]) {
                match digits(s, r + 1, a) {
                    Some((m, e)) => if e - (r + 1) > MAX_SCALE || m > i64::MAX {
                        None
                    } else {
                        let mantissa = if neg {
                            -m
                        } else {
                            m
                        };
                        Some((Decimal { mantissa: mantissa as i64, scale: (e - (r + 1)) as u32 }, e))
                    },
                    None => None,
                }
            } else {
                None
            },
            None => None,
        }
    } else {
        None
    }
}

/// A number, or nothing.
pub open spec fn opt_number(s: Seq<char>, p: int) -> (Option<u64>, int) {
    match number(s, p) {
        Some((v, q)) => (Some(v), q),
        None => (None, p),
    }
}

/// A modifier token at `p`.
pub open spec fn modifier(s: Seq<char>, p: int) -> Option<(Token, int)> {
    if at(s, p, '!') && at(s, p + 1, '!') {
        let (v, q) = opt_number(s, p + 2);
        Some((Token::IExplode(v), q))
    } else if at(s, p, '!') {
        let (v, q) = opt_number(s, p + 1);
        Some((Token::Explode(v), q))
    } else if at(s, p, 'r') && at(s, p + 1, 'r') {
        match number(s, p + 2) {
            Some((v, q)) => Some((Token::IReroll(v), q)),
            None => None,
        }
    } else if at(s, p, 'r') {
        match number(s, p + 1) {
            Some((v, q)) => Some((Token::Reroll(v), q)),
            None => None,
        }
    } else if (at(s, p, 'k') || at(s, p, 'd')) && (at(s, p + 1, 'h') || at(s, p + 1, 'l')) {
        match number(s, p + 2) {
            Some((v, q)) => Some((
                if s[p] == 'k' && s[p + 1] == 'h' {
                    Token::KeepHi(v)
                } else if s[p] == 'k' {
                    Token::KeepLo(v)
                } else if s[p + 1] == 'h' {
                    Token::DropHi(v)
                } else {
                    Token::DropLo(v)
                },
                q,
            )),
            None => None,
        }
    } else if at(s, p, 't') && at(s, p + 1, 't') {
        match number(s, p + 2) {
            Some((v, q)) => Some((Token::DoubleTarget(v), q)),
            None => None,
        }
    } else if at(s, p, 't') && at(s, p + 1, '[') {
        match list(s, p + 2, Seq::empty()) {
            Some((_, q)) => Some((Token::TargetList((p + 2) as usize), q)),
            None => None,
        }
    } else if at(s, p, 't') {
        match number(s, p + 1) {
            Some((v, q)) => Some((Token::Target(v), q)),
            None => None,
        }
    } else if at(s, p, 'f') {
        match number(s, p + 1) {
            Some((v, q)) => Some((Token::Failure(v), q)),
            None => None,
        }
    } else {
        None
    }
}

/// The rest of a list of numbers `n, n, ... ]`, after the numbers `acc`.
pub open spec fn list(s: Seq<char>, p: int, acc: Seq<u64>) -> Option<(Seq<u64>, int)>
    decreases s.len() - p,
{
    let q = skip_ws(s, p);
    match number(s, q) {
        Some((v, r)) => {
            let e = skip_ws(s, r);
            if at(s, e, ']') {
                Some((acc.push(v), e + 1))
            } else if at(s, e, ',') && e + 1 > p {
                list(s, e + 1, acc.push(v))
            } else {
                None
            }
        },
        None => None,
    }
}

/// Where the modifier tokens that follow position `p` end.
pub open spec fn mods_end(s: Seq<char>, p: int) -> int
    decreases s.len() - p,
{
    let q = skip_ws(s, p);
    match modifier(s, q) {
        Some((_, r)) => if p < r <= s.len() {
            mods_end(s, r)
        } else {
            p
        },
        None => p,
    }
}

/// A dice term at `p`.
pub open spec fn dice(s: Seq<char>, p: int) -> Option<(Dice, int)> {
    let (amount, q) = opt_number(s, p);
    if at(s, q, 'd') {
        let sides = if at(s, q + 1, 'F') {
            Some((None::<u64>, q + 2))
        } else {
            match number(s, q + 1) {
                Some((n, e)) => Some((Some(n), e)),
                None => None,
            }
        };
        match sides {
            Some((sides, e)) => {
                let end = mods_end(s, e);
                Some((Dice { amount, sides, start: p as usize, mods: e as usize, end: end as usize }, end))
            },
            None => None,
        }
    } else {
        None
    }
}

/// A parenthesised expression, a dice term, a decimal or an integer, at `p`.
pub open spec fn atom(s: Seq<char>, p: int) -> Option<(Expr, int)>
    decreases s.len() - p, 1int,
{
    if at(s, p, '(') {
        match expr(s, p + 1) {
            Some((e, q)) => {
                let r = skip_ws(s, q);
                if at(s, r, ')') {
                    Some((Expr::Block(Box::new(e)), r + 1))
                } else {
                    None
                }
            },
            None => None,
        }
    } else {
        match dice(s, p) {
            Some((d, q)) => Some((Expr::Dice(d), q)),
            None => match float(s, p) {
                Some((f, q)) => Some((Expr::Float(f), q)),
                None => match integer(s, p) {
                    Some((n, q)) => Some((Expr::Integer(n), q)),
                    None => None,
                },
            },
        }
    }
}

/// The `*` or `/` at `p`.
pub open spec fn mul_op(s: Seq<char>, p: int) -> Option<Op> {
    if at(s, p, '*') {
        Some(Op::Mul)
    } else if at(s, p, '/') {
        Some(Op::Div)
    } else {
        None
    }
}

/// The `+` or `-` at `p`.
pub open spec fn add_op(s: Seq<char>, p: int) -> Option<Op> {
    if at(s, p, '+') {
        Some(Op::Add)
    } else if at(s, p, '-') {
        Some(Op::Sub)
    } else {
        None
    }
}

/// Products and quotients after the operand `acc`, which ends at `q`.
pub open spec fn term_rest(s: Seq<char>, q: int, acc: Expr) -> Option<(Expr, int)>
    decreases s.len() - q, 0int,
{
    let r = skip_ws(s, q);
    match mul_op(s, r) {
        Some(op) => {
            let w = skip_ws(s, r + 1);
            if q < w <= s.len() {
                match atom(s, w) {
                    Some((e, t)) => if q < t <= s.len() {
                        term_rest(s, t, Expr::Binary(op, Box::new(acc), Box::new(e)))
                    } else {
                        None
                    },
                    None => None,
                }
            } else {
                None
            }
        },
        None => Some((acc, q)),
    }
}

/// A product or quotient of atoms, left to right.
pub open spec fn term(s: Seq<char>, p: int) -> Option<(Expr, int)>
    decreases s.len() - p, 3int,
{
    let w = skip_ws(s, p);
    if p <= w <= s.len() {
        match atom(s, w) {
            Some((e, q)) => if p < q <= s.len() {
                term_rest(s, q, e)
            } else {
                None
            },
            None => None,
        }
    } else {
        None
    }
}

/// Sums and differences after the operand `acc`, which ends at `q`.
pub open spec fn expr_rest(s: Seq<char>, q: int, acc: Expr) -> Option<(Expr, int)>
    decreases s.len() - q, 2int,
{
    let r = skip_ws(s, q);
    match add_op(s, r) {
        Some(op) => if q <= r < s.len() {
            match term(s, r + 1) {
                Some((e, t)) => if q < t <= s.len() {
                    expr_rest(s, t, Expr::Binary(op, Box::new(acc), Box::new(e)))
                } else {
                    None
                },
                None => None,
            }
        } else {
            None
        },
        None => Some((acc, q)),
    }
}

/// A sum or difference of terms, left to right.
pub open spec fn expr(s: Seq<char>, p: int) -> Option<(Expr, int)>
    decreases s.len() - p, 4int,
{
    if 0 <= p <= s.len() {
        match term(s, p) {
            Some((e, q)) => if p < q <= s.len() {
                expr_rest(s, q, e)
            } else {
                None
            },
            None => None,
        }
    } else {
        None
    }
}

/// What follows the expression: nothing but white space, or a reason after `:`.
pub open spec fn tail(s: Seq<char>, e: int) -> Result<Option<usize>, int> {
    let t = skip_ws(s, e);
    if t == s.len() {
        Ok(None)
    } else if at(s, t, ':') {
        Ok(Some((t + 1) as usize))
    } else {
        Err(t)
    }
}

/// The repetition `^ N`, `^+ N` or `^# N` at `r`.
pub open spec fn repeat(s: Seq<char>, r: int) -> Option<(Repeat, u64, int)> {
    if at(s, r, '^') {
        let r2 = skip_ws(s, r + 1);
        let (mode, r3) = if at(s, r2, '+') {
            (Repeat::Sum, skip_ws(s, r2 + 1))
        } else if at(s, r2, '#') {
            (Repeat::Sort, skip_ws(s, r2 + 1))
        } else {
            (Repeat::Plain, r2)
        };
        match number(s, r3) {
            Some((n, e)) => Some((mode, n, e)),
            None => None,
        }
    } else {
        None
    }
}

/// The query `s` as a command, or the position at which it stops following the
/// grammar.
pub open spec fn command(s: Seq<char>) -> Result<Command, int> {
    match expr(s, 0) {
        None => Err(skip_ws(s, 0)),
        Some((e, q)) => {
            let r = skip_ws(s, q);
            if at(s, r, '^') {
                match repeat(s, r) {
                    Some((mode, n, e2)) => match tail(s, e2) {
                        Ok(reason) => Ok(Command { body: Body::Repeated(e, mode, n), reason }),
                        Err(t) => Err(t),
                    },
                    None => Err(r),
                }
            } else {
                match tail(s, q) {
                    Ok(reason) => Ok(Command { body: Body::Single(e), reason }),
                    Err(t) => Err(t),
                }
            }
        },
    }
}

pub fn char_at(s: &Vec<char>, p: usize, c: char) -> (r: bool)
    ensures
        r == at(s@, p as int, c),
        s@.len() <= usize::MAX,
{
    let n = s.len();
    p < n && s[p] == c
}

pub fn skip_ws_at(s: &Vec<char>, p: usize) -> (r: usize)
    requires
        p <= s@.len(),
    ensures
        r as int == skip_ws(s@, p as int),
        p <= r <= s@.len(),
        s@.len() <= usize::MAX,
{
    let mut q = p;
    while q < s.len() && (s[q] == ' ' || s[q] == '\t' || s[q] == '\n' || s[q] == '\r')
        invariant
            p <= q <= s@.len(),
            skip_ws(s@, q as int) == skip_ws(s@, p as int),
        decreases s@.len() - q,
    {
        q = q + 1;
    }
    q
}

fn is_digit_at(s: &Vec<char>, p: usize) -> (r: bool)
    ensures
        r == (0 <= p < s@.len() && is_digit(s@[p as int])),
        s@.len() <= usize::MAX,
{
    let n = s.len();
    p < n && (s[p] as u32) >= 48 && (s[p] as u32) <= 57
}

fn digits_at(s: &Vec<char>, p: usize, acc: u64) -> (r: Option<(u64, usize)>)
    requires
        p <= s@.len(),
    ensures
        match digits(s@, p as int, acc as int) {
            Some((v, q)) => r == Some((v as u64, q as usize)) && 0 <= v <= u64::MAX && p <= q <= s@.len(),
            None => r.is_none(),
        },
{
    let mut q = p;
    let mut a = acc;
    while q < s.len() && is_digit_at(s, q)
        invariant
            p <= q <= s@.len(),
            digits(s@, q as int, a as int) == digits(s@, p as int, acc as int),
        decreases s@.len() - q,
    {
        let d = (s[q] as u32 - 48) as u64;
        if a > (u64::MAX - d) / 10 {
            proof {
                assert(a * 10 + d > u64::MAX) by (nonlinear_arith)
                    requires a > (u64::MAX - d) / 10, d <= 9;
            }
            return None;
        }
        proof {
            assert(a * 10 + d <= u64::MAX) by (nonlinear_arith)
                requires a <= (u64::MAX - d) / 10, d <= 9;
        }
        a = a * 10 + d;
        q = q + 1;
    }
    Some((a, q))
}

pub fn number_at(s: &Vec<char>, p: usize) -> (r: Option<(u64, usize)>)
    requires
        p <= s@.len(),
    ensures
        lift(r) == number(s@, p as int),
        r matches Some((_, q)) ==> p < q <= s@.len(),
{
    if is_digit_at(s, p) {
        match digits_at(s, p, 0) {
            Some((v, q)) => {
                proof {
                    assert(digits(s@, p + 1, digit_value(s@[p as int])) == digits(s@, p as int, 0));
                    assert(q > p) by {
                        let t = digits(s@, p as int, 0);
                        assert(t == digits(s@, p + 1, digit_value(s@[p as int])));
                        lemma_digits_end(s@, p + 1, digit_value(s@[p as int]));
                    }
                }
                Some((v, q))
            },
            None => None,
        }
    } else {
        None
    }
}

proof fn lemma_digits_end(s: Seq<char>, p: int, acc: int)
    ensures
        digits(s, p, acc) matches Some((_, q)) ==> q >= p,
    decreases s.len() - p,
{
    if 0 <= p < s.len() && is_digit(s[p]) {
        lemma_digits_end(s, p + 1, acc * 10 + digit_value(s[p]));
    }
}

proof fn lemma_skip_ws(s: Seq<char>, p: int)
    requires
        0 <= p <= s.len(),
    ensures
        p <= skip_ws(s, p) <= s.len(),
    decreases s.len() - p,
{
    if 0 <= p < s.len() && is_space(s[p]) {
        lemma_skip_ws(s, p + 1);
    }
}

fn sign_at(s: &Vec<char>, p: usize) -> (r: (bool, usize))
    requires
        p <= s@.len(),
    ensures
        (r.0, r.1 as int) == sign(s@, p as int),
        p <= r.1 <= s@.len(),
{
    if char_at(s, p, '-') {
        (true, skip_ws_at(s, p + 1))
    } else if char_at(s, p, '+') {
        (false, skip_ws_at(s, p + 1))
    } else {
        (false, p)
    }
}

fn integer_at(s: &Vec<char>, p: usize) -> (r: Option<(i64, usize)>)
    requires
        p <= s@.len(),
    ensures
        lift(r) == integer(s@, p as int),
        r matches Some((_, q)) ==> p < q <= s@.len(),
{
    let (neg, q) = sign_at(s, p);
    match number_at(s, q) {
        Some((v, e)) => {
            if v > i64::MAX as u64 {
                None
            } else if neg {
                Some((-(v as i64), e))
            } else {
                Some((v as i64, e))
            }
        },
        None => None,
    }
}

fn float_at(s: &Vec<char>, p: usize) -> (r: Option<(Decimal, usize)>)
    requires
        p <= s@.len(),
    ensures
        lift(r) == float(s@, p as int),
        r matches Some((d, q)) ==> p < q <= s@.len() && d.wf(),
{
    let (neg, q) = sign_at(s, p);
    if !is_digit_at(s, q) {
        return None;
    }
    let (a, r) = match digits_at(s, q, 0) {
        Some(x) => x,
        None => { return None; },
    };
    if !(char_at(s, r, '.') && is_digit_at(s, r + 1)) {
        return None;
    }
    proof {
        assert(digits(s@, q as int, 0) == Some((a as int, r as int)));
    }
    let (m, e) = match digits_at(s, r + 1, a) {
        Some(x) => x,
        None => {
            assert(digits(s@, r + 1, a as int).is_none());
            assert(float(s@, p as int).is_none());
            return None;
        },
    };
    if e - (r + 1) > MAX_SCALE as usize || m > i64::MAX as u64 {
        return None;
    }
    let mantissa: i64 = if neg { -(m as i64) } else { m as i64 };
    proof {
        lemma_digits_end(s@, r + 2, a * 10 + digit_value(s@[r + 1]));
    }
    Some((Decimal { mantissa, scale: (e - (r + 1)) as u32 }, e))
}

fn opt_number_at(s: &Vec<char>, p: usize) -> (r: (Option<u64>, usize))
    requires
        p <= s@.len(),
    ensures
        (r.0, r.1 as int) == opt_number(s@, p as int),
        p <= r.1 <= s@.len(),
{
    match number_at(s, p) {
        Some((v, q)) => (Some(v), q),
        None => (None, p),
    }
}

/// Reads the list of numbers that starts at `p`, up to and including its `]`.
pub fn list_at(s: &Vec<char>, p: usize) -> (r: Option<(Vec<u64>, usize)>)
    requires
        p <= s@.len(),
    ensures
        match list(s@, p as int, Seq::empty()) {
            Some((v, q)) => r matches Some((w, e)) && w@ == v && e == q && p < e <= s@.len(),
            None => r.is_none(),
        },
{
    let mut acc: Vec<u64> = Vec::new();
    let mut pos = p;
    loop
        invariant
            p <= pos <= s@.len(),
            list(s@, pos as int, acc@) == list(s@, p as int, Seq::empty()),
        decreases s@.len() - pos,
    {
        let q = skip_ws_at(s, pos);
        match number_at(s, q) {
            Some((v, r)) => {
                let e = skip_ws_at(s, r);
                if char_at(s, e, ']') {
                    acc.push(v);
                    return Some((acc, e + 1));
                } else if char_at(s, e, ',') {
                    acc.push(v);
                    pos = e + 1;
                } else {
                    return None;
                }
            },
            None => {
                return None;
            },
        }
    }
}

/// Reads the modifier token at `p`.
pub fn modifier_at(s: &Vec<char>, p: usize) -> (r: Option<(Token, usize)>)
    requires
        p <= s@.len(),
    ensures
        lift(r) == modifier(s@, p as int),
        r matches Some((_, q)) ==> p < q <= s@.len(),
{
    if char_at(s, p, '!') && char_at(s, p + 1, '!') {
        let (v, q) = opt_number_at(s, p + 2);
        Some((Token::IExplode(v), q))
    } else if char_at(s, p, '!') {
        let (v, q) = opt_number_at(s, p + 1);
        Some((Token::Explode(v), q))
    } else if char_at(s, p, 'r') && char_at(s, p + 1, 'r') {
        match number_at(s, p + 2) {
            Some((v, q)) => Some((Token::IReroll(v), q)),
            None => None,
        }
    } else if char_at(s, p, 'r') {
        match number_at(s, p + 1) {
            Some((v, q)) => Some((Token::Reroll(v), q)),
            None => None,
        }
    } else if (char_at(s, p, 'k') || char_at(s, p, 'd')) && (char_at(s, p + 1, 'h') || char_at(s, p + 1, 'l')) {
        match number_at(s, p + 2) {
            Some((v, q)) => {
                let t = if s[p] == 'k' && s[p + 1] == 'h' {
                    Token::KeepHi(v)
                } else if s[p] == 'k' {
                    Token::KeepLo(v)
                } else if s[p + 1] == 'h' {
                    Token::DropHi(v)
                } else {
                    Token::DropLo(v)
                };
                Some((t, q))
            },
            None => None,
        }
    } else if char_at(s, p, 't') && char_at(s, p + 1, 't') {
        match number_at(s, p + 2) {
            Some((v, q)) => Some((Token::DoubleTarget(v), q)),
            None => None,
        }
    } else if char_at(s, p, 't') && char_at(s, p + 1, '[') {
        match list_at(s, p + 2) {
            Some((_, q)) => Some((Token::TargetList(p + 2), q)),
            None => None,
        }
    } else if char_at(s, p, 't') {
        match number_at(s, p + 1) {
            Some((v, q)) => Some((Token::Target(v), q)),
            None => None,
        }
    } else if char_at(s, p, 'f') {
        match number_at(s, p + 1) {
            Some((v, q)) => Some((Token::Failure(v), q)),
            None => None,
        }
    } else {
        None
    }
}

fn mods_end_at(s: &Vec<char>, p: usize) -> (r: usize)
    requires
        p <= s@.len(),
    ensures
        r as int == mods_end(s@, p as int),
        p <= r <= s@.len(),
{
    let mut pos = p;
    loop
        invariant
            p <= pos <= s@.len(),
            mods_end(s@, pos as int) == mods_end(s@, p as int),
        decreases s@.len() - pos,
    {
        let q = skip_ws_at(s, pos);
        match modifier_at(s, q) {
            Some((_, r)) => {
                pos = r;
            },
            None => {
                return pos;
            },
        }
    }
}

fn dice_at(s: &Vec<char>, p: usize) -> (r: Option<(Dice, usize)>)
    requires
        p <= s@.len(),
    ensures
        lift(r) == dice(s@, p as int),
        r matches Some((d, q)) ==> p < q <= s@.len() && d.start == p && p < d.mods <= d.end && d.end == q,
{
    let (amount, q) = opt_number_at(s, p);
    if !char_at(s, q, 'd') {
        return None;
    }
    let (sides, e) = if char_at(s, q + 1, 'F') {
        (None, q + 2)
    } else {
        match number_at(s, q + 1) {
            Some((n, e)) => (Some(n), e),
            None => { return None; },
        }
    };
    let end = mods_end_at(s, e);
    Some((Dice { amount, sides, start: p, mods: e, end }, end))
}

fn mul_op_at(s: &Vec<char>, p: usize) -> (r: Option<Op>)
    ensures
        r == mul_op(s@, p as int),
{
    if char_at(s, p, '*') {
        Some(Op::Mul)
    } else if char_at(s, p, '/') {
        Some(Op::Div)
    } else {
        None
    }
}

fn add_op_at(s: &Vec<char>, p: usize) -> (r: Option<Op>)
    ensures
        r == add_op(s@, p as int),
{
    if char_at(s, p, '+') {
        Some(Op::Add)
    } else if char_at(s, p, '-') {
        Some(Op::Sub)
    } else {
        None
    }
}

fn atom_at(s: &Vec<char>, p: usize) -> (r: Option<(Expr, usize)>)
    requires
        p <= s@.len(),
    ensures
        lift(r) == atom(s@, p as int),
        r matches Some((_, t)) ==> p < t <= s@.len(),
        r matches Some((e, _)) ==> expr_wf(e) && spans_ok(e, s@.len() as int),
    decreases s@.len() - p, 1int,
{
    if char_at(s, p, '(') {
        match expr_at(s, p + 1) {
            Some((e, q)) => {
                let r = skip_ws_at(s, q);
                if char_at(s, r, ')') {
                    Some((Expr::Block(Box::new(e)), r + 1))
                } else {
                    None
                }
            },
            None => None,
        }
    } else {
        match dice_at(s, p) {
            Some((d, q)) => Some((Expr::Dice(d), q)),
            None => match float_at(s, p) {
                Some((f, q)) => Some((Expr::Float(f), q)),
                None => match integer_at(s, p) {
                    Some((n, q)) => Some((Expr::Integer(n), q)),
                    None => None,
                },
            },
        }
    }
}

fn term_rest_at(s: &Vec<char>, q: usize, acc: Expr) -> (r: Option<(Expr, usize)>)
    requires
        q <= s@.len(),
        expr_wf(acc),
        spans_ok(acc, s@.len() as int),
    ensures
        lift(r) == term_rest(s@, q as int, acc),
        r matches Some((_, t)) ==> q <= t <= s@.len(),
        r matches Some((e, _)) ==> expr_wf(e) && spans_ok(e, s@.len() as int),
    decreases s@.len() - q, 0int,
{
    let r = skip_ws_at(s, q);
    match mul_op_at(s, r) {
        Some(op) => {
            if r + 1 > s.len() {
                return None;
            }
            let w = skip_ws_at(s, r + 1);
            match atom_at(s, w) {
                Some((e, t)) => {
                    if q < t && t <= s.len() {
                        term_rest_at(s, t, Expr::Binary(op, Box::new(acc), Box::new(e)))
                    } else {
                        None
                    }
                },
                None => None,
            }
        },
        None => Some((acc, q)),
    }
}

fn term_at(s: &Vec<char>, p: usize) -> (r: Option<(Expr, usize)>)
    requires
        p <= s@.len(),
    ensures
        lift(r) == term(s@, p as int),
        r matches Some((_, t)) ==> p < t <= s@.len(),
        r matches Some((e, _)) ==> expr_wf(e) && spans_ok(e, s@.len() as int),
    decreases s@.len() - p, 3int,
{
    let w = skip_ws_at(s, p);
    match atom_at(s, w) {
        Some((e, q)) => {
            if p < q && q <= s.len() {
                term_rest_at(s, q, e)
            } else {
                None
            }
        },
        None => None,
    }
}

fn expr_rest_at(s: &Vec<char>, q: usize, acc: Expr) -> (r: Option<(Expr, usize)>)
    requires
        q <= s@.len(),
        expr_wf(acc),
        spans_ok(acc, s@.len() as int),
    ensures
        lift(r) == expr_rest(s@, q as int, acc),
        r matches Some((_, t)) ==> q <= t <= s@.len(),
        r matches Some((e, _)) ==> expr_wf(e) && spans_ok(e, s@.len() as int),
    decreases s@.len() - q, 2int,
{
    let r = skip_ws_at(s, q);
    match add_op_at(s, r) {
        Some(op) => {
            if r >= s.len() {
                return None;
            }
            match term_at(s, r + 1) {
                Some((e, t)) => {
                    if q < t && t <= s.len() {
                        expr_rest_at(s, t, Expr::Binary(op, Box::new(acc), Box::new(e)))
                    } else {
                        None
                    }
                },
                None => None,
            }
        },
        None => Some((acc, q)),
    }
}

pub fn expr_at(s: &Vec<char>, p: usize) -> (r: Option<(Expr, usize)>)
    requires
        p <= s@.len(),
    ensures
        lift(r) == expr(s@, p as int),
        r matches Some((_, t)) ==> p < t <= s@.len(),
        r matches Some((e, _)) ==> expr_wf(e) && spans_ok(e, s@.len() as int),
    decreases s@.len() - p, 4int,
{
    match term_at(s, p) {
        Some((e, q)) => {
            if p < q && q <= s.len() {
                expr_rest_at(s, q, e)
            } else {
                None
            }
        },
        None => None,
    }
}

fn tail_at(s: &Vec<char>, e: usize) -> (r: Result<Option<usize>, usize>)
    requires
        e <= s@.len(),
    ensures
        match tail(s@, e as int) {
            Ok(reason) => r == Ok::<Option<usize>, usize>(reason),
            Err(t) => r == Err::<Option<usize>, usize>(t as usize),
        },
        r matches Ok(Some(i)) ==> i <= s@.len(),
{
    let t = skip_ws_at(s, e);
    if t == s.len() {
        Ok(None)
    } else if char_at(s, t, ':') {
        Ok(Some(t + 1))
    } else {
        Err(t)
    }
}

fn repeat_at(s: &Vec<char>, r: usize) -> (res: Option<(Repeat, u64, usize)>)
    requires
        r <= s@.len(),
    ensures
        match repeat(s@, r as int) {
            Some((mode, n, e)) => res == Some((mode, n, e as usize)) && r < e <= s@.len(),
            None => res.is_none(),
        },
{
    if !char_at(s, r, '^') {
        return None;
    }
    let r2 = skip_ws_at(s, r + 1);
    let (mode, r3) = if char_at(s, r2, '+') {
        (Repeat::Sum, skip_ws_at(s, r2 + 1))
    } else if char_at(s, r2, '#') {
        (Repeat::Sort, skip_ws_at(s, r2 + 1))
    } else {
        (Repeat::Plain, r2)
    };
    match number_at(s, r3) {
        Some((n, e)) => Some((mode, n, e)),
        None => None,
    }
}

/// Parses a whole query, or gives the position at which it stops following the
/// grammar.
pub fn parse(s: &Vec<char>) -> (r: Result<Command, usize>)
    ensures
        match command(s@) {
            Ok(c) => r == Ok::<Command, usize>(c),
            Err(p) => r == Err::<Command, usize>(p as usize),
        },
        r matches Ok(c) ==> body_wf(c.body) && spans_ok(body_expr(c.body), s@.len() as int) && (c.reason matches Some(
            i,
        ) ==> i <= s@.len()),
{
    match expr_at(s, 0) {
        None => Err(skip_ws_at(s, 0)),
        Some((e, q)) => {
            let r = skip_ws_at(s, q);
            if char_at(s, r, '^') {
                match repeat_at(s, r) {
                    Some((mode, n, e2)) => match tail_at(s, e2) {
                        Ok(reason) => Ok(Command { body: Body::Repeated(e, mode, n), reason }),
                        Err(t) => Err(t),
                    },
                    None => Err(r),
                }
            } else {
                match tail_at(s, q) {
                    Ok(reason) => Ok(Command { body: Body::Single(e), reason }),
                    Err(t) => Err(t),
                }
            }
        },
    }
}

} // verus!
