use vstd::prelude::*;

verus! {

/// The largest number of digits after the decimal point that a literal may carry.
pub const MAX_SCALE: u32 = 18;

/// Ten to the power `n`.
pub open spec fn pow10(n: nat) -> int
    decreases n,
{
    if n == 0 {
        1
    } else {
        10 * pow10((n - 1) as nat)
    }
}

pub proof fn lemma_pow10_mono(n: nat, m: nat)
    requires
        n <= m,
    ensures
        1 <= pow10(n) <= pow10(m),
    decreases m,
{
    if n < m {
        lemma_pow10_mono(n, (m - 1) as nat);
    } else if n > 0 {
        lemma_pow10_mono((n - 1) as nat, (n - 1) as nat);
    }
}

pub proof fn lemma_pow10_bound(n: nat)
    requires
        n <= MAX_SCALE,
    ensures
        1 <= pow10(n) <= 1_000_000_000_000_000_000,
{
    lemma_pow10_mono(n, 18);
    reveal_with_fuel(pow10, 19);
    assert(pow10(18) == 1_000_000_000_000_000_000);
}

/// Ten to the power `n`, for `n` up to `MAX_SCALE`.
pub fn pow10_of(n: u32) -> (r: i64)
    requires
        n <= MAX_SCALE,
    ensures
        r as int == pow10(n as nat),
{
    let mut r: i64 = 1;
    let mut i: u32 = 0;
    while i < n
        invariant
            i <= n <= MAX_SCALE,
            r as int == pow10(i as nat),
        decreases n - i,
    {
        proof {
            lemma_pow10_bound((i + 1) as nat);
        }
        r = r * 10;
        i = i + 1;
    }
    r
}

/// `p / q` rounded toward zero, for `q > 0`.
pub open spec fn trunc_div(p: int, q: int) -> int {
    if p >= 0 {
        p / q
    } else {
        -((-p) / q)
    }
}

/// `p / q` rounded toward zero.
pub fn trunc_div_of(p: i128, q: i128) -> (r: i128)
    requires
        q > 0,
        p > i128::MIN,
    ensures
        r as int == trunc_div(p as int, q as int),
{
    if p >= 0 {
        p / q
    } else {
        let m = -p;
        -(m / q)
    }
}

/// A decimal literal: the number `mantissa / 10^scale`.
#[derive(Debug, Clone, Copy, PartialEq, Eq, Structural)]
pub struct Decimal {
    pub mantissa: i64,
    pub scale: u32,
}

impl Decimal {
    pub open spec fn wf(&self) -> bool {
        self.scale <= MAX_SCALE
    }

    /// The denominator of the number as a fraction.
    pub open spec fn den(&self) -> int {
        pow10(self.scale as nat)
    }

    /// The number rounded toward zero.
    pub open spec fn truncated(&self) -> int {
        trunc_div(self.mantissa as int, self.den())
    }

    /// The number rounded toward zero.
    pub fn trunc(&self) -> (r: i64)
        requires
            self.wf(),
        ensures
            r as int == self.truncated(),
    {
        let d = pow10_of(self.scale);
        proof {
            lemma_pow10_bound(self.scale as nat);
        }
        let r = trunc_div_of(self.mantissa as i128, d as i128);
        proof {
            lemma_trunc_div_bound(self.mantissa as int, d as int);
        }
        r as i64
    }
}

/// Rounding toward zero moves no further from zero than the number itself.
pub proof fn lemma_trunc_div_bound(p: int, q: int)
    requires
        q >= 1,
    ensures
        p >= 0 ==> 0 <= trunc_div(p, q) <= p,
        p < 0 ==> p <= trunc_div(p, q) <= 0,
{
    if p >= 0 {
        assert(p / q <= p) by (nonlinear_arith) requires p >= 0, q >= 1;
        assert(p / q >= 0) by (nonlinear_arith) requires p >= 0, q >= 1;
    } else {
        assert((-p) / q <= -p) by (nonlinear_arith) requires -p >= 0, q >= 1;
        assert((-p) / q >= 0) by (nonlinear_arith) requires -p >= 0, q >= 1;
    }
}

/// An integer or decimal constant of an expression.
#[derive(Debug, Clone, Copy)]
pub enum Constant {
    Integer(i64),
    Float(Decimal),
}

impl Constant {
    pub open spec fn wf(&self) -> bool {
        match *self {
            Constant::Integer(_) => true,
            Constant::Float(d) => d.wf(),
        }
    }

    /// The integer value: a decimal is rounded toward zero.
    pub open spec fn value(&self) -> int {
        match *self {
            Constant::Integer(n) => n as int,
            Constant::Float(d) => d.truncated(),
        }
    }

    pub proof fn lemma_value_bound(&self)
        requires
            self.wf(),
        ensures
            i64::MIN <= self.value() <= i64::MAX,
    {
        if let Constant::Float(d) = *self {
            lemma_pow10_bound(d.scale as nat);
            lemma_trunc_div_bound(d.mantissa as int, d.den());
        }
    }

    pub fn get_value(&self) -> (r: i64)
        requires
            self.wf(),
        ensures
            r as int == self.value(),
    {
        match *self {
            Constant::Integer(n) => n,
            Constant::Float(d) => d.trunc(),
        }
    }
}

} // verus!
