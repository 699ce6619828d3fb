use crate::constant::{lemma_pow10_bound, pow10_of, trunc_div, trunc_div_of, Constant, Decimal};
use crate::dice;
use crate::dice::Modifier;
use crate::error::{Error, Failure};
use crate::parser::{Op, Repeat};
use crate::roll::history::{flat_values, history_wf, History};
use crate::render::{history_text, push_history};
use crate::text::{push_signed, push_str, signed_decimal, string_of};
use crate::sort::{lemma_sorted_unique, sort_by_key, sorted_keys, in_order, Keyed};
use vstd::prelude::*;
use vstd::relations::total_ordering;

verus! {

broadcast use vstd::seq_lib::group_to_multiset_ensures, vstd::multiset::group_multiset_axioms;

/// What a `Single` holds, as mathematical values.
pub struct SingleView {
    pub total: i64,
    pub dirty: bool,
    pub constant: Option<Decimal>,
    pub history: Seq<History>,
}

/// One roll expression: its total and the history of steps that led to it.
#[derive(Debug, Clone)]
pub struct Single {
    /// With a target modifier: successes minus failures.
    total: i64,
    /// The total must be computed again from the history.
    dirty: bool,
    /// Set while the expression is a lone decimal literal.
    constant: Option<Decimal>,
    history: Vec<History>,
}

impl View for Single {
    type V = SingleView;

    closed spec fn view(&self) -> SingleView {
        SingleView {
            total: self.total,
            dirty: self.dirty,
            constant: self.constant,
            history: self.history@,
        }
    }
}

/// The dice, sorted by decreasing value, as one step of a history.
pub open spec fn logged_as(entry: History, dice: Seq<dice::Result>, is_fudge: bool) -> bool {
    match entry {
        History::Roll(v) => !is_fudge && v@.to_multiset() == dice.to_multiset() && sorted_keys(v@, true),
        History::Fudge(v) => is_fudge && exists|s: Seq<dice::Result>|
            s.to_multiset() == dice.to_multiset() && sorted_keys(s, true) && v@ == s.map_values(
                |d: dice::Result| d.value,
            ),
        _ => false,
    }
}

/// The history of `lhs op rhs`: the operator and the right history are appended
/// when the right history is not empty.
pub open spec fn merged(lhs: Seq<History>, op: Op, rhs: Seq<History>) -> Seq<History> {
    if rhs.len() == 0 {
        lhs
    } else {
        lhs.push(History::Operator(op)) + rhs
    }
}


pub open spec fn is_operator(h: History) -> bool {
    h is Operator
}

/// No two operators stand next to each other.
pub open spec fn ops_apart(h: Seq<History>) -> bool {
    forall|i: int| 0 <= i < h.len() - 1 ==> !(is_operator(#[trigger] h[i]) && is_operator(h[i + 1]))
}

/// The history is not empty, and neither starts nor ends with an operator.
pub open spec fn framed(h: Seq<History>) -> bool {
    h.len() > 0 && !is_operator(h[0]) && !is_operator(h.last())
}

/// Combining two histories that are framed and keep their operators apart gives
/// such a history again: no two operators ever stand next to each other.
pub proof fn lemma_merged_ops_apart(lhs: Seq<History>, op: Op, rhs: Seq<History>)
    requires
        framed(lhs),
        ops_apart(lhs),
        rhs.len() > 0 ==> framed(rhs) && ops_apart(rhs),
    ensures
        framed(merged(lhs, op, rhs)),
        ops_apart(merged(lhs, op, rhs)),
{
    if rhs.len() > 0 {
        let m = merged(lhs, op, rhs);
        let n = lhs.len();
        assert(m[0] == lhs[0]);
        assert(m.last() == rhs.last());
        assert forall|i: int| 0 <= i < m.len() - 1 implies !(is_operator(#[trigger] m[i]) && is_operator(m[i + 1])) by {
            if i < n - 1 {
                assert(m[i] == lhs[i] && m[i + 1] == lhs[i + 1]);
            } else if i == n - 1 {
                assert(m[i] == lhs.last());
            } else if i == n {
                assert(m[i + 1] == rhs[0]);
            } else {
                assert(m[i] == rhs[i - n - 1] && m[i + 1] == rhs[i - n]);
            }
        }
    }
}

/// Parentheses around a history that keeps its operators apart give a framed
/// history that still keeps them apart.
pub proof fn lemma_parens_ops_apart(h: Seq<History>)
    requires
        ops_apart(h),
    ensures
        framed(seq![History::OpenParen] + h + seq![History::CloseParen]),
        ops_apart(seq![History::OpenParen] + h + seq![History::CloseParen]),
{
    let m = seq![History::OpenParen] + h + seq![History::CloseParen];
    assert(m[0] == History::OpenParen);
    assert(m.last() == History::CloseParen);
    assert forall|i: int| 0 <= i < m.len() - 1 implies !(is_operator(#[trigger] m[i]) && is_operator(m[i + 1])) by {
        if 0 < i && i < m.len() - 2 {
            assert(m[i] == h[i - 1] && m[i + 1] == h[i]);
        }
    }
}

/// How a `Single` is shown: its history between backticks and its total in bold,
/// or the bare total between backticks when it has no history.
pub open spec fn single_text(x: SingleView) -> Seq<char> {
    if x.history.len() == 0 {
        seq!['`'] + signed_decimal(x.total as int) + seq!['`']
    } else {
        seq!['`'] + history_text(x.history) + "` = **"@ + signed_decimal(x.total as int) + "**"@
    }
}

/// The number of dice that a keep or drop modifier names.
pub open spec fn keep_drop_count(m: Modifier) -> Option<usize> {
    match m {
        Modifier::KeepHigh(k) => Some(k),
        Modifier::KeepLow(k) => Some(k),
        Modifier::DropHigh(k) => Some(k),
        Modifier::DropLow(k) => Some(k),
        _ => None,
    }
}

pub open spec fn leq_i128() -> spec_fn(i128, i128) -> bool {
    |a: i128, b: i128| a <= b
}

/// The numbers in ascending order.
pub open spec fn ascending(s: Seq<i128>) -> Seq<i128> {
    s.sort_by(leq_i128())
}

/// The part of the ascending numbers `s` that a keep or drop modifier selects.
pub open spec fn selected(s: Seq<i128>, m: Modifier) -> Seq<i128> {
    match m {
        Modifier::KeepHigh(k) => s.subrange(s.len() - k, s.len() as int),
        Modifier::KeepLow(k) => s.subrange(0, k as int),
        Modifier::DropHigh(k) => s.subrange(0, s.len() - k),
        Modifier::DropLow(k) => s.subrange(k as int, s.len() as int),
        _ => s,
    }
}

/// What one number counts toward the total under the modifier.
pub open spec fn score(x: i128, m: Modifier) -> int {
    match m {
        Modifier::TargetDoubleFailure(t, f, d) => {
            if d > 0 && x >= d {
                2
            } else if t > 0 && x >= t {
                1
            } else if f > 0 && x <= f {
                -1
            } else {
                0
            }
        },
        Modifier::TargetEnum(v) => {
            if v@.map_values(|y: u64| y as i128).contains(x) {
                1
            } else {
                0
            }
        },
        Modifier::Fudge => {
            if x <= 2 {
                -1
            } else if x <= 4 {
                0
            } else {
                1
            }
        },
        _ => x as int,
    }
}

pub open spec fn sum_scores(s: Seq<i128>, m: Modifier) -> int
    decreases s.len(),
{
    if s.len() == 0 {
        0
    } else {
        sum_scores(s.drop_last(), m) + score(s.last(), m)
    }
}

/// The total of a history under a modifier, or `None` where a keep or drop
/// modifier names more dice than the history holds.
pub open spec fn total_of(h: Seq<History>, m: Modifier) -> Option<int> {
    let flat = flat_values(h);
    match keep_drop_count(m) {
        Some(k) => if k > flat.len() {
            None
        } else {
            Some(sum_scores(selected(ascending(flat), m), m))
        },
        None => Some(sum_scores(flat, m)),
    }
}

/// Every number lies between `i64::MIN` and `u64::MAX`.
pub open spec fn in_value_range(s: Seq<i128>) -> bool {
    forall|i: int| 0 <= i < s.len() ==> i64::MIN <= #[trigger] s[i] <= u64::MAX
}

proof fn lemma_flat_range(h: Seq<History>)
    requires
        history_wf(h),
    ensures
        in_value_range(flat_values(h)),
    decreases h.len(),
{
    if h.len() > 0 {
        let init = h.drop_last();
        assert(history_wf(init)) by {
            assert forall|i: int| 0 <= i < init.len() implies (#[trigger] init[i]).wf() by {
                assert(init[i] == h[i]);
            }
        }
        lemma_flat_range(init);
        let last = h.last();
        assert(last.wf()) by {
            assert(h[h.len() - 1].wf());
        }
        if let History::Constant(c) = last {
            c.lemma_value_bound();
        }
        let f = flat_values(h);
        assert forall|i: int| 0 <= i < f.len() implies i64::MIN <= #[trigger] f[i] <= u64::MAX by {
            if i >= flat_values(init).len() {
                assert(f[i] == last.values()[i - flat_values(init).len()]);
            }
        }
    }
}

proof fn lemma_ascending(s: Seq<i128>, sorted: Seq<i128>)
    requires
        sorted_keys(sorted, false),
        sorted.to_multiset() == s.to_multiset(),
    ensures
        sorted == ascending(s),
{
    let leq = leq_i128();
    assert(total_ordering(leq));
    s.lemma_sort_by_ensures(leq);
    let t = ascending(s);
    assert(sorted_keys(t, false)) by {
        assert forall|i: int, j: int| 0 <= i < j < t.len() implies in_order(#[trigger] t[i].key(), #[trigger] t[j].key(), false) by {
            assert(leq(t[i], t[j]));
        }
    }
    lemma_sorted_unique(sorted, t);
}

/// The numbers of a history, in order.
fn flatten(h: &Vec<History>) -> (r: Vec<i128>)
    requires
        history_wf(h@),
    ensures
        r@ == flat_values(h@),
{
    let mut out: Vec<i128> = Vec::new();
    let mut i: usize = 0;
    while i < h.len()
        invariant
            i <= h@.len(),
            history_wf(h@),
            out@ == flat_values(h@.subrange(0, i as int)),
        decreases h@.len() - i,
    {
        let ghost start = out@;
        let entry = &h[i];
        match entry {
            History::Roll(v) => {
                let mut j: usize = 0;
                while j < v.len()
                    invariant
                        j <= v@.len(),
                        out@ == start + v@.subrange(0, j as int).map_values(|d: dice::Result| d.value as i128),
                    decreases v@.len() - j,
                {
                    out.push(v[j].value as i128);
                    j = j + 1;
                    proof {
                        assert(v@.subrange(0, j as int) == v@.subrange(0, j - 1).push(v@[j - 1]));
                    }
                }
                proof {
                    assert(v@.subrange(0, v@.len() as int) == v@);
                }
            },
            History::Fudge(v) => {
                let mut j: usize = 0;
                while j < v.len()
                    invariant
                        j <= v@.len(),
                        out@ == start + v@.subrange(0, j as int).map_values(|x: u64| x as i128),
                    decreases v@.len() - j,
                {
                    out.push(v[j] as i128);
                    j = j + 1;
                    proof {
                        assert(v@.subrange(0, j as int) == v@.subrange(0, j - 1).push(v@[j - 1]));
                    }
                }
                proof {
                    assert(v@.subrange(0, v@.len() as int) == v@);
                }
            },
            History::Constant(c) => {
                proof {
                    assert(h@[i as int].wf());
                }
                out.push(c.get_value() as i128);
                proof {
                    assert(out@ == start + seq![c.value() as i128]);
                }
            },
            _ => {
                proof {
                    assert(out@ == start + Seq::<i128>::empty());
                }
            },
        }
        proof {
            assert(h@.subrange(0, i + 1).drop_last() == h@.subrange(0, i as int));
            assert(h@.subrange(0, i + 1).last() == h@[i as int]);
        }
        i = i + 1;
    }
    proof {
        assert(h@.subrange(0, h@.len() as int) == h@);
    }
    out
}

/// The numbers `v[from..to]`.
fn slice_of(v: &Vec<i128>, from: usize, to: usize) -> (r: Vec<i128>)
    requires
        from <= to <= v@.len(),
    ensures
        r@ == v@.subrange(from as int, to as int),
{
    let mut out: Vec<i128> = Vec::new();
    let mut i: usize = from;
    while i < to
        invariant
            from <= i <= to <= v@.len(),
            out@ == v@.subrange(from as int, i as int),
        decreases to - i,
    {
        out.push(v[i]);
        i = i + 1;
        proof {
            assert(v@.subrange(from as int, i as int) == v@.subrange(from as int, i - 1).push(v@[i - 1]));
        }
    }
    out
}

fn score_of(x: i128, m: &Modifier) -> (r: i128)
    ensures
        r as int == score(x, *m),
{
    match m {
        Modifier::TargetDoubleFailure(t, f, d) => {
            if *d > 0 && x >= *d as i128 {
                2
            } else if *t > 0 && x >= *t as i128 {
                1
            } else if *f > 0 && x <= *f as i128 {
                -1
            } else {
                0
            }
        },
        Modifier::TargetEnum(v) => {
            let mut i: usize = 0;
            let mut found = false;
            while i < v.len()
                invariant
                    i <= v@.len(),
                    found == v@.subrange(0, i as int).map_values(|y: u64| y as i128).contains(x),
                decreases v@.len() - i,
            {
                let ghost before = v@.subrange(0, i as int).map_values(|y: u64| y as i128);
                if v[i] as i128 == x {
                    found = true;
                }
                i = i + 1;
                proof {
                    let now = v@.subrange(0, i as int).map_values(|y: u64| y as i128);
                    assert(now == before.push(v@[i - 1] as i128));
                    if v@[i - 1] as i128 == x {
                        assert(now[i - 1] == x);
                    }
                    if before.contains(x) {
                        let k = choose|k: int| 0 <= k < before.len() && before[k] == x;
                        assert(now[k] == x);
                    }
                    if now.contains(x) {
                        let k = choose|k: int| 0 <= k < now.len() && now[k] == x;
                        if k < before.len() {
                            assert(before[k] == x);
                        }
                    }
                }
            }
            proof {
                assert(v@.subrange(0, v@.len() as int) == v@);
            }
            if found {
                1
            } else {
                0
            }
        },
        Modifier::Fudge => {
            if x <= 2 {
                -1
            } else if x <= 4 {
                0
            } else {
                1
            }
        },
        _ => x,
    }
}

/// The sum of the scores as an `i64`, or `None` when it does not fit.
fn sum_of_scores(s: &Vec<i128>, m: &Modifier) -> (r: Option<i64>)
    requires
        in_value_range(s@),
    ensures
        i64::MIN <= sum_scores(s@, *m) <= i64::MAX ==> r == Some(sum_scores(s@, *m) as i64),
        !(i64::MIN <= sum_scores(s@, *m) <= i64::MAX) ==> r.is_none(),
{
    let mut pos: u128 = 0;
    let mut neg: u128 = 0;
    let mut i: usize = 0;
    while i < s.len()
        invariant
            i <= s@.len(),
            in_value_range(s@),
            pos as int - neg as int == sum_scores(s@.subrange(0, i as int), *m),
            pos as int <= i as int * 0x1_0000_0000_0000_0000,
            neg as int <= i as int * 0x1_0000_0000_0000_0000,
        decreases s@.len() - i,
    {
        let x = s[i];
        let sc = score_of(x, m);
        assert(i64::MIN <= x <= u64::MAX);
        assert(i64::MIN <= sc <= u64::MAX);
        proof {
            let n = i as int;
            assert((n + 1) * 0x1_0000_0000_0000_0000 <= 0xffff_ffff_ffff_ffff * 0x1_0000_0000_0000_0000) by (nonlinear_arith)
                requires n + 1 <= 0xffff_ffff_ffff_ffff;
            assert(n * 0x1_0000_0000_0000_0000 + 0x1_0000_0000_0000_0000 == (n + 1) * 0x1_0000_0000_0000_0000) by (nonlinear_arith);
        }
        if sc >= 0 {
            pos = pos + sc as u128;
        } else {
            neg = neg + (-sc) as u128;
        }
        i = i + 1;
        proof {
            assert(s@.subrange(0, i as int).drop_last() == s@.subrange(0, i - 1));
            assert(s@.subrange(0, i as int).last() == x);
        }
    }
    proof {
        assert(s@.subrange(0, s@.len() as int) == s@);
    }
    if pos >= neg {
        let d = pos - neg;
        if d <= i64::MAX as u128 {
            Some(d as i64)
        } else {
            None
        }
    } else {
        let d = neg - pos;
        if d <= 0x8000_0000_0000_0000u128 {
            Some((-(d as i128)) as i64)
        } else {
            None
        }
    }
}

/// The numerator of a `Single` as an operand: its decimal literal, or its total.
pub open spec fn operand_num(s: SingleView) -> int {
    match s.constant {
        Some(d) => d.mantissa as int,
        None => s.total as int,
    }
}

/// The denominator of a `Single` as an operand.
pub open spec fn operand_den(s: SingleView) -> int {
    match s.constant {
        Some(d) => d.den(),
        None => 1,
    }
}

/// `an/ad op bn/bd`, rounded toward zero; a division needs `bn != 0`.
pub open spec fn combine(op: Op, an: int, ad: int, bn: int, bd: int) -> int {
    match op {
        Op::Add => trunc_div(an * bd + bn * ad, ad * bd),
        Op::Sub => trunc_div(an * bd - bn * ad, ad * bd),
        Op::Mul => trunc_div(an * bn, ad * bd),
        Op::Div => if bn > 0 {
            trunc_div(an * bd, ad * bn)
        } else {
            trunc_div(-(an * bd), ad * (-bn))
        },
    }
}

/// The total of `lhs op rhs`.
pub open spec fn combined_total(lhs: SingleView, op: Op, rhs: SingleView) -> int {
    combine(op, operand_num(lhs), operand_den(lhs), operand_num(rhs), operand_den(rhs))
}

/// What `lhs op rhs` returns: an error for a division by zero or a total out of
/// the range of `i64`, else a `Single` with the combined total and merged history.
pub open spec fn combined(lhs: SingleView, op: Op, rhs: SingleView, r: Result<Single, Error>) -> bool {
    if op == Op::Div && operand_num(rhs) == 0 {
        r == Err::<Single, Error>(Error::Other(Failure::DivideByZero))
    } else if i64::MIN <= combined_total(lhs, op, rhs) <= i64::MAX {
        &&& r is Ok
        &&& r->Ok_0@.total == combined_total(lhs, op, rhs)
        &&& !r->Ok_0@.dirty
        &&& r->Ok_0@.constant.is_none()
        &&& r->Ok_0@.history == merged(lhs.history, op, rhs.history)
        &&& r->Ok_0.wf()
    } else {
        r == Err::<Single, Error>(Error::Other(Failure::Overflow))
    }
}

/// Adding or multiplying two operands gives the same outcome in either order:
/// both succeed with equal totals, or both fail.
pub proof fn lemma_add_mul_commute(a: Single, b: Single, op: Op, ab: Result<Single, Error>, ba: Result<Single, Error>)
    requires
        op == Op::Add || op == Op::Mul,
        combined(a@, op, b@, ab),
        combined(b@, op, a@, ba),
    ensures
        ab is Ok <==> ba is Ok,
        ab is Ok ==> ab->Ok_0@.total == ba->Ok_0@.total,
        ab is Err ==> ab == ba,
{
    let an = operand_num(a@);
    let ad = operand_den(a@);
    let bn = operand_num(b@);
    let bd = operand_den(b@);
    assert(ad * bd == bd * ad) by (nonlinear_arith);
    assert(an * bd + bn * ad == bn * ad + an * bd);
    assert(an * bn == bn * an) by (nonlinear_arith);
    assert(combined_total(a@, op, b@) == combined_total(b@, op, a@));
}

proof fn lemma_mul_bound(a: int, b: int, x: int, y: int)
    requires
        -x <= a <= x,
        -y <= b <= y,
    ensures
        -(x * y) <= a * b <= x * y,
{
    assert(-(x * y) <= a * b <= x * y) by (nonlinear_arith)
        requires -x <= a <= x, -y <= b <= y;
}

impl Single {
    pub open spec fn wf(&self) -> bool {
        &&& history_wf(self@.history)
        &&& (self@.constant matches Some(d) ==> d.wf())
    }

    pub fn new() -> (r: Self)
        ensures
            r@ == (SingleView { total: 0, dirty: true, constant: None, history: Seq::empty() }),
            r.wf(),
    {
        Single { total: 0, dirty: true, constant: None, history: Vec::new() }
    }

    /// A constant integer.
    pub fn with_total(total: i64) -> (r: Self)
        ensures
            r@.total == total,
            !r@.dirty,
            r@.constant.is_none(),
            r@.history == seq![History::Constant(Constant::Integer(total))],
            r.wf(),
    {
        let mut history: Vec<History> = Vec::new();
        history.push(History::Constant(Constant::Integer(total)));
        proof {
            assert(history@ == seq![History::Constant(Constant::Integer(total))]);
        }
        Single { total, dirty: false, constant: None, history }
    }

    /// A constant decimal; its total is rounded toward zero.
    pub fn with_float(float: Decimal) -> (r: Self)
        requires
            float.wf(),
        ensures
            r@.total as int == float.truncated(),
            !r@.dirty,
            r@.constant == Some(float),
            r@.history == seq![History::Constant(Constant::Float(float))],
            r.wf(),
    {
        let mut history: Vec<History> = Vec::new();
        history.push(History::Constant(Constant::Float(float)));
        proof {
            assert(history@ == seq![History::Constant(Constant::Float(float))]);
        }
        Single { total: float.trunc(), dirty: false, constant: Some(float), history }
    }

    pub fn get_history(&self) -> (r: &Vec<History>)
        ensures
            r@ == self@.history,
    {
        &self.history
    }

    pub fn get_total(&self) -> (r: i64)
        ensures
            r == self@.total,
    {
        self.total
    }

    /// Appends rolled dice to the history, sorted by decreasing value; fudge dice
    /// are kept as their bare values.
    pub fn add_history(&mut self, history: Vec<dice::Result>, is_fudge: bool)
        ensures
            final(self)@.dirty,
            final(self)@.total == old(self)@.total,
            final(self)@.constant == old(self)@.constant,
            final(self)@.history.len() == old(self)@.history.len() + 1,
            final(self)@.history.drop_last() == old(self)@.history,
            logged_as(final(self)@.history.last(), history@, is_fudge),
            old(self).wf() ==> final(self).wf(),
    {
        self.dirty = true;
        let sorted = sort_by_key(history, true);
        let ghost old_history = self.history@;
        if is_fudge {
            let mut values: Vec<u64> = Vec::new();
            let mut i: usize = 0;
            while i < sorted.len()
                invariant
                    i <= sorted@.len(),
                    values@ == sorted@.subrange(0, i as int).map_values(|d: dice::Result| d.value),
                decreases sorted@.len() - i,
            {
                values.push(sorted[i].value);
                i = i + 1;
                proof {
                    assert(sorted@.subrange(0, i as int) == sorted@.subrange(0, i - 1).push(sorted@[i - 1]));
                }
            }
            proof {
                assert(sorted@.subrange(0, sorted@.len() as int) == sorted@);
            }
            self.history.push(History::Fudge(values));
        } else {
            self.history.push(History::Roll(sorted));
        }
        proof {
            assert(self.history@.drop_last() == old_history);
            assert forall|i: int| 0 <= i < self.history@.len() && history_wf(old_history) implies (#[trigger] self.history@[i]).wf() by {
                if i < old_history.len() {
                    assert(self.history@[i] == old_history[i]);
                }
            }
        }
    }

    /// Computes the total from the history under the modifier, unless it is
    /// already up to date.
    pub fn eval_total(&mut self, modifier: Modifier) -> (r: Result<i64, Error>)
        requires
            old(self).wf(),
        ensures
            final(self)@.history == old(self)@.history,
            final(self)@.constant == old(self)@.constant,
            !final(self)@.dirty,
            final(self).wf(),
            !old(self)@.dirty ==> r == Ok::<i64, Error>(old(self)@.total) && final(self)@.total == old(self)@.total,
            old(self)@.dirty ==> match total_of(old(self)@.history, modifier) {
                None => r == Err::<i64, Error>(Error::Other(Failure::NotEnoughDice))
                    && final(self)@.total == old(self)@.total,
                Some(t) => if i64::MIN <= t <= i64::MAX {
                    r == Ok::<i64, Error>(t as i64) && final(self)@.total == t
                } else {
                    r == Err::<i64, Error>(Error::Other(Failure::Overflow))
                        && final(self)@.total == old(self)@.total
                },
            },
    {
        if !self.dirty {
            return Ok(self.total);
        }
        self.dirty = false;
        let values = flatten(&self.history);
        proof {
            lemma_flat_range(self.history@);
        }
        let count: Option<usize> = match modifier {
            Modifier::KeepHigh(k) => Some(k),
            Modifier::KeepLow(k) => Some(k),
            Modifier::DropHigh(k) => Some(k),
            Modifier::DropLow(k) => Some(k),
            _ => None,
        };
        let chosen = match count {
            Some(k) => {
                let n = values.len();
                if k > n {
                    return Err(Error::Other(Failure::NotEnoughDice));
                }
                let sorted = sort_by_key(values, false);
                proof {
                    assert(sorted@.len() == sorted@.to_multiset().len());
                    assert(values@.len() == values@.to_multiset().len());
                    lemma_ascending(values@, sorted@);
                    assert forall|i: int| 0 <= i < sorted@.len() implies i64::MIN <= #[trigger] sorted@[i] <= u64::MAX by {
                        assert(sorted@.to_multiset().count(sorted@[i]) > 0);
                        assert(values@.contains(sorted@[i]));
                    }
                }
                let (from, to) = match modifier {
                    Modifier::KeepHigh(_) => (n - k, n),
                    Modifier::KeepLow(_) => (0, k),
                    Modifier::DropHigh(_) => (0, n - k),
                    _ => (k, n),
                };
                let chosen = slice_of(&sorted, from, to);
                proof {
                    assert forall|i: int| 0 <= i < chosen@.len() implies i64::MIN <= #[trigger] chosen@[i] <= u64::MAX by {
                        assert(chosen@[i] == sorted@[from + i]);
                    }
                }
                chosen
            },
            None => values,
        };
        match sum_of_scores(&chosen, &modifier) {
            Some(t) => {
                self.total = t;
                Ok(t)
            },
            None => Err(Error::Other(Failure::Overflow)),
        }
    }

    /// Whether the operand is zero: its decimal literal, or else its total.
    pub fn is_zero(&self) -> (r: bool)
        ensures
            r == (operand_num(self@) == 0),
    {
        match self.constant {
            Some(d) => d.mantissa == 0,
            None => self.total == 0,
        }
    }

    fn operand(&self) -> (r: (i128, i128))
        requires
            self.wf(),
        ensures
            r.0 as int == operand_num(self@),
            r.1 as int == operand_den(self@),
            i64::MIN <= r.0 <= i64::MAX,
            1 <= r.1 <= 1_000_000_000_000_000_000,
    {
        match self.constant {
            Some(d) => {
                proof {
                    lemma_pow10_bound(d.scale as nat);
                }
                (d.mantissa as i128, pow10_of(d.scale) as i128)
            },
            None => (self.total as i128, 1),
        }
    }

    /// `self op rhs`.
    pub fn apply(self, op: Op, rhs: Single) -> (r: Result<Single, Error>)
        requires
            self.wf(),
            rhs.wf(),
        ensures
            combined(self@, op, rhs@, r),
    {
        if op == Op::Div && rhs.is_zero() {
            return Err(Error::Other(Failure::DivideByZero));
        }
        let (an, ad) = self.operand();
        let (bn, bd) = rhs.operand();
        let big: i128 = 0x8000_0000_0000_0000;
        let den: i128 = 1_000_000_000_000_000_000;
        proof {
            lemma_mul_bound(an as int, bd as int, big as int, den as int);
            lemma_mul_bound(bn as int, ad as int, big as int, den as int);
            lemma_mul_bound(an as int, bn as int, big as int, big as int);
            lemma_mul_bound(ad as int, bd as int, den as int, den as int);
            lemma_mul_bound(ad as int, bn as int, den as int, big as int);
            lemma_mul_bound(ad as int, -bn, den as int, big as int);
            assert(ad * bd >= 1) by (nonlinear_arith) requires ad >= 1, bd >= 1;
            assert(bn > 0 ==> ad * bn >= 1) by (nonlinear_arith) requires ad >= 1;
            assert(bn < 0 ==> ad * (-bn) >= 1) by (nonlinear_arith) requires ad >= 1;
        }
        let (p, q): (i128, i128) = match op {
            Op::Add => (an * bd + bn * ad, ad * bd),
            Op::Sub => (an * bd - bn * ad, ad * bd),
            Op::Mul => (an * bn, ad * bd),
            Op::Div => if bn > 0 {
                (an * bd, ad * bn)
            } else {
                (-(an * bd), ad * (-bn))
            },
        };
        let t = trunc_div_of(p, q);
        if t < i64::MIN as i128 || t > i64::MAX as i128 {
            return Err(Error::Other(Failure::Overflow));
        }
        let mut history = self.history;
        let mut rest = rhs.history;
        let ghost lhs_history = history@;
        let ghost rhs_history = rest@;
        if rest.len() > 0 {
            history.push(History::Operator(op));
            history.append(&mut rest);
        }
        proof {
            assert(history_wf(history@)) by {
                assert forall|i: int| 0 <= i < history@.len() implies (#[trigger] history@[i]).wf() by {
                    if rhs_history.len() > 0 {
                        if i < lhs_history.len() {
                            assert(history@[i] == lhs_history[i]);
                        } else if i > lhs_history.len() {
                            assert(history@[i] == rhs_history[i - lhs_history.len() - 1]);
                        }
                    }
                }
            }
        }
        Ok(Single { total: t as i64, dirty: false, constant: None, history })
    }

    pub fn add(self, rhs: Single) -> (r: Result<Single, Error>)
        requires
            self.wf(),
            rhs.wf(),
        ensures
            combined(self@, Op::Add, rhs@, r),
    {
        self.apply(Op::Add, rhs)
    }

    pub fn sub(self, rhs: Single) -> (r: Result<Single, Error>)
        requires
            self.wf(),
            rhs.wf(),
        ensures
            combined(self@, Op::Sub, rhs@, r),
    {
        self.apply(Op::Sub, rhs)
    }

    pub fn mul(self, rhs: Single) -> (r: Result<Single, Error>)
        requires
            self.wf(),
            rhs.wf(),
        ensures
            combined(self@, Op::Mul, rhs@, r),
    {
        self.apply(Op::Mul, rhs)
    }

    /// Fails on a zero divisor.
    pub fn div(self, rhs: Single) -> (r: Result<Single, Error>)
        requires
            self.wf(),
            rhs.wf(),
        ensures
            combined(self@, Op::Div, rhs@, r),
    {
        self.apply(Op::Div, rhs)
    }

    /// The history as text.
    pub fn to_string_history(&self) -> (r: String)
        requires
            self.wf(),
        ensures
            r@ == history_text(self@.history),
    {
        let mut out: Vec<char> = Vec::new();
        push_history(&mut out, &self.history);
        string_of(&out)
    }

    /// Appends the text of the roll to `out`.
    pub fn push_text(&self, out: &mut Vec<char>)
        requires
            self.wf(),
        ensures
            final(out)@ == old(out)@ + single_text(self@),
    {
        let ghost start = out@;
        out.push('`');
        if self.history.len() == 0 {
            push_signed(out, self.total as i128);
            out.push('`');
        } else {
            push_history(out, &self.history);
            push_str(out, "` = **");
            push_signed(out, self.total as i128);
            push_str(out, "**");
        }
        proof {
            if self.history@.len() == 0 {
                assert(out@ == start + (seq!['`'] + signed_decimal(self.total as int) + seq!['`']));
            } else {
                assert(out@ == start + (seq!['`'] + history_text(self.history@) + "` = **"@ + signed_decimal(
                    self.total as int,
                ) + "**"@));
            }
        }
    }

    /// The roll as markdown: history and total, or the bare total.
    pub fn to_string(&self) -> (r: String)
        requires
            self.wf(),
        ensures
            r@ == single_text(self@),
    {
        let mut out: Vec<char> = Vec::new();
        self.push_text(&mut out);
        proof {
            assert(out@ == Seq::<char>::empty() + single_text(self@));
        }
        string_of(&out)
    }

    /// Brackets the history with parentheses.
    pub fn add_parens(&mut self)
        ensures
            final(self)@.history == seq![History::OpenParen] + old(self)@.history + seq![History::CloseParen],
            final(self)@.total == old(self)@.total,
            final(self)@.dirty == old(self)@.dirty,
            final(self)@.constant == old(self)@.constant,
            old(self).wf() ==> final(self).wf(),
    {
        self.history.insert(0, History::OpenParen);
        self.history.push(History::CloseParen);
        proof {
            assert(self.history@ == seq![History::OpenParen] + old(self)@.history + seq![History::CloseParen]);
            assert forall|i: int| 0 <= i < self.history@.len() && history_wf(old(self)@.history) implies (#[trigger] self.history@[i]).wf() by {
                if 0 < i < self.history@.len() - 1 {
                    assert(self.history@[i] == old(self)@.history[i - 1]);
                }
            }
        }
    }
}

impl Keyed for Single {
    open spec fn key(&self) -> int {
        self@.total as int
    }

    fn key_of(&self) -> (k: i128) {
        self.total as i128
    }
}

/// The results of a repeated expression, with their sum where it was asked for.
#[derive(Debug, Clone)]
pub struct Multi {
    pub total: Option<i64>,
    pub rolls: Vec<Single>,
}

/// The sum of the totals.
pub open spec fn sum_totals(rolls: Seq<Single>) -> int
    decreases rolls.len(),
{
    if rolls.len() == 0 {
        0
    } else {
        sum_totals(rolls.drop_last()) + rolls.last()@.total
    }
}

/// What combining the results of a repeated expression gives.
pub open spec fn gathered(rolls: Seq<Single>, mode: Repeat, r: Result<Multi, Error>) -> bool {
    match mode {
        Repeat::Plain => r matches Ok(m) && m.rolls@ == rolls && m.total.is_none(),
        Repeat::Sort => r matches Ok(m) && m.rolls@.to_multiset() == rolls.to_multiset() && sorted_keys(m.rolls@, false)
            && m.total.is_none(),
        Repeat::Sum => if i64::MIN <= sum_totals(rolls) <= i64::MAX {
            r matches Ok(m) && m.rolls@ == rolls && m.total == Some(sum_totals(rolls) as i64)
        } else {
            r == Err::<Multi, Error>(Error::Other(Failure::Overflow))
        },
    }
}

impl Multi {
    /// Combines the results of a repeated expression: as they come, sorted by
    /// ascending total, or with the sum of their totals.
    pub fn gather(rolls: Vec<Single>, mode: Repeat) -> (r: Result<Multi, Error>)
        ensures
            gathered(rolls@, mode, r),
    {
        match mode {
            Repeat::Plain => Ok(Multi { total: None, rolls }),
            Repeat::Sort => Ok(Multi { total: None, rolls: sort_by_key(rolls, false) }),
            Repeat::Sum => {
                let mut sum: i128 = 0;
                let mut i: usize = 0;
                while i < rolls.len()
                    invariant
                        i <= rolls@.len(),
                        sum as int == sum_totals(rolls@.subrange(0, i as int)),
                        -(i as int) * 0x8000_0000_0000_0000 <= sum <= i as int * 0x8000_0000_0000_0000,
                    decreases rolls@.len() - i,
                {
                    let t = rolls[i].get_total();
                    proof {
                        let n = i as int;
                        assert((n + 1) * 0x8000_0000_0000_0000 <= 0x1_0000_0000_0000_0000 * 0x8000_0000_0000_0000) by (nonlinear_arith)
                            requires n + 1 <= 0x1_0000_0000_0000_0000;
                        assert(n * 0x8000_0000_0000_0000 + 0x8000_0000_0000_0000 == (n + 1) * 0x8000_0000_0000_0000) by (nonlinear_arith);
                        assert(-n * 0x8000_0000_0000_0000 - 0x8000_0000_0000_0000 == -(n + 1) * 0x8000_0000_0000_0000) by (nonlinear_arith);
                    }
                    sum = sum + t as i128;
                    i = i + 1;
                    proof {
                        assert(rolls@.subrange(0, i as int).drop_last() == rolls@.subrange(0, i - 1));
                    }
                }
                proof {
                    assert(rolls@.subrange(0, rolls@.len() as int) == rolls@);
                }
                if sum < i64::MIN as i128 || sum > i64::MAX as i128 {
                    return Err(Error::Other(Failure::Overflow));
                }
                Ok(Multi { total: Some(sum as i64), rolls })
            },
        }
    }

    pub fn get_total(&self) -> (r: Option<i64>)
        ensures
            r == self.total,
    {
        self.total
    }
}

impl std::ops::Deref for Multi {
    type Target = Vec<Single>;

    fn deref(&self) -> &Vec<Single> {
        &self.rolls
    }
}

} // verus!
