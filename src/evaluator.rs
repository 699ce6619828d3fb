use crate::dice;
use crate::dice::{critic_of, Modifier, ModifierView};
use crate::error::{Error, Failure};
use crate::dice::modifier;
use crate::dice::{MAX_DICE_AMOUNT, MAX_DICE_SIDES};
use crate::parser::{list, modifier, skip_ws, expr_wf, list_at, modifier_at, skip_ws_at, Dice, Expr, Rule, Token};
use crate::roll::kind::{keep_drop_count, total_of};
use crate::sort::{sort_by_key, sorted_keys, Keyed};
use crate::roll::history::History;
use crate::roll::history::flat_values;
use crate::roll::kind::{score, sum_scores, combined, framed, logged_as, ops_apart, lemma_merged_ops_apart, lemma_parens_ops_apart, Single};
use crate::roll::Source;
use vstd::prelude::*;

verus! {

broadcast use vstd::seq_lib::group_to_multiset_ensures, vstd::multiset::group_multiset_axioms;

/// The largest number of rounds of one indefinite explode, or of the rerolls of
/// one die under an indefinite reroll.
pub const MAX_CHAIN: u64 = 1000;

/// Every die shows a face of a die with `sides` faces, with its critic marker.
pub open spec fn fair(v: Seq<dice::Result>, sides: u64) -> bool {
    forall|i: int|
        0 <= i < v.len() ==> 1 <= (#[trigger] v[i]).value <= sides && v[i].critic == critic_of(
            v[i].value,
            sides,
        )
}

/// The number of dice showing at least `t`.
pub open spec fn count_at_least(v: Seq<dice::Result>, t: u64) -> nat
    decreases v.len(),
{
    if v.len() == 0 {
        0
    } else {
        count_at_least(v.drop_last(), t) + if v.last().value >= t {
            1nat
        } else {
            0nat
        }
    }
}

/// `new` is `old` followed by one logged roll for each group of dice.
pub open spec fn appended(old: Seq<History>, new: Seq<History>, groups: Seq<Seq<dice::Result>>) -> bool {
    &&& new.len() == old.len() + groups.len()
    &&& new.subrange(0, old.len() as int) == old
    &&& forall|i: int| 0 <= i < groups.len() ==> logged_as(#[trigger] new[old.len() + i], groups[i], false)
}

/// `new` is `old` followed by logged rolls of fair dice.
pub open spec fn rolled_onto(old: Seq<History>, new: Seq<History>, sides: u64) -> bool {
    &&& old.len() <= new.len()
    &&& new.subrange(0, old.len() as int) == old
    &&& forall|i: int| old.len() <= i < new.len() ==> exists|g: Seq<dice::Result>| fair(g, sides) && logged_as(#[trigger] new[i], g, false)
}

/// The modifier that an explode token leaves: the roll is already logged.
pub open spec fn after_explode(m: Modifier) -> bool {
    m matches Modifier::Plain(Rule::Explode) || m matches Modifier::Plain(Rule::IExplode)
}

/// The explode threshold: the given value, or the number of sides.
pub open spec fn threshold(value: Option<u64>, sides: u64) -> u64 {
    match value {
        Some(v) => v,
        None => sides,
    }
}

/// What `!` does: the roll is logged unless an explode came just before, and the
/// dice at or above the threshold are rolled again once; `w` is what flows on.
pub open spec fn explode_step(
    old: Seq<History>,
    new: Seq<History>,
    results: Seq<dice::Result>,
    value: Option<u64>,
    prior: Modifier,
    sides: u64,
    w: Seq<dice::Result>,
) -> bool {
    let first = if after_explode(prior) {
        Seq::<Seq<dice::Result>>::empty()
    } else {
        seq![results]
    };
    let n = count_at_least(results, threshold(value, sides));
    &&& n > 0 ==> w.len() == n && fair(w, sides) && appended(old, new, first.push(w))
    &&& n == 0 ==> w == results && appended(old, new, first)
}

/// What `!!` does: the roll is logged unless an explode came just before, then
/// each wave rolls as many dice as the previous one (the roll first) had at or
/// above the threshold, until a wave has none; the waves are logged in order and
/// the last one (or nothing) flows on as `out`.
pub open spec fn indef_explode_step(
    old: Seq<History>,
    new: Seq<History>,
    results: Seq<dice::Result>,
    value: Option<u64>,
    prior: Modifier,
    sides: u64,
    waves: Seq<Seq<dice::Result>>,
    out: Seq<dice::Result>,
) -> bool {
    let t = threshold(value, sides);
    let first = if after_explode(prior) {
        Seq::<Seq<dice::Result>>::empty()
    } else {
        seq![results]
    };
    &&& appended(old, new, first + waves)
    &&& forall|j: int| 0 <= j < waves.len() ==> fair(#[trigger] waves[j], sides)
    &&& (waves.len() == 0) == (count_at_least(results, t) == 0)
    &&& waves.len() == 0 ==> out.len() == 0
    &&& waves.len() > 0 ==> waves[0].len() == count_at_least(results, t) && out == waves.last()
        && count_at_least(out, t) == 0
    &&& forall|j: int| 0 <= j < waves.len() - 1 ==> (#[trigger] waves[j + 1]).len() == count_at_least(waves[j], t)
}

/// What `r` (or, with `settled`, `rr`) does: each die at or below the value is
/// thrown again (until it lands above it, with `settled`); the new dice are
/// logged when any die was thrown again, and `w` flows on.
pub open spec fn reroll_step(
    old: Seq<History>,
    new: Seq<History>,
    results: Seq<dice::Result>,
    value: u64,
    sides: u64,
    settled: bool,
    w: Seq<dice::Result>,
) -> bool {
    &&& w.len() == results.len()
    &&& fair(w, sides)
    &&& forall|i: int| 0 <= i < results.len() && (#[trigger] results[i]).value > value ==> w[i] == results[i]
    &&& settled ==> forall|i: int| 0 <= i < w.len() ==> (#[trigger] w[i]).value > value
    &&& (exists|i: int| 0 <= i < results.len() && (#[trigger] results[i]).value <= value) ==> appended(
        old,
        new,
        seq![w],
    )
    &&& (forall|i: int| 0 <= i < results.len() ==> (#[trigger] results[i]).value > value) ==> new == old
}

/// The part of the ascending dice `s` that a keep or drop modifier selects; a
/// keep of more dice than there are keeps all, a drop of more drops none.
pub open spec fn kept(s: Seq<dice::Result>, m: ModifierView) -> Seq<dice::Result> {
    let n = s.len();
    match m {
        ModifierView::KeepHigh(k) => if k > n {
            s
        } else {
            s.subrange(n - k, n as int)
        },
        ModifierView::KeepLow(k) => if k > n {
            s
        } else {
            s.subrange(0, k as int)
        },
        ModifierView::DropHigh(k) => if k > n {
            s
        } else {
            s.subrange(0, n - k)
        },
        ModifierView::DropLow(k) => if k > n {
            s
        } else {
            s.subrange(k as int, n as int)
        },
        _ => s,
    }
}

/// The dice `handed` sorted ascending, then selected by the modifier, are `out`.
pub open spec fn handed_on(handed: Seq<dice::Result>, m: ModifierView, out: Seq<dice::Result>) -> bool {
    exists|s: Seq<dice::Result>|
        s.to_multiset() == handed.to_multiset() && sorted_keys(s, false) && out == kept(s, m)
}

proof fn lemma_appended_push(old: Seq<History>, mid: Seq<History>, new: Seq<History>, groups: Seq<Seq<dice::Result>>, g: Seq<dice::Result>)
    requires
        appended(old, mid, groups),
        new.len() == mid.len() + 1,
        new.drop_last() == mid,
        logged_as(new.last(), g, false),
    ensures
        appended(old, new, groups.push(g)),
{
    assert(new.subrange(0, old.len() as int) == mid.subrange(0, old.len() as int));
    assert forall|i: int| 0 <= i < groups.push(g).len() implies logged_as(#[trigger] new[old.len() + i], groups.push(g)[i], false) by {
        if i < groups.len() {
            assert(new[old.len() + i] == mid[old.len() + i]);
        }
    }
}

proof fn lemma_rolled_push(old: Seq<History>, mid: Seq<History>, new: Seq<History>, sides: u64, g: Seq<dice::Result>)
    requires
        rolled_onto(old, mid, sides),
        new.len() == mid.len() + 1,
        new.drop_last() == mid,
        logged_as(new.last(), g, false),
        fair(g, sides),
    ensures
        rolled_onto(old, new, sides),
{
    assert(new.subrange(0, old.len() as int) == mid.subrange(0, old.len() as int));
    assert forall|i: int| old.len() <= i < new.len() implies exists|g: Seq<dice::Result>| fair(g, sides) && logged_as(#[trigger] new[i], g, false) by {
        if i < mid.len() {
            assert(new[i] == mid[i]);
        }
    }
}

fn copy_dice(v: &Vec<dice::Result>) -> (r: Vec<dice::Result>)
    ensures
        r@ == v@,
{
    let mut out: Vec<dice::Result> = Vec::new();
    let mut i: usize = 0;
    while i < v.len()
        invariant
            i <= v@.len(),
            out@ == v@.subrange(0, i as int),
        decreases v@.len() - i,
    {
        out.push(v[i]);
        i = i + 1;
        proof {
            assert(v@.subrange(0, i as int) == v@.subrange(0, i - 1).push(v@[i - 1]));
        }
    }
    proof {
        assert(v@.subrange(0, v@.len() as int) == v@);
    }
    out
}

fn count_at_least_of(v: &Vec<dice::Result>, t: u64) -> (r: u64)
    ensures
        r as nat == count_at_least(v@, t),
        r <= v@.len(),
{
    let mut n: u64 = 0;
    let mut i: usize = 0;
    while i < v.len()
        invariant
            i <= v@.len(),
            n as nat == count_at_least(v@.subrange(0, i as int), t),
            n <= i,
        decreases v@.len() - i,
    {
        if v[i].value >= t {
            n = n + 1;
        }
        i = i + 1;
        proof {
            assert(v@.subrange(0, i as int).drop_last() == v@.subrange(0, i - 1));
        }
    }
    proof {
        assert(v@.subrange(0, v@.len() as int) == v@);
    }
    n
}

/// The faces listed from position `p` on, or none where no list stands there.
pub open spec fn list_values(s: Seq<char>, p: int) -> Seq<u64> {
    match list(s, p, Seq::empty()) {
        Some((v, _)) => v,
        None => Seq::empty(),
    }
}

/// The modifier that a token names on its own.
pub open spec fn token_modifier(s: Seq<char>, t: Token) -> ModifierView {
    match t {
        Token::Explode(_) => ModifierView::Plain(Rule::Explode),
        Token::IExplode(_) => ModifierView::Plain(Rule::IExplode),
        Token::Reroll(_) => ModifierView::Plain(Rule::Reroll),
        Token::IReroll(_) => ModifierView::Plain(Rule::IReroll),
        Token::KeepHi(v) => ModifierView::KeepHigh(v as usize),
        Token::KeepLo(v) => ModifierView::KeepLow(v as usize),
        Token::DropHi(v) => ModifierView::DropHigh(v as usize),
        Token::DropLo(v) => ModifierView::DropLow(v as usize),
        Token::Target(v) => ModifierView::TargetDoubleFailure(v, 0, 0),
        Token::TargetList(p) => ModifierView::TargetEnum(list_values(s, p as int)),
        Token::DoubleTarget(v) => ModifierView::TargetDoubleFailure(0, 0, v),
        Token::Failure(v) => ModifierView::TargetDoubleFailure(0, v, 0),
    }
}

/// The modifier in force after the token `t`, where `m` was: a success, failure or
/// double-success threshold that follows another one only sets its own slot.
pub open spec fn next_modifier(s: Seq<char>, t: Token, m: ModifierView) -> ModifierView {
    let new = token_modifier(s, t);
    match new {
        ModifierView::TargetDoubleFailure(nt, nf, nd) => match m {
            ModifierView::TargetDoubleFailure(ot, of, od) => if nt > 0 {
                ModifierView::TargetDoubleFailure(nt, of, od)
            } else if nf > 0 {
                ModifierView::TargetDoubleFailure(ot, nf, od)
            } else {
                ModifierView::TargetDoubleFailure(ot, of, nd)
            },
            _ => new,
        },
        _ => new,
    }
}

/// The modifier in force after the tokens between `p` and `end`, where `m` was.
pub open spec fn tokens_modifier(s: Seq<char>, p: int, end: int, m: ModifierView) -> ModifierView
    decreases end - p,
{
    if p < end && p <= s.len() {
        match modifier(s, skip_ws(s, p)) {
            Some((t, r)) => if p < r <= end {
                tokens_modifier(s, r, end, next_modifier(s, t, m))
            } else {
                m
            },
            None => m,
        }
    } else {
        m
    }
}

/// Another modifier token stands between `p` and `end`.
pub open spec fn more_tokens(s: Seq<char>, p: int, end: int) -> bool {
    p < end && p <= s.len() && (modifier(s, skip_ws(s, p)) matches Some((_, r)) && p < r <= end)
}

/// Every token between `p` and `end` sets a success, failure or double-success
/// threshold.
pub open spec fn thresholds_only(s: Seq<char>, p: int, end: int) -> bool
    decreases end - p,
{
    if p < end && p <= s.len() {
        match modifier(s, skip_ws(s, p)) {
            Some((t, r)) => if p < r <= end {
                (t is Target || t is DoubleTarget || t is Failure) && thresholds_only(s, r, end)
            } else {
                true
            },
            None => true,
        }
    } else {
        true
    }
}

/// The only token between `p` and `end` is a list of target faces.
pub open spec fn list_only(s: Seq<char>, p: int, end: int) -> bool {
    p < end && p <= s.len() && (modifier(s, skip_ws(s, p)) matches Some((t, r)) && p < r <= end
        && t is TargetList && !more_tokens(s, r, end))
}

/// The number of dice that a dice term rolls.
pub open spec fn amount_of(d: Dice) -> u64 {
    match d.amount {
        Some(a) => a,
        None => 1,
    }
}

/// The number of sides of a dice term's dice: six for fudge dice.
pub open spec fn sides_of(d: Dice) -> u64 {
    match d.sides {
        Some(n) => n,
        None => 6,
    }
}

/// What evaluating the dice term `d` may give.
pub open spec fn dice_outcome(s: Seq<char>, d: Dice, r: Result<Single, Error>) -> bool {
    let amount = amount_of(d);
    let sides = sides_of(d);
    &&& amount > MAX_DICE_AMOUNT ==> r == Err::<Single, Error>(Error::Other(Failure::TooManyDice))
    &&& amount <= MAX_DICE_AMOUNT && sides > MAX_DICE_SIDES ==> r == Err::<Single, Error>(
        Error::Other(Failure::TooManySides),
    )
    &&& amount <= MAX_DICE_AMOUNT && sides == 0 ==> r == Err::<Single, Error>(Error::Other(Failure::ZeroSides))
    &&& amount <= MAX_DICE_AMOUNT && 1 <= sides <= MAX_DICE_SIDES && (d.sides is None || d.mods >= d.end) ==> r is Ok
    &&& amount <= MAX_DICE_AMOUNT && 1 <= sides <= MAX_DICE_SIDES && d.sides is Some && (thresholds_only(
        s,
        d.mods as int,
        d.end as int,
    ) || list_only(s, d.mods as int, d.end as int)) ==> (r matches Ok(x) && x@.history.len() == 1 && exists|
        g: Seq<dice::Result>,
    | g.len() == amount && fair(g, sides) && logged_as(x@.history[0], g, false))
    &&& r matches Ok(x) ==> {
        &&& x.wf()
        &&& !x@.dirty
        &&& x@.constant.is_none()
        &&& d.sides is Some ==> exists|m: Modifier|
            m@ == tokens_modifier(s, d.mods as int, d.end as int, ModifierView::Plain(Rule::Expr)) && total_of(
                x@.history,
                m,
            ) == Some(x@.total as int)
        &&& d.sides is Some ==> rolled_onto(Seq::empty(), x@.history, sides)
        &&& d.sides is None ==> {
            &&& x@.history.len() == 1
            &&& exists|g: Seq<dice::Result>| g.len() == amount && fair(g, 6) && logged_as(x@.history[0], g, true)
            &&& total_of(x@.history, Modifier::Fudge) == Some(x@.total as int)
        }
        &&& d.sides is Some && d.mods >= d.end ==> {
            &&& x@.history.len() == 1
            &&& exists|g: Seq<dice::Result>| g.len() == amount && fair(g, sides) && logged_as(x@.history[0], g, false)
            &&& total_of(x@.history, Modifier::Plain(Rule::Expr)) == Some(x@.total as int)
        }
    }
}

/// Every dice term of the expression logs its roll: a fudge term, or one
/// without modifiers.
pub open spec fn always_logs(e: Expr) -> bool
    decreases e,
{
    match e {
        Expr::Dice(d) => d.sides is None || d.mods >= d.end,
        Expr::Block(b) => always_logs(*b),
        Expr::Binary(_, l, r) => always_logs(*l) && always_logs(*r),
        _ => true,
    }
}

/// What a value of `e` looks like, judged by the outermost form of `e`: a
/// constant gives itself, a dice term its roll, a block a parenthesised history.
pub open spec fn shallow_outcome(s: Seq<char>, e: Expr, r: Result<Single, Error>) -> bool {
    &&& r matches Ok(x) ==> x.wf() && !x@.dirty && (always_logs(e) ==> framed(x@.history) && ops_apart(
        x@.history,
    ))
    &&& match e {
        Expr::Integer(n) => r matches Ok(x) && x@.total == n && x@.constant.is_none() && x@.history == seq![
            History::Constant(crate::constant::Constant::Integer(n)),
        ],
        Expr::Float(f) => r matches Ok(x) && x@.total as int == f.truncated() && x@.constant == Some(f)
            && x@.history == seq![History::Constant(crate::constant::Constant::Float(f))],
        Expr::Dice(d) => dice_outcome(s, d, r),
        Expr::Block(_) => r matches Ok(x) ==> x@.history.len() >= 2 && x@.history[0] == History::OpenParen
            && x@.history.last() == History::CloseParen,
        Expr::Binary(_, _, _) => r matches Ok(x) ==> x@.constant.is_none(),
    }
}

/// The results of the sub-expressions met while evaluating an expression.
pub enum Trace {
    Leaf,
    /// The result of the expression inside the parentheses.
    Block(Box<Trace>, Result<Single, Error>),
    /// The result of the left operand and, when it succeeded, of the right one.
    Binary(Box<Trace>, Result<Single, Error>, Box<Trace>, Option<Result<Single, Error>>),
}

/// `r` is what evaluating `e` gives, with the sub-results `t`: a block has the
/// value of its expression between parentheses, `l op r` combines a value of `l`
/// with a value of `r`, and the first error on the way is the result.
pub open spec fn traced(s: Seq<char>, e: Expr, t: Trace, r: Result<Single, Error>) -> bool
    decreases e,
{
    &&& shallow_outcome(s, e, r)
    &&& match e {
        Expr::Block(b) => match t {
            Trace::Block(tb, rb) => traced(s, *b, *tb, rb) && match rb {
                Ok(x) => r matches Ok(y) && y@.history == seq![History::OpenParen] + x@.history + seq![
                    History::CloseParen,
                ] && y@.total == x@.total && y@.constant == x@.constant,
                Err(err) => r == Err::<Single, Error>(err),
            },
            _ => false,
        },
        Expr::Binary(op, lhs, rhs) => match t {
            Trace::Binary(tl, ra, tr, rbo) => traced(s, *lhs, *tl, ra) && match ra {
                Err(err) => r == Err::<Single, Error>(err),
                Ok(a) => rbo matches Some(rb) && traced(s, *rhs, *tr, rb) && match rb {
                    Err(err) => r == Err::<Single, Error>(err),
                    Ok(b) => combined(a@, op, b@, r),
                },
            },
            _ => false,
        },
        _ => true,
    }
}

/// What evaluating the expression `e` may give.
pub open spec fn expr_outcome(s: Seq<char>, e: Expr, r: Result<Single, Error>) -> bool {
    exists|t: Trace| traced(s, e, t, r)
}

proof fn lemma_sum_bounds(s: Seq<i128>, m: Modifier, lo: int, hi: int)
    requires
        forall|i: int| 0 <= i < s.len() ==> lo <= #[trigger] score(s[i], m) <= hi,
    ensures
        s.len() * lo <= sum_scores(s, m) <= s.len() * hi,
    decreases s.len(),
{
    if s.len() > 0 {
        let init = s.drop_last();
        assert forall|i: int| 0 <= i < init.len() implies lo <= #[trigger] score(init[i], m) <= hi by {
            assert(init[i] == s[i]);
        }
        lemma_sum_bounds(init, m, lo, hi);
        assert(lo <= score(s[s.len() - 1], m) <= hi);
        let n = init.len() as int;
        assert(n * lo + lo == (n + 1) * lo) by (nonlinear_arith);
        assert(n * hi + hi == (n + 1) * hi) by (nonlinear_arith);
    }
}

/// The total of one logged roll of at most `MAX_DICE_AMOUNT` dice, under a
/// modifier that counts each die between -2 and 2, fits an `i64`.
proof fn lemma_counted_total(h: Seq<History>, g: Seq<dice::Result>, m: Modifier)
    requires
        h.len() == 1,
        logged_as(h[0], g, false),
        g.len() <= MAX_DICE_AMOUNT,
        keep_drop_count(m) is None,
        forall|x: i128| -2 <= #[trigger] score(x, m) <= 2,
    ensures
        total_of(h, m) matches Some(t) && i64::MIN <= t <= i64::MAX,
{
    assert(h.drop_last() == Seq::<History>::empty());
    assert(h.last() == h[0]);
    let flat = flat_values(h);
    assert(flat_values(h.drop_last()) == Seq::<i128>::empty());
    assert(Seq::<i128>::empty() + h[0].values() == h[0].values());
    assert(g.len() == g.to_multiset().len());
    if let History::Roll(v) = h[0] {
        assert(v@.len() == v@.to_multiset().len());
        assert forall|i: int| 0 <= i < flat.len() implies -2 <= #[trigger] score(flat[i], m) <= 2 by {
            assert(-2 <= score(flat[i], m) <= 2);
        }
        lemma_sum_bounds(flat, m, -2, 2);
    }
}

/// The total of one logged roll of at most `MAX_DICE_AMOUNT` fair dice, summed or
/// counted as fudge dice, fits an `i64`.
proof fn lemma_single_roll_total(h: Seq<History>, g: Seq<dice::Result>, sides: u64, fudge: bool)
    requires
        h.len() == 1,
        logged_as(h[0], g, fudge),
        fair(g, sides),
        g.len() <= MAX_DICE_AMOUNT,
        sides <= MAX_DICE_SIDES,
    ensures
        ({
            let m = if fudge {
                Modifier::Fudge
            } else {
                Modifier::Plain(Rule::Expr)
            };
            total_of(h, m) matches Some(t) && i64::MIN <= t <= i64::MAX
        }),
{
    let m = if fudge {
        Modifier::Fudge
    } else {
        Modifier::Plain(Rule::Expr)
    };
    assert(h.drop_last() == Seq::<History>::empty());
    assert(h.last() == h[0]);
    let flat = flat_values(h);
    assert(flat_values(h.drop_last()) == Seq::<i128>::empty());
    assert(Seq::<i128>::empty() + h[0].values() == h[0].values());
    assert(flat == h[0].values());
    assert(g.len() == g.to_multiset().len());
    match h[0] {
        History::Roll(v) => {
            assert(v@.len() == v@.to_multiset().len());
            assert forall|i: int| 0 <= i < flat.len() implies 0 <= #[trigger] score(flat[i], m) <= 5000 by {
                assert(flat[i] == v@[i].value as i128);
                assert(v@.to_multiset().count(v@[i]) > 0);
                assert(g.contains(v@[i]));
            }
            lemma_sum_bounds(flat, m, 0, 5000);
            assert(flat.len() * 5000 <= 5000 * 5000) by (nonlinear_arith)
                requires flat.len() <= 5000;
        },
        History::Fudge(w) => {
            let t = choose|t: Seq<dice::Result>|
                t.to_multiset() == g.to_multiset() && sorted_keys(t, true) && w@ == t.map_values(
                    |d: dice::Result| d.value,
                );
            assert(t.len() == t.to_multiset().len());
            assert forall|i: int| 0 <= i < flat.len() implies -1 <= #[trigger] score(flat[i], m) <= 1 by {
            }
            lemma_sum_bounds(flat, m, -1, 1);
        },
        _ => {},
    }
}

/// Walks expressions, rolls dice and applies their modifiers.
pub struct Evaluator;

impl Evaluator {
    /// Throws `amount` dice with `sides` faces.
    pub fn roll<S: Source>(amount: u64, sides: u64, source: &mut S) -> (r: Vec<dice::Result>)
        requires
            sides >= 1,
        ensures
            r@.len() == amount,
            fair(r@, sides),
    {
        let mut out: Vec<dice::Result> = Vec::new();
        let mut i: u64 = 0;
        while i < amount
            invariant
                sides >= 1,
                i <= amount,
                out@.len() == i,
                fair(out@, sides),
            decreases amount - i,
        {
            let value = source.throw(sides);
            out.push(dice::Result::new(value, sides));
            i = i + 1;
        }
        out
    }

    /// `!`: rolls one new die for each die at or above the threshold.
    fn eval_explode<S: Source>(
        single: &mut Single,
        sides: u64,
        results: Vec<dice::Result>,
        value: Option<u64>,
        prior: &Modifier,
        source: &mut S,
    ) -> (r: (Modifier, Vec<dice::Result>))
        requires
            sides >= 1,
            old(single).wf(),
            fair(results@, sides),
        ensures
            old(single)@.dirty ==> final(single)@.dirty,
            r.0 matches Modifier::Plain(Rule::Explode),
            final(single).wf(),
            final(single)@.total == old(single)@.total,
            final(single)@.constant == old(single)@.constant,
            explode_step(old(single)@.history, final(single)@.history, results@, value, *prior, sides, r.1@),
    {
        let t = match value {
            Some(v) => v,
            None => sides,
        };
        let amount = count_at_least_of(&results, t);
        let ghost start = single@.history;
        let ghost first = if after_explode(*prior) {
            Seq::<Seq<dice::Result>>::empty()
        } else {
            seq![results@]
        };
        let explode_before = match prior {
            Modifier::Plain(Rule::Explode) => true,
            Modifier::Plain(Rule::IExplode) => true,
            _ => false,
        };
        if !explode_before {
            single.add_history(copy_dice(&results), false);
            proof {
                assert(start.subrange(0, start.len() as int) == start);
                lemma_appended_push(start, start, single@.history, Seq::empty(), results@);
                assert(Seq::<Seq<dice::Result>>::empty().push(results@) == first);
            }
        } else {
            proof {
                assert(single@.history.subrange(0, start.len() as int) == start);
            }
        }
        if amount > 0 {
            let result = Self::roll(amount, sides, source);
            let ghost mid = single@.history;
            single.add_history(copy_dice(&result), false);
            proof {
                lemma_appended_push(start, mid, single@.history, first, result@);
            }
            (Modifier::Plain(Rule::Explode), result)
        } else {
            (Modifier::Plain(Rule::Explode), results)
        }
    }
    /// `!!`: rolls new dice for the dice at or above the threshold, wave after
    /// wave, until a wave has none; the last wave flows on.
    fn eval_indef_explode<S: Source>(
        single: &mut Single,
        sides: u64,
        results: Vec<dice::Result>,
        value: Option<u64>,
        prior: &Modifier,
        source: &mut S,
    ) -> (r: Result<(Modifier, Vec<dice::Result>, Ghost<Seq<Seq<dice::Result>>>), Error>)
        requires
            sides >= 1,
            old(single).wf(),
            fair(results@, sides),
        ensures
            old(single)@.dirty ==> final(single)@.dirty,
            final(single).wf(),
            final(single)@.total == old(single)@.total,
            final(single)@.constant == old(single)@.constant,
            rolled_onto(old(single)@.history, final(single)@.history, sides),
            r matches Ok(res) ==> res.0 == Modifier::Plain(Rule::IExplode) && fair(res.1@, sides),
            r matches Ok(res) ==> indef_explode_step(
                old(single)@.history,
                final(single)@.history,
                results@,
                value,
                *prior,
                sides,
                res.2@,
                res.1@,
            ),
            r matches Err(e) ==> e == Error::Other(Failure::Endless),
    {
        let t = match value {
            Some(v) => v,
            None => sides,
        };
        let ghost start = single@.history;
        let ghost first = if after_explode(*prior) {
            Seq::<Seq<dice::Result>>::empty()
        } else {
            seq![results@]
        };
        proof {
            assert(start.subrange(0, start.len() as int) == start);
        }
        let explode_before = match prior {
            Modifier::Plain(Rule::Explode) => true,
            Modifier::Plain(Rule::IExplode) => true,
            _ => false,
        };
        if !explode_before {
            single.add_history(copy_dice(&results), false);
            proof {
                lemma_rolled_push(start, start, single@.history, sides, results@);
                lemma_appended_push(start, start, single@.history, Seq::empty(), results@);
                assert(Seq::<Seq<dice::Result>>::empty().push(results@) == first);
            }
        }
        let mut amount = count_at_least_of(&results, t);
        let mut wave: Vec<dice::Result> = Vec::new();
        let mut rounds: u64 = 0;
        let ghost mut waves: Seq<Seq<dice::Result>> = Seq::empty();
        proof {
            assert(first + waves == first);
        }
        while amount > 0
            invariant
                sides >= 1,
                single.wf(),
                single@.total == old(single)@.total,
                single@.constant == old(single)@.constant,
                t == threshold(value, sides),
                rounds == waves.len(),
                rounds > 0 ==> wave@ == waves.last() && amount as nat == count_at_least(wave@, t),
                rounds == 0 ==> wave@.len() == 0 && amount as nat == count_at_least(results@, t),
                count_at_least(results@, t) == 0 ==> rounds == 0,
                waves.len() > 0 ==> waves[0].len() == count_at_least(results@, t),
                forall|j: int| 0 <= j < waves.len() - 1 ==> (#[trigger] waves[j + 1]).len() == count_at_least(
                    waves[j],
                    t,
                ),
                forall|j: int| 0 <= j < waves.len() ==> fair(#[trigger] waves[j], sides),
                fair(wave@, sides),
                rolled_onto(start, single@.history, sides),
                appended(start, single@.history, first + waves),
                start == old(single)@.history,
                old(single)@.dirty ==> single@.dirty,
            decreases MAX_CHAIN - rounds,
        {
            if rounds >= MAX_CHAIN {
                return Err(Error::Other(Failure::Endless));
            }
            let ghost before = waves;
            let ghost asked = amount;
            wave = Self::roll(amount, sides, source);
            amount = count_at_least_of(&wave, t);
            let ghost mid = single@.history;
            single.add_history(copy_dice(&wave), false);
            proof {
                lemma_rolled_push(start, mid, single@.history, sides, wave@);
                lemma_appended_push(start, mid, single@.history, first + before, wave@);
                waves = before.push(wave@);
                assert((first + before).push(wave@) == first + waves);
                assert forall|j: int| 0 <= j < waves.len() - 1 implies (#[trigger] waves[j + 1]).len()
                    == count_at_least(waves[j], t) by {
                    if j + 1 < before.len() {
                        assert(waves[j + 1] == before[j + 1] && waves[j] == before[j]);
                    } else {
                        assert(waves[j] == before.last());
                    }
                }
                assert forall|j: int| 0 <= j < waves.len() implies fair(#[trigger] waves[j], sides) by {
                    if j < before.len() {
                        assert(waves[j] == before[j]);
                    }
                }
                if before.len() == 0 {
                    assert(waves[0] == wave@);
                } else {
                    assert(waves[0] == before[0]);
                }
            }
            rounds = rounds + 1;
        }
        proof {
            if rounds == 0 {
                assert(count_at_least(wave@, t) == 0);
            }
            assert(indef_explode_step(old(single)@.history, single@.history, results@, value, *prior, sides, waves, wave@));
        }
        Ok((Modifier::Plain(Rule::IExplode), wave, Ghost(waves)))
    }

    /// `r`: throws again, once, each die at or below the value.
    fn eval_reroll<S: Source>(
        single: &mut Single,
        sides: u64,
        results: Vec<dice::Result>,
        value: u64,
        source: &mut S,
    ) -> (r: (Modifier, Vec<dice::Result>))
        requires
            sides >= 1,
            old(single).wf(),
            fair(results@, sides),
        ensures
            old(single)@.dirty ==> final(single)@.dirty,
            r.0 matches Modifier::Plain(Rule::Reroll),
            final(single).wf(),
            final(single)@.total == old(single)@.total,
            final(single)@.constant == old(single)@.constant,
            reroll_step(old(single)@.history, final(single)@.history, results@, value, sides, false, r.1@),
    {
        let mut out: Vec<dice::Result> = Vec::new();
        let mut rerolled = false;
        let mut i: usize = 0;
        while i < results.len()
            invariant
                sides >= 1,
                i <= results@.len(),
                out@.len() == i,
                fair(results@, sides),
                fair(out@, sides),
                forall|j: int| 0 <= j < i && (#[trigger] results@[j]).value > value ==> out@[j] == results@[j],
                rerolled == exists|j: int| 0 <= j < i && (#[trigger] results@[j]).value <= value,
            decreases results@.len() - i,
        {
            let x = results[i];
            if x.value <= value {
                rerolled = true;
                let v = source.throw(sides);
                out.push(dice::Result::new(v, sides));
            } else {
                out.push(x);
            }
            i = i + 1;
            proof {
                if !rerolled {
                    assert forall|j: int| 0 <= j < i implies !((#[trigger] results@[j]).value <= value) by {
                        if j < i - 1 {
                        } else {
                            assert(results@[j] == x);
                        }
                    }
                }
                if x.value <= value {
                    assert(results@[i - 1].value <= value);
                }
            }
        }
        let ghost start = single@.history;
        if rerolled {
            single.add_history(copy_dice(&out), false);
            proof {
                assert(start.subrange(0, start.len() as int) == start);
                lemma_appended_push(start, start, single@.history, Seq::empty(), out@);
                assert(Seq::<Seq<dice::Result>>::empty().push(out@) == seq![out@]);
            }
        }
        (Modifier::Plain(Rule::Reroll), out)
    }

    /// `rr`: throws again each die at or below the value, until it lands above.
    fn eval_indef_reroll<S: Source>(
        single: &mut Single,
        sides: u64,
        results: Vec<dice::Result>,
        value: u64,
        source: &mut S,
    ) -> (r: Result<(Modifier, Vec<dice::Result>), Error>)
        requires
            sides >= 1,
            old(single).wf(),
            fair(results@, sides),
        ensures
            old(single)@.dirty ==> final(single)@.dirty,
            final(single).wf(),
            final(single)@.total == old(single)@.total,
            final(single)@.constant == old(single)@.constant,
            match r {
                Ok((m, out)) => {
                    &&& m matches Modifier::Plain(Rule::IReroll)
                    &&& reroll_step(old(single)@.history, final(single)@.history, results@, value, sides, true, out@)
                },
                Err(e) => e == Error::Other(Failure::Endless) && final(single)@.history == old(single)@.history,
            },
    {
        let mut out: Vec<dice::Result> = Vec::new();
        let mut rerolled = false;
        let mut i: usize = 0;
        while i < results.len()
            invariant
                sides >= 1,
                i <= results@.len(),
                out@.len() == i,
                fair(results@, sides),
                fair(out@, sides),
                forall|j: int| 0 <= j < i ==> (#[trigger] out@[j]).value > value,
                forall|j: int| 0 <= j < i && (#[trigger] results@[j]).value > value ==> out@[j] == results@[j],
                rerolled == exists|j: int| 0 <= j < i && (#[trigger] results@[j]).value <= value,
                single@ == old(single)@,
                single.wf(),
            decreases results@.len() - i,
        {
            let mut x = results[i];
            let mut rounds: u64 = 0;
            while x.value <= value
                invariant
                    sides >= 1,
                    1 <= x.value <= sides,
                    x.critic == critic_of(x.value, sides),
                    i < results@.len(),
                    rounds == 0 ==> x == results@[i as int],
                    results@[i as int].value > value ==> rounds == 0,
                    single@ == old(single)@,
                    single.wf(),
                decreases MAX_CHAIN - rounds,
            {
                if rounds >= MAX_CHAIN {
                    return Err(Error::Other(Failure::Endless));
                }
                let v = source.throw(sides);
                x = dice::Result::new(v, sides);
                rounds = rounds + 1;
            }
            if results[i].value <= value {
                rerolled = true;
            }
            out.push(x);
            i = i + 1;
            proof {
                if !rerolled {
                    assert forall|j: int| 0 <= j < i implies !((#[trigger] results@[j]).value <= value) by {
                        if j == i - 1 {
                            assert(results@[j] == results@[i - 1]);
                        }
                    }
                }
                if results@[i - 1].value <= value {
                    assert(results@[i - 1].value <= value);
                }
            }
        }
        let ghost start = single@.history;
        if rerolled {
            single.add_history(copy_dice(&out), false);
            proof {
                assert(start.subrange(0, start.len() as int) == start);
                lemma_appended_push(start, start, single@.history, Seq::empty(), out@);
                assert(Seq::<Seq<dice::Result>>::empty().push(out@) == seq![out@]);
            }
        }
        Ok((Modifier::Plain(Rule::IReroll), out))
    }
    /// Applies one modifier token to the dice in play, and hands on the dice that
    /// later tokens see: a keep or drop token sorts them and selects its part.
    fn eval_modifier<S: Source>(
        single: &mut Single,
        sides: u64,
        results: Vec<dice::Result>,
        token: Token,
        s: &Vec<char>,
        source: &mut S,
        prev: &Modifier,
    ) -> (r: Result<modifier::Result, Error>)
        requires
            sides >= 1,
            old(single).wf(),
            fair(results@, sides),
        ensures
            old(single)@.dirty ==> final(single)@.dirty,
            final(single).wf(),
            final(single)@.total == old(single)@.total,
            final(single)@.constant == old(single)@.constant,
            rolled_onto(old(single)@.history, final(single)@.history, sides),
            r matches Ok(m) ==> fair(m.results@, sides) && m.modifier@ == token_modifier(s@, token),
            match token {
                Token::Explode(v) => r matches Ok(m) && exists|w: Seq<dice::Result>|
                    explode_step(old(single)@.history, final(single)@.history, results@, v, *prev, sides, w)
                        && handed_on(w, m.modifier@, m.results@),
                Token::IExplode(v) => (r matches Ok(m) ==> exists|ws: Seq<Seq<dice::Result>>, w: Seq<dice::Result>|
                    indef_explode_step(old(single)@.history, final(single)@.history, results@, v, *prev, sides, ws, w)
                        && handed_on(w, m.modifier@, m.results@)) && (r matches Err(e) ==> e == Error::Other(
                    Failure::Endless,
                )),
                Token::Reroll(v) => r matches Ok(m) && exists|w: Seq<dice::Result>|
                    reroll_step(old(single)@.history, final(single)@.history, results@, v, sides, false, w)
                        && handed_on(w, m.modifier@, m.results@),
                Token::IReroll(v) => (r matches Ok(m) ==> exists|w: Seq<dice::Result>|
                    reroll_step(old(single)@.history, final(single)@.history, results@, v, sides, true, w)
                        && handed_on(w, m.modifier@, m.results@)) && (r matches Err(e) ==> e == Error::Other(
                    Failure::Endless,
                )),
                Token::KeepHi(_) | Token::KeepLo(_) | Token::DropHi(_) | Token::DropLo(_) => r matches Ok(m)
                    && handed_on(results@, m.modifier@, m.results@) && (old(single)@.history.len() == 0 ==> appended(
                    old(single)@.history,
                    final(single)@.history,
                    seq![results@],
                )) && (old(single)@.history.len() > 0 ==> final(single)@.history == old(single)@.history),
                _ => r matches Ok(m) && handed_on(results@, m.modifier@, m.results@) && final(single)@.history == old(
                    single,
                )@.history,
            },
    {
        let ghost start = single@.history;
        let ghost input = results@;
        proof {
            assert(start.subrange(0, start.len() as int) == start);
        }
        let ghost mut waves: Seq<Seq<dice::Result>> = Seq::empty();
        let (modifier, results) = match token {
            Token::Explode(v) => {
                let r = Self::eval_explode(single, sides, results, v, prev, source);
                proof {
                    assert forall|i: int| start.len() <= i < single@.history.len() implies exists|g: Seq<dice::Result>|
                        fair(g, sides) && logged_as(#[trigger] single@.history[i], g, false) by {
                        let first = if after_explode(*prev) {
                            Seq::<Seq<dice::Result>>::empty()
                        } else {
                            seq![results@]
                        };
                        let k = i - start.len();
                        let n = count_at_least(results@, threshold(v, sides));
                        let groups = if n > 0 {
                            first.push(r.1@)
                        } else {
                            first
                        };
                        assert(logged_as(single@.history[start.len() + k], groups[k], false));
                        assert(single@.history[start.len() + k] == single@.history[i]);
                        if !after_explode(*prev) && k == 0 {
                            assert(groups[k] == results@);
                        } else {
                            assert(groups[k] == r.1@);
                        }
                        assert(fair(groups[k], sides));
                    }
                }
                r
            },
            Token::IExplode(v) => {
                let (m, w, ws) = Self::eval_indef_explode(single, sides, results, v, prev, source)?;
                proof {
                    waves = ws@;
                }
                (m, w)
            },
            Token::Reroll(v) => {
                let r = Self::eval_reroll(single, sides, results, v, source);
                proof {
                    if single@.history != start {
                        assert(seq![r.1@][0] == r.1@);
                        assert(single@.history[start.len() + 0int] == single@.history[start.len() as int]);
                        assert(logged_as(single@.history[start.len() as int], r.1@, false));
                    }
                }
                r
            },
            Token::IReroll(v) => {
                let r = Self::eval_indef_reroll(single, sides, results, v, source);
                proof {
                    if r is Ok {
                        let out = r->Ok_0.1;
                        if single@.history != start {
                            assert(seq![out@][0] == out@);
                            assert(single@.history[start.len() + 0int] == single@.history[start.len() as int]);
                            assert(logged_as(single@.history[start.len() as int], out@, false));
                        }
                    }
                }
                r?
            },
            Token::KeepHi(v) | Token::KeepLo(v) | Token::DropHi(v) | Token::DropLo(v) => {
                if single.get_history().len() == 0 {
                    single.add_history(copy_dice(&results), false);
                    proof {
                        assert(single@.history[start.len() as int] == single@.history.last());
                        lemma_rolled_push(start, start, single@.history, sides, results@);
                        lemma_appended_push(start, start, single@.history, Seq::empty(), results@);
                        assert(Seq::<Seq<dice::Result>>::empty().push(results@) == seq![results@]);
                    }
                }
                let k = v as usize;
                let m = match token {
                    Token::KeepHi(_) => Modifier::KeepHigh(k),
                    Token::KeepLo(_) => Modifier::KeepLow(k),
                    Token::DropHi(_) => Modifier::DropHigh(k),
                    _ => Modifier::DropLow(k),
                };
                (m, results)
            },
            Token::Target(v) => (Modifier::TargetDoubleFailure(v, 0, 0), results),
            Token::TargetList(p) => {
                let values = if p <= s.len() {
                    match list_at(s, p) {
                        Some((values, _)) => values,
                        None => Vec::new(),
                    }
                } else {
                    Vec::new()
                };
                (Modifier::TargetEnum(values), results)
            },
            Token::DoubleTarget(v) => (Modifier::TargetDoubleFailure(0, 0, v), results),
            Token::Failure(v) => (Modifier::TargetDoubleFailure(0, v, 0), results),
        };
        proof {
            assert(rolled_onto(start, single@.history, sides));
        }
        let ghost handed = results@;
        let n = results.len();
        let number: usize = match modifier {
            Modifier::KeepHigh(k) => if k > n { n } else { k },
            Modifier::KeepLow(k) => if k > n { n } else { k },
            Modifier::DropHigh(k) => if k > n { 0 } else { k },
            Modifier::DropLow(k) => if k > n { 0 } else { k },
            _ => 0,
        };
        let sorted = sort_by_key(results, false);
        proof {
            assert(sorted@.len() == sorted@.to_multiset().len());
            assert(handed.len() == handed.to_multiset().len());
            assert forall|i: int| 0 <= i < sorted@.len() implies 1 <= (#[trigger] sorted@[i]).value <= sides
                && sorted@[i].critic == critic_of(sorted@[i].value, sides) by {
                assert(sorted@.to_multiset().count(sorted@[i]) > 0);
                assert(handed.contains(sorted@[i]));
            }
        }
        let (from, to) = match modifier {
            Modifier::KeepHigh(_) => (n - number, n),
            Modifier::KeepLow(_) => (0, number),
            Modifier::DropHigh(_) => (0, n - number),
            Modifier::DropLow(_) => (number, n),
            _ => (0, n),
        };
        let mut out: Vec<dice::Result> = Vec::new();
        let mut i: usize = from;
        while i < to
            invariant
                from <= i <= to <= sorted@.len(),
                out@ == sorted@.subrange(from as int, i as int),
            decreases to - i,
        {
            out.push(sorted[i]);
            i = i + 1;
            proof {
                assert(sorted@.subrange(from as int, i as int) == sorted@.subrange(from as int, i - 1).push(sorted@[i - 1]));
            }
        }
        proof {
            assert forall|a: int| 0 <= a < out@.len() implies 1 <= (#[trigger] out@[a]).value <= sides
                && out@[a].critic == critic_of(out@[a].value, sides) by {
                assert(out@[a] == sorted@[from + a]);
            }
            assert(sorted@.subrange(0, n as int) == sorted@);
            assert(out@ == kept(sorted@, modifier@));
            assert(handed_on(handed, modifier@, out@));
            match token {
                Token::Explode(v) => {
                    assert(explode_step(start, single@.history, input, v, *prev, sides, handed));
                },
                Token::IExplode(v) => {
                    assert(indef_explode_step(start, single@.history, input, v, *prev, sides, waves, handed));
                },
                Token::Reroll(v) => {
                    assert(reroll_step(start, single@.history, input, v, sides, false, handed));
                },
                Token::IReroll(v) => {
                    assert(reroll_step(start, single@.history, input, v, sides, true, handed));
                },
                _ => {},
            }
        }
        Ok(modifier::Result { results: out, modifier })
    }
    /// Rolls one dice term and applies its modifiers in order.
    fn eval_roll<S: Source>(dice: &Dice, s: &Vec<char>, source: &mut S) -> (r: Result<Single, Error>)
        ensures
            dice_outcome(s@, *dice, r),
    {
        let amount = match dice.amount {
            Some(a) => a,
            None => 1,
        };
        if amount > MAX_DICE_AMOUNT {
            return Err(Error::Other(Failure::TooManyDice));
        }
        let (sides, is_fudge) = match dice.sides {
            Some(n) => (n, false),
            None => (6, true),
        };
        if sides > MAX_DICE_SIDES {
            return Err(Error::Other(Failure::TooManySides));
        }
        if sides == 0 {
            return Err(Error::Other(Failure::ZeroSides));
        }
        let mut single = Single::new();
        let mut results = Self::roll(amount, sides, source);
        let ghost first = results@;
        let mut modifier = Modifier::Plain(Rule::Expr);
        if is_fudge {
            single.add_history(results, true);
            proof {
                assert(single@.history == seq![single@.history.last()]);
                assert(single@.history[0] == single@.history.last());
                lemma_single_roll_total(single@.history, first, 6, true);
            }
            single.eval_total(Modifier::Fudge)?;
            return Ok(single);
        }
        proof {
            assert(Seq::<History>::empty().subrange(0, 0) == Seq::<History>::empty());
        }
        let mut p = dice.mods;
        let mut any = false;
        let ghost target = tokens_modifier(s@, dice.mods as int, dice.end as int, ModifierView::Plain(Rule::Expr));
        let ghost tonly = thresholds_only(s@, dice.mods as int, dice.end as int);
        let ghost lonly = list_only(s@, dice.mods as int, dice.end as int);
        loop
            invariant
                sides >= 1,
                single.wf(),
                single@.dirty,
                single@.constant.is_none(),
                fair(results@, sides),
                rolled_onto(Seq::empty(), single@.history, sides),
                !any ==> single@.history.len() == 0 && results@ == first && p == dice.mods
                    && modifier == Modifier::Plain(Rule::Expr),
                any ==> dice.mods < dice.end,
                amount == amount_of(*dice),
                sides == sides_of(*dice),
                amount <= MAX_DICE_AMOUNT,
                1 <= sides <= MAX_DICE_SIDES,
                dice.sides is Some,
                first.len() == amount,
                fair(first, sides),
                tokens_modifier(s@, p as int, dice.end as int, modifier@) == target,
                tonly == thresholds_only(s@, dice.mods as int, dice.end as int),
                lonly == list_only(s@, dice.mods as int, dice.end as int),
                tonly ==> thresholds_only(s@, p as int, dice.end as int),
                (tonly || lonly) ==> results@.to_multiset() == first.to_multiset(),
                (tonly || lonly) && any ==> single@.history.len() == 1 && logged_as(single@.history[0], first, false),
                tonly && any ==> modifier is TargetDoubleFailure,
                lonly && any ==> modifier is TargetEnum && !more_tokens(s@, p as int, dice.end as int),
            ensures
                sides >= 1,
                single.wf(),
                single@.dirty,
                single@.constant.is_none(),
                fair(results@, sides),
                rolled_onto(Seq::empty(), single@.history, sides),
                !any ==> single@.history.len() == 0 && results@ == first && p == dice.mods
                    && modifier == Modifier::Plain(Rule::Expr),
                any ==> dice.mods < dice.end,
                amount == amount_of(*dice),
                sides == sides_of(*dice),
                amount <= MAX_DICE_AMOUNT,
                1 <= sides <= MAX_DICE_SIDES,
                dice.sides is Some,
                first.len() == amount,
                fair(first, sides),
                modifier@ == target,
                tonly == thresholds_only(s@, dice.mods as int, dice.end as int),
                lonly == list_only(s@, dice.mods as int, dice.end as int),
                tonly ==> thresholds_only(s@, p as int, dice.end as int),
                (tonly || lonly) ==> results@.to_multiset() == first.to_multiset(),
                (tonly || lonly) && any ==> single@.history.len() == 1 && logged_as(single@.history[0], first, false),
                tonly && any ==> modifier is TargetDoubleFailure,
                lonly && any ==> modifier is TargetEnum && !more_tokens(s@, p as int, dice.end as int),
                lonly ==> any,
            decreases dice.end - p,
        {
            if !(p < dice.end && p <= s.len()) {
                break;
            }
            let q = skip_ws_at(s, p);
            match modifier_at(s, q) {
                Some((token, r)) => {
                    if r > dice.end {
                        break;
                    }
                    let ghost before = modifier@;
                    proof {
                        assert(more_tokens(s@, p as int, dice.end as int));
                        if tonly {
                            assert(token is Target || token is DoubleTarget || token is Failure);
                            assert(thresholds_only(s@, r as int, dice.end as int));
                        }
                        if lonly {
                            assert(!any);
                            assert(token is TargetList && !more_tokens(s@, r as int, dice.end as int));
                        }
                    }
                    let ghost was_any = any;
                    let ghost in_play = results@;
                    any = true;
                    let ghost h0 = single@.history;
                    let m = Self::eval_modifier(&mut single, sides, results, token, s, source, &modifier)?;
                    proof {
                        if tonly || lonly {
                            let sw = choose|sw: Seq<dice::Result>|
                                sw.to_multiset() == in_play.to_multiset() && sorted_keys(sw, false) && m.results@ == kept(
                                    sw,
                                    m.modifier@,
                                );
                            assert(m.results@ == sw);
                            assert(single@.history == h0);
                        }
                    }
                    proof {
                        assert(single@.history.subrange(0, 0) == Seq::<History>::empty());
                        assert forall|i: int| 0 <= i < single@.history.len() implies exists|g: Seq<dice::Result>|
                            fair(g, sides) && logged_as(#[trigger] single@.history[i], g, false) by {
                            if i < h0.len() {
                                assert(single@.history.subrange(0, h0.len() as int)[i] == single@.history[i]);
                                assert(h0[i] == single@.history[i]);
                            }
                        }
                    }
                    results = m.results;
                    let next = m.modifier;
                    modifier = match next {
                        Modifier::TargetDoubleFailure(t, f, d) => match modifier {
                            Modifier::TargetDoubleFailure(ot, of, od) => {
                                if t > 0 {
                                    Modifier::TargetDoubleFailure(t, of, od)
                                } else if f > 0 {
                                    Modifier::TargetDoubleFailure(ot, f, od)
                                } else {
                                    Modifier::TargetDoubleFailure(ot, of, d)
                                }
                            },
                            _ => {
                                let ghost h1 = single@.history;
                                single.add_history(copy_dice(&results), false);
                                proof {
                                    lemma_rolled_push(Seq::empty(), h1, single@.history, sides, results@);
                                    if h1.len() == 0 {
                                        assert(single@.history[0] == single@.history.last());
                                    }
                                }
                                Modifier::TargetDoubleFailure(t, f, d)
                            },
                        },
                        Modifier::TargetEnum(v) => {
                            let ghost h1 = single@.history;
                            single.add_history(copy_dice(&results), false);
                            proof {
                                lemma_rolled_push(Seq::empty(), h1, single@.history, sides, results@);
                                if h1.len() == 0 {
                                    assert(single@.history[0] == single@.history.last());
                                }
                            }
                            Modifier::TargetEnum(v)
                        },
                        other => other,
                    };
                    proof {
                        assert(modifier@ == next_modifier(s@, token, before));
                    }
                    p = r;
                },
                None => {
                    break;
                },
            }
        }
        if !any {
            proof {
                assert(single@.history == Seq::<History>::empty());
            }
            single.add_history(results, false);
            proof {
                assert(single@.history == seq![single@.history.last()]);
                assert(single@.history[0] == single@.history.last());
                lemma_rolled_push(Seq::empty(), Seq::empty(), single@.history, sides, first);
                lemma_single_roll_total(single@.history, first, sides, false);
            }
        }
        let ghost m = modifier;
        proof {
            if (tonly || lonly) && any {
                lemma_counted_total(single@.history, first, m);
            }
        }
        single.eval_total(modifier)?;
        proof {
            assert(total_of(single@.history, m) == Some(single@.total as int));
        }
        Ok(single)
    }

    /// Evaluates an expression, left to right.
    pub fn eval<S: Source>(expr: &Expr, s: &Vec<char>, source: &mut S) -> (r: Result<Single, Error>)
        requires
            expr_wf(*expr),
        ensures
            expr_outcome(s@, *expr, r),
    {
        let (r, t) = Self::eval_traced(expr, s, source);
        proof {
            assert(traced(s@, *expr, t@, r));
        }
        r
    }

    fn eval_traced<S: Source>(expr: &Expr, s: &Vec<char>, source: &mut S) -> (r: (Result<Single, Error>, Ghost<Trace>))
        requires
            expr_wf(*expr),
        ensures
            traced(s@, *expr, r.1@, r.0),
        decreases expr,
    {
        match expr {
            Expr::Integer(n) => {
                let x = Single::with_total(*n);
                (Ok(x), Ghost(Trace::Leaf))
            },
            Expr::Float(f) => (Ok(Single::with_float(*f)), Ghost(Trace::Leaf)),
            Expr::Dice(d) => {
                let r = Self::eval_roll(d, s, source);
                proof {
                    if r is Ok && always_logs(*expr) {
                        let x = r->Ok_0;
                        assert(x@.history.len() == 1);
                        if d.sides is None {
                            let g = choose|g: Seq<dice::Result>| g.len() == amount_of(*d) && fair(g, 6) && logged_as(x@.history[0], g, true);
                        } else {
                            let g = choose|g: Seq<dice::Result>| g.len() == amount_of(*d) && fair(g, sides_of(*d)) && logged_as(x@.history[0], g, false);
                        }
                        assert(x@.history.last() == x@.history[0]);
                    }
                }
                (r, Ghost(Trace::Leaf))
            },
            Expr::Block(inner) => {
                let (rb, tb) = Self::eval_traced(inner, s, source);
                match rb {
                    Ok(x0) => {
                        let mut x = x0;
                        let ghost before = x;
                        x.add_parens();
                        proof {
                            if always_logs(*expr) {
                                lemma_parens_ops_apart(before@.history);
                            }
                            assert(x@.history[0] == History::OpenParen);
                        }
                        (Ok(x), Ghost(Trace::Block(Box::new(tb@), Ok(before))))
                    },
                    Err(err) => (Err(err), Ghost(Trace::Block(Box::new(tb@), Err(err)))),
                }
            },
            Expr::Binary(op, lhs, rhs) => {
                let (ra, ta) = Self::eval_traced(lhs, s, source);
                let a = match ra {
                    Ok(a) => a,
                    Err(err) => {
                        return (Err(err), Ghost(Trace::Binary(Box::new(ta@), Err(err), Box::new(Trace::Leaf), None)));
                    },
                };
                let ghost ga = a;
                let (rb, tb) = Self::eval_traced(rhs, s, source);
                let b = match rb {
                    Ok(b) => b,
                    Err(err) => {
                        return (
                            Err(err),
                            Ghost(Trace::Binary(Box::new(ta@), Ok(ga), Box::new(tb@), Some(Err(err)))),
                        );
                    },
                };
                let ghost gb = b;
                let r = a.apply(*op, b);
                proof {
                    if r is Ok && always_logs(*expr) {
                        lemma_merged_ops_apart(ga@.history, *op, gb@.history);
                    }
                }
                (r, Ghost(Trace::Binary(Box::new(ta@), Ok(ga), Box::new(tb@), Some(Ok(gb)))))
            },
        }
    }
}

} // verus!
