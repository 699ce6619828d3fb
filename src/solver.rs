use crate::error::{Error, Failure};
use crate::evaluator::{expr_outcome, Evaluator};
use crate::parser::{body_expr, command, dice_terms, expr_wf, parse, spans_ok, Body, Dice, Expr, Repeat};
use crate::roll;
use crate::roll::kind::{sum_totals, Multi, Single};
use crate::roll::{Kind, Source};
use crate::sort::sorted_keys;
use crate::text::{chars_of, text_between, trim_text, trimmed_of};
use rand::Rng;
use vstd::prelude::*;

verus! {

broadcast use vstd::seq_lib::group_to_multiset_ensures, vstd::multiset::group_multiset_axioms;

/// Relies on rand's `thread_rng` and `Rng::gen_range`: a face drawn uniformly
/// from `1..=sides` by the thread's cryptographically secure generator. The range
/// is never empty here; `thread_rng` panics only where the operating system
/// offers no entropy to seed it.
#[verifier::external_body]
fn uniform_face(sides: u64) -> (r: u64)
    requires
        sides >= 1,
    ensures
        1 <= r <= sides,
{
    rand::thread_rng().gen_range(1..=sides)
}

/// The default dice source: the thread's random number generator.
pub struct RandomSource;

impl Source for RandomSource {
    fn throw(&mut self, sides: u64) -> (r: u64) {
        uniform_face(sides)
    }
}

/// The query without its reason: everything before the first `:`.
pub open spec fn before_colon(s: Seq<char>) -> Seq<char>
    decreases s.len(),
{
    if s.len() == 0 {
        s
    } else if s[0] == ':' {
        Seq::empty()
    } else {
        seq![s[0]] + before_colon(s.drop_first())
    }
}

/// Removing the reason twice removes no more than removing it once.
pub proof fn lemma_trim_reason_idempotent(s: Seq<char>)
    ensures
        before_colon(before_colon(s)) == before_colon(s),
    decreases s.len(),
{
    if s.len() > 0 && s[0] != ':' {
        lemma_trim_reason_idempotent(s.drop_first());
        let t = before_colon(s);
        assert(t[0] == s[0]);
        assert(t.drop_first() == before_colon(s.drop_first()));
    }
}

/// The reason that a result carries for the query `q` parsed as `c`.
pub open spec fn reason_of(q: Seq<char>, reason: Option<usize>, res: roll::Result) -> bool {
    match reason {
        Some(i) => res.reason() == Some(trimmed_of(q.subrange(i as int, q.len() as int))),
        None => res.reason().is_none(),
    }
}

/// What evaluating a repeated expression may give.
pub open spec fn repeated_outcome(q: Seq<char>, e: Expr, mode: Repeat, n: u64, r: Result<roll::Result, Error>) -> bool {
    &&& n == 0 ==> r == Err::<roll::Result, Error>(Error::Other(Failure::NoRepeat))
    &&& r matches Ok(res) ==> {
        &&& res.kind() matches Kind::Multi(m) && {
            &&& m.rolls@.len() == n
            &&& forall|i: int| 0 <= i < m.rolls@.len() ==> expr_outcome(q, e, Ok(#[trigger] m.rolls@[i]))
            &&& mode == Repeat::Sort ==> sorted_keys(m.rolls@, false)
            &&& (mode == Repeat::Sum) == m.total.is_some()
            &&& mode == Repeat::Sum ==> m.total == Some(sum_totals(m.rolls@) as i64)
        }
    }
    &&& r matches Err(err) ==> n == 0 || expr_outcome(q, e, Err(err)) || (mode == Repeat::Sum && err == Error::Other(
        Failure::Overflow,
    ))
    &&& n > 0 && mode != Repeat::Sum && (forall|err: Error| !#[trigger] expr_outcome(q, e, Err(err))) ==> r is Ok
}

/// What solving the query `q` may give.
pub open spec fn solved(q: Seq<char>, r: Result<roll::Result, Error>) -> bool {
    match command(q) {
        Err(p) => r == Err::<roll::Result, Error>(Error::Parse(p as usize)),
        Ok(c) => {
            &&& r matches Ok(res) ==> reason_of(q, c.reason, res)
            &&& match c.body {
                Body::Single(e) => {
                    &&& r matches Ok(res) ==> res.kind() matches Kind::Single(x) && expr_outcome(q, e, Ok(x))
                    &&& r matches Err(err) ==> expr_outcome(q, e, Err(err))
                },
                Body::Repeated(e, mode, n) => repeated_outcome(q, e, mode, n, r),
            }
        },
    }
}

/// The source text of each dice term.
pub open spec fn dice_texts(q: Seq<char>, ds: Seq<Dice>) -> Seq<Seq<char>> {
    ds.map_values(|d: Dice| q.subrange(d.start as int, d.end as int))
}

pub open spec fn texts(v: Seq<String>) -> Seq<Seq<char>> {
    v.map_values(|t: String| t@)
}

/// A roll query.
#[derive(Clone, Debug)]
pub struct Solver(String);

impl View for Solver {
    type V = Seq<char>;

    closed spec fn view(&self) -> Seq<char> {
        self.0@
    }
}

impl Solver {
    /// Keeps the query; it is parsed when it is solved.
    pub fn new(input: &str) -> (r: Result<Self, Error>)
        ensures
            r matches Ok(s) && s@ == input@,
    {
        Ok(Solver(input.to_owned()))
    }

    /// Solves the query with the default random source.
    pub fn solve(&self) -> (r: Result<roll::Result, Error>)
        ensures
            solved(self@, r),
            r matches Ok(res) ==> res.wf(),
    {
        self.solve_with_source(&mut RandomSource)
    }

    /// Solves the query, throwing dice with `source`.
    pub fn solve_with_source<S: Source>(&self, source: &mut S) -> (r: Result<roll::Result, Error>)
        ensures
            solved(self@, r),
            r matches Ok(res) ==> res.wf(),
    {
        let chars = chars_of(self.0.as_str());
        let cmd = match parse(&chars) {
            Ok(c) => c,
            Err(p) => {
                return Err(Error::Parse(p));
            },
        };
        let mut result = match &cmd.body {
            Body::Single(e) => {
                let x = Evaluator::eval(e, &chars, source)?;
                roll::Result::new_single(x)
            },
            Body::Repeated(e, mode, n) => {
                Self::solve_multi(e, *mode, *n, &chars, source)?
            },
        };
        let ghost before = result;
        if let Some(start) = cmd.reason {
            let rest = text_between(&chars, start, chars.len());
            result.add_reason(trim_text(rest.as_str()));
        }
        proof {
            assert(result.kind() == before.kind());
        }
        Ok(result)
    }

    /// Evaluates the expression `n` times with the same source and combines the
    /// results.
    fn solve_multi<S: Source>(e: &Expr, mode: Repeat, n: u64, chars: &Vec<char>, source: &mut S) -> (r: Result<
        roll::Result,
        Error,
    >)
        requires
            expr_wf(*e),
        ensures
            repeated_outcome(chars@, *e, mode, n, r),
            r matches Ok(res) ==> res.reason().is_none(),
    {
        if n == 0 {
            return Err(Error::Other(Failure::NoRepeat));
        }
        let mut results: Vec<Single> = Vec::new();
        let mut i: u64 = 0;
        while i < n
            invariant
                i <= n,
                results@.len() == i,
                expr_wf(*e),
                forall|j: int| 0 <= j < results@.len() ==> expr_outcome(chars@, *e, Ok(#[trigger] results@[j])),
            decreases n - i,
        {
            let x = Evaluator::eval(e, chars, source)?;
            results.push(x);
            i = i + 1;
            proof {
                assert forall|j: int| 0 <= j < results@.len() implies expr_outcome(chars@, *e, Ok(#[trigger] results@[j])) by {
                    if j == results@.len() - 1 {
                        assert(results@[j] == x);
                    }
                }
            }
        }
        let ghost rolls = results@;
        let multi = Multi::gather(results, mode)?;
        proof {
            assert(multi.rolls@.len() == multi.rolls@.to_multiset().len());
            assert(rolls.len() == rolls.to_multiset().len());
            assert forall|j: int| 0 <= j < multi.rolls@.len() implies expr_outcome(chars@, *e, Ok(#[trigger] multi.rolls@[j])) by {
                if mode == Repeat::Sort {
                    assert(multi.rolls@.to_multiset().count(multi.rolls@[j]) > 0);
                    assert(rolls.contains(multi.rolls@[j]));
                } else {
                    assert(multi.rolls@[j] == rolls[j]);
                }
            }
        }
        Ok(roll::Result::new_multi(multi.rolls, multi.total))
    }

    /// The source text of each dice term of the query, left to right.
    pub fn dices(&self) -> (r: Result<Vec<String>, Error>)
        ensures
            match command(self@) {
                Err(p) => r == Err::<Vec<String>, Error>(Error::Parse(p as usize)),
                Ok(c) => r matches Ok(v) && texts(v@) == dice_texts(self@, dice_terms(body_expr(c.body))),
            },
    {
        let chars = chars_of(self.0.as_str());
        let cmd = match parse(&chars) {
            Ok(c) => c,
            Err(p) => {
                return Err(Error::Parse(p));
            },
        };
        let e = match &cmd.body {
            Body::Single(e) => e,
            Body::Repeated(e, _, _) => e,
        };
        let mut out: Vec<String> = Vec::new();
        collect_dice(e, &chars, &mut out);
        proof {
            assert(texts(Seq::<String>::empty()) == Seq::<Seq<char>>::empty());
        }
        Ok(out)
    }

    /// The query.
    pub fn as_str(&self) -> (r: &str)
        ensures
            r@ == self@,
    {
        self.0.as_str()
    }

    /// Removes the reason, from the first `:` on, from the query.
    pub fn trim_reason(&mut self)
        ensures
            final(self)@ == before_colon(old(self)@),
    {
        let chars = chars_of(self.0.as_str());
        let mut i: usize = 0;
        proof {
            assert(chars@.subrange(0, 0) + chars@.subrange(0, chars@.len() as int) == chars@);
        }
        while i < chars.len()
            invariant
                i <= chars@.len(),
                chars@ == old(self)@,
                self@ == old(self)@,
                before_colon(chars@) == chars@.subrange(0, i as int) + before_colon(chars@.subrange(i as int, chars@.len() as int)),
            decreases chars@.len() - i,
        {
            if chars[i] == ':' {
                proof {
                    let rest = chars@.subrange(i as int, chars@.len() as int);
                    assert(rest[0] == ':');
                    assert(before_colon(rest) == Seq::<char>::empty());
                    assert(chars@.subrange(0, i as int) + Seq::<char>::empty() == chars@.subrange(0, i as int));
                }
                self.0 = text_between(&chars, 0, i);
                return;
            }
            proof {
                let rest = chars@.subrange(i as int, chars@.len() as int);
                assert(rest.drop_first() == chars@.subrange(i + 1, chars@.len() as int));
                assert(chars@.subrange(0, i + 1) == chars@.subrange(0, i as int) + seq![chars@[i as int]]);
            }
            i = i + 1;
        }
        proof {
            assert(chars@.subrange(0, i as int) == chars@);
            assert(chars@.subrange(i as int, chars@.len() as int) == Seq::<char>::empty());
        }
    }
}

/// Appends the source text of each dice term of `e` to `out`.
fn collect_dice(e: &Expr, s: &Vec<char>, out: &mut Vec<String>)
    requires
        spans_ok(*e, s@.len() as int),
    ensures
        texts(final(out)@) == texts(old(out)@) + dice_texts(s@, dice_terms(*e)),
    decreases e,
{
    match e {
        Expr::Dice(d) => {
            let ghost before = out@;
            out.push(text_between(s, d.start, d.end));
            proof {
                assert(texts(out@) == texts(before).push(s@.subrange(d.start as int, d.end as int)));
                assert(dice_texts(s@, seq![*d]) == seq![s@.subrange(d.start as int, d.end as int)]);
            }
        },
        Expr::Block(b) => {
            collect_dice(b, s, out);
        },
        Expr::Binary(_, l, r) => {
            collect_dice(l, s, out);
            collect_dice(r, s, out);
            proof {
                assert(dice_texts(s@, dice_terms(**l) + dice_terms(**r)) == dice_texts(s@, dice_terms(**l)) + dice_texts(s@, dice_terms(**r)));
            }
        },
        _ => {
            proof {
                assert(dice_texts(s@, Seq::<Dice>::empty()) == Seq::<Seq<char>>::empty());
                assert(texts(out@) + Seq::<Seq<char>>::empty() == texts(out@));
            }
        },
    }
}

} // verus!
