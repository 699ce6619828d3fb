use havok::constant::{Constant, Decimal};
use havok::dice::{Critic, Modifier};
use havok::error::{Error, Failure};
use havok::parser::{Op, Repeat, Rule};
use havok::roll::history::History;
use havok::roll::kind::{Multi, Single};
use havok::roll::{Kind, Source};
use havok::solver::Solver;

struct Scripted {
    values: Vec<u64>,
    next: usize,
}

impl Source for Scripted {
    fn throw(&mut self, sides: u64) -> u64 {
        assert!(self.next < self.values.len(), "no value left");
        let value = self.values[self.next];
        assert!(value >= 1 && value <= sides, "value out of range");
        self.next += 1;
        value
    }
}

fn scripted(values: Vec<u64>) -> Scripted {
    Scripted { values, next: 0 }
}

fn solve_single(query: &str, values: Vec<u64>) -> Single {
    let result = Solver::new(query)
        .unwrap()
        .solve_with_source(&mut scripted(values))
        .unwrap();
    match result.get_result() {
        Kind::Single(single) => single.clone(),
        Kind::Multi(_) => panic!("expected a single roll"),
    }
}

fn solve_error(query: &str, values: Vec<u64>) -> Error {
    match Solver::new(query).unwrap().solve_with_source(&mut scripted(values)) {
        Ok(_) => panic!("expected an error"),
        Err(error) => error,
    }
}

fn roll_values(entry: &History) -> Vec<u64> {
    match entry {
        History::Roll(dice) => dice.iter().map(|d| d.value).collect(),
        _ => panic!("expected a roll"),
    }
}

#[test]
fn single_history_and_reason() {
    let result = Solver::new("2d6 + 6 : test")
        .unwrap()
        .solve_with_source(&mut scripted(vec![3, 5]))
        .unwrap();
    assert_eq!(result.get_reason().unwrap().as_str(), "test");
    let single = result.as_single().unwrap();
    assert_eq!(single.get_total(), 14);
    let history = single.get_history();
    assert_eq!(history.len(), 3);
    assert_eq!(roll_values(&history[0]), vec![5, 3]);
    assert!(matches!(history[1], History::Operator(Op::Add)));
    assert!(matches!(history[2], History::Constant(Constant::Integer(6))));
    assert_eq!(single.to_string(), "`[5, 3] + 6` = **14**");
    assert_eq!(result.to_string(), "`[5, 3] + 6` = **14** *reason* `test`");
}

#[test]
fn repeat_plain_has_no_total() {
    let result = Solver::new("(2d6 + 6) ^ 2")
        .unwrap()
        .solve_with_source(&mut scripted(vec![3, 5, 3, 5]))
        .unwrap();
    let multi = result.as_multi().unwrap();
    assert_eq!(multi.get_total(), None);
    assert_eq!(multi.len(), 2);
    assert!(result.get_reason().is_none());
}

#[test]
fn repeat_sum_is_sum_of_totals() {
    let result = Solver::new("(2d6 + 6) ^+ 2 : test")
        .unwrap()
        .solve_with_source(&mut scripted(vec![3, 5, 4, 2]))
        .unwrap();
    let multi = result.as_multi().unwrap();
    let totals: Vec<i64> = multi.iter().map(|s| s.get_total()).collect();
    assert_eq!(totals, vec![14, 12]);
    assert_eq!(multi.get_total(), Some(26));
    assert_eq!(
        result.to_string(),
        "`([5, 3] + 6)`\n`([4, 2] + 6)`\n*total* **26** *reason* `test`"
    );
}

#[test]
fn repeat_sort_orders_totals() {
    let result = Solver::new("(2d6 + 6) ^# 8 : test")
        .unwrap()
        .solve_with_source(&mut scripted(vec![3, 5, 1, 1, 6, 5, 3, 5, 4, 5, 2, 4, 3, 5, 1, 2]))
        .unwrap();
    let totals: Vec<i64> = result.as_multi().unwrap().iter().map(|s| s.get_total()).collect();
    assert_eq!(totals, vec![8, 9, 12, 14, 14, 14, 15, 17]);
}

#[test]
fn repeat_zero_times_fails() {
    assert_eq!(solve_error("(d6) ^ 0", vec![]), Error::Other(Failure::NoRepeat));
    assert_eq!(
        Error::Other(Failure::NoRepeat).message(),
        "Can't repeat 0 times or negatively"
    );
}

#[test]
fn gather_sums_and_sorts() {
    let rolls = vec![Single::with_total(4), Single::with_total(-1), Single::with_total(7)];
    let summed = Multi::gather(rolls.clone(), Repeat::Sum).unwrap();
    assert_eq!(summed.get_total(), Some(10));
    let sorted = Multi::gather(rolls.clone(), Repeat::Sort).unwrap();
    let totals: Vec<i64> = sorted.iter().map(|s| s.get_total()).collect();
    assert_eq!(totals, vec![-1, 4, 7]);
    let big = vec![Single::with_total(i64::MAX), Single::with_total(1)];
    assert_eq!(Multi::gather(big, Repeat::Sum).unwrap_err(), Error::Other(Failure::Overflow));
}

#[test]
fn double_target_counts_two() {
    assert_eq!(solve_single("10d10 t7 tt9", (1..11).collect()).get_total(), 6);
}

#[test]
fn target_with_failure() {
    assert_eq!(solve_single("10d10 t7 f1", (1..11).collect()).get_total(), 3);
}

#[test]
fn target_enum_counts_members() {
    assert_eq!(solve_single("6d6 t[2,4,6]", vec![1, 2, 2, 4, 6, 3]).get_total(), 4);
    assert_eq!(solve_single("6d6 t[2, 4, 6]", vec![1, 2, 2, 4, 6, 3]).get_total(), 4);
}

#[test]
fn float_multiplication_truncates() {
    assert_eq!(solve_single("20 * -1.5", vec![]).get_total(), -30);
    assert_eq!(solve_single("7 * 0.5", vec![]).get_total(), 3);
    let single = solve_single("1.50 * 2", vec![]);
    assert_eq!(single.get_total(), 3);
    assert_eq!(single.to_string_history(), "1.5 * 2");
    assert_eq!(solve_single("-0.25 + 0", vec![]).to_string_history(), "-0.25 + 0");
}

#[test]
fn divide_by_zero_fails() {
    let error = solve_error("5 / 0", vec![]);
    assert_eq!(error, Error::Other(Failure::DivideByZero));
    assert_eq!(error.message(), "can't divide by zero");
    assert_eq!(solve_error("5 / 0.0", vec![]), Error::Other(Failure::DivideByZero));
}

#[test]
fn too_many_dice_fails() {
    let error = solve_error("5001d6", vec![]);
    assert_eq!(error, Error::Other(Failure::TooManyDice));
    assert_eq!(error.message(), "exceeded max allowed amount of dices `5000`");
}

#[test]
fn too_many_or_zero_sides_fail() {
    assert_eq!(solve_error("2d5001", vec![]), Error::Other(Failure::TooManySides));
    assert_eq!(solve_error("2d0", vec![]), Error::Other(Failure::ZeroSides));
    assert_eq!(
        Error::Other(Failure::ZeroSides).message(),
        "invalid `0` sides dice provided"
    );
}

#[test]
fn largest_dice_term_is_accepted() {
    let values = vec![1; 5000];
    let single = solve_single("5000d5000", values);
    assert_eq!(single.get_total(), 5000);
}

#[test]
fn keep_and_drop_select_dice() {
    assert_eq!(solve_single("4d6kh3", vec![1, 2, 3, 4]).get_total(), 9);
    assert_eq!(solve_single("4d6kl1", vec![1, 2, 3, 4]).get_total(), 1);
    assert_eq!(solve_single("4d6dl1", vec![1, 2, 3, 4]).get_total(), 9);
    assert_eq!(solve_single("4d6dh1", vec![1, 2, 3, 4]).get_total(), 6);
}

#[test]
fn keep_more_than_rolled_fails() {
    assert_eq!(solve_error("2d6kh3", vec![1, 2]), Error::Other(Failure::NotEnoughDice));
    assert_eq!(
        Error::Other(Failure::NotEnoughDice).message(),
        "Not enough dice to keep or drop"
    );
}

#[test]
fn explode_rolls_once_more() {
    let single = solve_single("3d6!", vec![6, 2, 6, 6, 1]);
    assert_eq!(single.get_total(), 21);
    let history = single.get_history();
    assert_eq!(history.len(), 2);
    assert_eq!(roll_values(&history[0]), vec![6, 6, 2]);
    assert_eq!(roll_values(&history[1]), vec![6, 1]);
}

#[test]
fn indefinite_explode_rolls_until_none() {
    let single = solve_single("3d6!!", vec![6, 2, 6, 6, 1, 3]);
    assert_eq!(single.get_total(), 24);
    assert_eq!(single.get_history().len(), 3);
}

#[test]
fn indefinite_explode_stops_after_many_rounds() {
    let error = solve_error("d6!!1", vec![1; 1001]);
    assert_eq!(error, Error::Other(Failure::Endless));
}

#[test]
fn reroll_replaces_low_dice() {
    assert_eq!(solve_single("2d6r2", vec![1, 5, 4]).get_total(), 9);
    assert_eq!(solve_single("2d6rr2", vec![1, 5, 2, 6]).get_total(), 11);
}

#[test]
fn reroll_without_reroll_logs_nothing() {
    let single = solve_single("2d6r1", vec![3, 5]);
    assert_eq!(single.get_history().len(), 0);
    assert_eq!(single.get_total(), 0);
}

#[test]
fn fudge_dice_count_signs() {
    let single = solve_single("4dF", vec![1, 3, 5, 6]);
    assert_eq!(single.get_total(), 1);
    assert_eq!(single.to_string_history(), "[+, +, \u{25A2}, -]");
}

#[test]
fn history_rolls_are_descending() {
    let single = solve_single("3d6", vec![2, 6, 4]);
    assert_eq!(roll_values(&single.get_history()[0]), vec![6, 4, 2]);
}

#[test]
fn die_results_are_in_range() {
    let result = Solver::new("20d6").unwrap().solve().unwrap();
    let single = result.as_single().unwrap();
    let mut faces = Vec::new();
    for entry in single.get_history() {
        if let History::Roll(dice) = entry {
            for d in dice {
                assert!(d.value >= 1 && d.value <= 6);
                faces.push(d.value);
            }
        }
    }
    assert_eq!(faces.len(), 20);
    // Twenty fair dice all showing one face is about as likely as 1 in 10^15.
    assert!(faces.iter().any(|f| *f != faces[0]));
}

#[test]
fn critic_marks_extremes() {
    assert_eq!(havok::dice::Result::new(6, 6).critic, Critic::Max);
    assert_eq!(havok::dice::Result::new(1, 6).critic, Critic::Min);
    assert_eq!(havok::dice::Result::new(3, 6).critic, Critic::Not);
}

#[test]
fn block_history_is_parenthesised() {
    let single = solve_single("(2d6 + 1)", vec![2, 3]);
    let history = single.get_history();
    assert!(matches!(history[0], History::OpenParen));
    assert!(matches!(history[history.len() - 1], History::CloseParen));
    assert_eq!(single.get_total(), 6);
}

#[test]
fn operators_never_adjacent() {
    let single = solve_single("1 + 2 * 3 - d4", vec![2]);
    let history = single.get_history();
    for pair in history.windows(2) {
        let both = matches!(pair[0], History::Operator(_)) && matches!(pair[1], History::Operator(_));
        assert!(!both);
    }
    assert_eq!(single.get_total(), 5);
}

#[test]
fn precedence_and_associativity() {
    assert_eq!(solve_single("2 + 3 * 4", vec![]).get_total(), 14);
    assert_eq!(solve_single("10 - 4 - 3", vec![]).get_total(), 3);
    assert_eq!(solve_single("7 / 2", vec![]).get_total(), 3);
    assert_eq!(solve_single("-7 / 2", vec![]).get_total(), -3);
}

#[test]
fn addition_and_multiplication_commute() {
    assert_eq!(solve_single("3 + 4.5", vec![]).get_total(), solve_single("4.5 + 3", vec![]).get_total());
    assert_eq!(solve_single("3 * 4.5", vec![]).get_total(), solve_single("4.5 * 3", vec![]).get_total());
    assert_ne!(solve_single("10 - 4", vec![]).get_total(), solve_single("4 - 10", vec![]).get_total());
    assert_ne!(solve_single("8 / 2", vec![]).get_total(), solve_single("2 / 8", vec![]).get_total());
}

#[test]
fn arithmetic_on_singles() {
    let sum = Single::with_total(2).add(Single::with_float(Decimal { mantissa: 25, scale: 1 })).unwrap();
    assert_eq!(sum.get_total(), 4);
    let quotient = Single::with_total(9).div(Single::with_total(-2)).unwrap();
    assert_eq!(quotient.get_total(), -4);
    let product = Single::with_total(i64::MAX).mul(Single::with_total(2));
    assert_eq!(product.unwrap_err(), Error::Other(Failure::Overflow));
}

#[test]
fn eval_total_applies_modifier() {
    let mut single = Single::new();
    single.add_history(vec![havok::dice::Result::new(2, 6), havok::dice::Result::new(5, 6)], false);
    assert_eq!(single.eval_total(Modifier::KeepHigh(1)), Ok(5));
    let mut fresh = Single::new();
    fresh.add_history(vec![havok::dice::Result::new(2, 6)], false);
    assert_eq!(fresh.eval_total(Modifier::Plain(Rule::Expr)), Ok(2));
}

#[test]
fn grammar_errors_give_position() {
    assert!(matches!(solve_error("2d6 +", vec![]), Error::Parse(_)));
    assert_eq!(solve_error("2d6 x", vec![]), Error::Parse(4));
    assert_eq!(solve_error("", vec![]), Error::Parse(0));
}

#[test]
fn solver_keeps_query() {
    let query = "4d6kh3 + 2 : strength";
    assert_eq!(Solver::new(query).unwrap().as_str(), query);
}

#[test]
fn trim_reason_is_idempotent() {
    let mut solver = Solver::new("2d6 : a : b").unwrap();
    solver.trim_reason();
    assert_eq!(solver.as_str(), "2d6 ");
    solver.trim_reason();
    assert_eq!(solver.as_str(), "2d6 ");
}

#[test]
fn dices_lists_each_dice_term() {
    let solver = Solver::new("5d6 + 4 * 2").unwrap();
    assert_eq!(solver.dices().unwrap(), vec!["5d6".to_string()]);
    let solver = Solver::new("(2d6! + d4) ^ 3 : x").unwrap();
    assert_eq!(solver.dices().unwrap(), vec!["2d6!".to_string(), "d4".to_string()]);
    let solver = Solver::new("(1 + 2) + 10d10 t7 tt9").unwrap();
    assert_eq!(solver.dices().unwrap(), vec!["10d10 t7 tt9".to_string()]);
}

#[test]
fn multi_rolls_render_one_per_line() {
    let result = Solver::new("d6 ^ 2 : why")
        .unwrap()
        .solve_with_source(&mut scripted(vec![2, 6]))
        .unwrap();
    assert_eq!(result.to_string(), "`[2]` = **2**\n`[6]` = **6**\n*reason* `why`");
}
