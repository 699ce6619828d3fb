use crate::text::{decimal, push_decimal, push_str, string_of};
use vstd::prelude::*;

verus! {

/// What went wrong while evaluating a well-formed expression.
#[derive(Debug, Clone, Copy, PartialEq, Eq, Structural)]
pub enum Failure {
    TooManyDice,
    TooManySides,
    ZeroSides,
    DivideByZero,
    NotEnoughDice,
    NoRepeat,
    Overflow,
    Endless,
}

/// The message of each failure.
pub open spec fn failure_text(f: Failure) -> Seq<char> {
    match f {
        Failure::TooManyDice => "exceeded max allowed amount of dices `5000`"@,
        Failure::TooManySides => "exceeded max allowed number of dice sides `5000`"@,
        Failure::ZeroSides => "invalid `0` sides dice provided"@,
        Failure::DivideByZero => "can't divide by zero"@,
        Failure::NotEnoughDice => "Not enough dice to keep or drop"@,
        Failure::NoRepeat => "Can't repeat 0 times or negatively"@,
        Failure::Overflow => "arithmetic overflow"@,
        Failure::Endless => "exceeded max allowed rounds of an indefinite modifier `1000`"@,
    }
}

/// The message of each error.
pub open spec fn error_text(e: Error) -> Seq<char> {
    match e {
        Error::Parse(position) => "invalid roll expression at position "@ + decimal(position as nat),
        Error::Other(f) => failure_text(f),
    }
}

impl Failure {
    pub fn message(&self) -> (r: &'static str)
        ensures
            r@ == failure_text(*self),
    {
        match *self {
            Failure::TooManyDice => "exceeded max allowed amount of dices `5000`",
            Failure::TooManySides => "exceeded max allowed number of dice sides `5000`",
            Failure::ZeroSides => "invalid `0` sides dice provided",
            Failure::DivideByZero => "can't divide by zero",
            Failure::NotEnoughDice => "Not enough dice to keep or drop",
            Failure::NoRepeat => "Can't repeat 0 times or negatively",
            Failure::Overflow => "arithmetic overflow",
            Failure::Endless => "exceeded max allowed rounds of an indefinite modifier `1000`",
        }
    }
}

/// The error of a roll: the input does not follow the grammar (with the character
/// position at which it stops following it), or its evaluation failed.
#[derive(Debug, Clone, Copy, PartialEq, Eq, Structural)]
pub enum Error {
    Parse(usize),
    Other(Failure),
}

impl Error {
    pub fn message(&self) -> (r: String)
        ensures
            r@ == error_text(*self),
    {
        match *self {
            Error::Parse(position) => {
                let mut out: Vec<char> = Vec::new();
                push_str(&mut out, "invalid roll expression at position ");
                push_decimal(&mut out, position as u128);
                proof {
                    assert(out@ == Seq::<char>::empty() + "invalid roll expression at position "@ + decimal(position as nat));
                    assert(Seq::<char>::empty() + "invalid roll expression at position "@ == "invalid roll expression at position "@);
                }
                string_of(&out)
            },
            Error::Other(failure) => {
                let mut out: Vec<char> = Vec::new();
                push_str(&mut out, failure.message());
                proof {
                    assert(Seq::<char>::empty() + failure_text(failure) == failure_text(failure));
                }
                string_of(&out)
            },
        }
    }
}

} // verus!
