use crate::parser::Rule;
use crate::sort::Keyed;
use vstd::prelude::*;

pub mod modifier;

verus! {

/// Whether a die landed on one of its extreme faces.
#[derive(Debug, Clone, Copy, PartialEq, Eq, Hash, Structural)]
pub enum Critic {
    Max,
    Min,
    Not,
}

/// The face a die landed on for a die with `sides` faces.
pub open spec fn critic_of(value: u64, sides: u64) -> Critic {
    if value == sides {
        Critic::Max
    } else if value == 1 {
        Critic::Min
    } else {
        Critic::Not
    }
}

/// One rolled die, with its critic marker.
#[derive(Debug, Clone, Copy)]
pub struct Result {
    pub value: u64,
    pub critic: Critic,
}

impl Result {
    pub fn new(value: u64, sides: u64) -> (r: Self)
        ensures
            r.value == value,
            r.critic == critic_of(value, sides),
    {
        let critic = if value == sides {
            Critic::Max
        } else if value == 1 {
            Critic::Min
        } else {
            Critic::Not
        };
        Result { value, critic }
    }
}

impl Keyed for Result {
    open spec fn key(&self) -> int {
        self.value as int
    }

    fn key_of(&self) -> (k: i128) {
        self.value as i128
    }
}

/// The largest number of dice that one dice term may roll.
pub const MAX_DICE_AMOUNT: u64 = 5000;

/// The largest number of sides that a die may have.
pub const MAX_DICE_SIDES: u64 = 5000;

/// How the dice of one dice term are turned into a total.
#[derive(Debug, Clone)]
pub enum Modifier {
    Fudge,
    KeepLow(usize),
    DropLow(usize),
    KeepHigh(usize),
    DropHigh(usize),
    /// No selection; remembers the last modifier token that was applied.
    Plain(Rule),
    TargetEnum(Vec<u64>),
    /// Success threshold, failure threshold, double-success threshold; zero is unset.
    TargetDoubleFailure(u64, u64, u64),
}

/// What a `Modifier` holds, with the list of faces as a sequence.
pub enum ModifierView {
    Fudge,
    KeepLow(usize),
    DropLow(usize),
    KeepHigh(usize),
    DropHigh(usize),
    Plain(Rule),
    TargetEnum(Seq<u64>),
    TargetDoubleFailure(u64, u64, u64),
}

impl View for Modifier {
    type V = ModifierView;

    open spec fn view(&self) -> ModifierView {
        match *self {
            Modifier::Fudge => ModifierView::Fudge,
            Modifier::KeepLow(k) => ModifierView::KeepLow(k),
            Modifier::DropLow(k) => ModifierView::DropLow(k),
            Modifier::KeepHigh(k) => ModifierView::KeepHigh(k),
            Modifier::DropHigh(k) => ModifierView::DropHigh(k),
            Modifier::Plain(r) => ModifierView::Plain(r),
            Modifier::TargetEnum(v) => ModifierView::TargetEnum(v@),
            Modifier::TargetDoubleFailure(t, f, d) => ModifierView::TargetDoubleFailure(t, f, d),
        }
    }
}

} // verus!
