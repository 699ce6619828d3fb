use crate::constant::Constant;
use crate::dice;
use crate::parser::Op;
use vstd::prelude::*;

verus! {

/// One step of the history that led to a total.
#[derive(Debug, Clone)]
pub enum History {
    OpenParen,
    CloseParen,
    Fudge(Vec<u64>),
    Operator(Op),
    Roll(Vec<dice::Result>),
    Constant(Constant),
}

impl History {
    pub open spec fn wf(&self) -> bool {
        match *self {
            History::Constant(c) => c.wf(),
            _ => true,
        }
    }

    /// The numbers that the step contributes to a dice total.
    pub open spec fn values(&self) -> Seq<i128> {
        match *self {
            History::Roll(v) => v@.map_values(|d: dice::Result| d.value as i128),
            History::Fudge(v) => v@.map_values(|x: u64| x as i128),
            History::Constant(c) => seq![c.value() as i128],
            _ => Seq::empty(),
        }
    }
}

/// Every constant of the history is well formed.
pub open spec fn history_wf(h: Seq<History>) -> bool {
    forall|i: int| 0 <= i < h.len() ==> (#[trigger] h[i]).wf()
}

/// The numbers of all steps, in order.
pub open spec fn flat_values(h: Seq<History>) -> Seq<i128>
    decreases h.len(),
{
    if h.len() == 0 {
        Seq::empty()
    } else {
        flat_values(h.drop_last()) + h.last().values()
    }
}

} // verus!
