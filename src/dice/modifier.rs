use crate::dice;
use vstd::prelude::*;

verus! {

/// The modifier in force after a modifier token, and the dice that flow on.
pub struct Result {
    pub modifier: dice::Modifier,
    pub results: Vec<dice::Result>,
}

} // verus!
