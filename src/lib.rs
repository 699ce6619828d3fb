//! Dice-roll expressions: a grammar, an evaluator with dice modifiers, and the
//! history of the steps that led to each total.

pub mod constant;
pub mod dice;
pub mod error;
pub mod evaluator;
pub mod parser;
pub mod render;
pub mod roll;
pub mod solver;
pub mod sort;
pub mod text;
