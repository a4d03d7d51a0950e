use vstd::prelude::*;

pub mod engine;
pub mod exclusion;
pub mod frequency;
pub mod model;
pub mod sampling;
pub mod sorting;

pub use engine::LotteryDrawing;
pub use engine::LotteryEngine;
pub use exclusion::ExclusionSet;

verus! {

/// The errors the engine reports. `InvalidInput` marks malformed arguments
/// (wrong count of main numbers, values outside [1, 45], duplicates in a
/// required set, an empty or oversized required set). `InsufficientCombinations`
/// marks a constrained sampling call that ran out of attempts; it carries the
/// number of combinations that were found before the budget was exhausted.
#[derive(Debug, Clone, Copy, PartialEq, Eq, Structural)]
pub enum LotteryError {
    InvalidInput,
    InsufficientCombinations(usize),
}

} // verus!
