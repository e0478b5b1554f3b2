use vstd::prelude::*;

verus! {

/// Why training stopped short.
#[derive(PartialEq, Eq, Structural, Clone, Copy, Debug)]
pub enum TrainError {
    /// The token sequence holds fewer than two ids, so there is no adjacent
    /// pair left to merge.
    NoPairsAvailable,
    /// The vocabulary cannot take another symbol: its length would no longer
    /// fit the id type.
    VocabularyOverflow,
}

} // verus!
