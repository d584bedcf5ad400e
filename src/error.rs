use vstd::prelude::*;

verus! {

/// Why a search could not be run.
#[derive(Debug, Clone, Copy, PartialEq, Eq, Structural)]
pub enum SearchError {
    /// Fewer than two classes asked for, or more classes than intensity levels.
    InvalidParameter,
    /// The image has no pixels, so there is no distribution to score.
    ResourceEmpty,
    /// The exhaustive enumeration would be larger than the allowed bound.
    ResourceExhausted,
}

} // verus!
