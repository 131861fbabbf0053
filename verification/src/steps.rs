//! A single step of a decoder path: the register state reached and the
//! Hamming distance accumulated up to that point.

use vstd::prelude::*;

verus! {

/// One step of a candidate decoding path.
#[derive(Debug, PartialEq, Eq)]
pub struct StateStep {
    /// Hamming distance accumulated along the path up to this step.
    pub sum_hd: usize,
    /// The register state at this step.
    pub state: String,
}

impl StateStep {
    /// A step with the given accumulated distance and state.
    pub fn new(sum_hd: usize, state: String) -> (r: StateStep)
        ensures
            r.sum_hd == sum_hd,
            r.state@ == state@,
    {
        StateStep { sum_hd, state }
    }
}

} // verus!
