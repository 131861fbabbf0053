//! A linkable step of a decoder path: the register state reached, the
//! distance accumulated, and an optional link to the next step.

use vstd::prelude::*;

verus! {

/// One step of a candidate decoding path, with a link to its successor.
#[derive(Debug, PartialEq, Eq)]
pub struct StateStep {
    /// Hamming distance accumulated along the path up to this step.
    pub sum_hd: usize,
    /// The register state at this step.
    pub state: String,
    /// The next step of the path, once known.
    pub next: Option<Box<StateStep>>,
}

impl StateStep {
    /// A fresh step with no successor.
    pub fn new(sum_hd: usize, state: String) -> (r: StateStep)
        ensures
            r.sum_hd == sum_hd,
            r.state@ == state@,
            r.next is None,
    {
        StateStep { sum_hd, state, next: None }
    }
}

} // verus!
