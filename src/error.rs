use vstd::prelude::*;

verus! {

/// The ways a sampling run can fail. Each of them ends the run: no partial
/// sample is ever produced.
#[derive(Debug, Clone, Copy, PartialEq, Eq, Structural)]
pub enum SampleError {
    /// The size specification is malformed or out of range.
    InvalidConfiguration,
    /// More items were requested than the population holds.
    SizeExceedsPopulation,
    /// The stream ended before the reservoir could be filled.
    PopulationExhaustedDuringStreaming,
}

} // verus!
