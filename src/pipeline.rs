use vstd::prelude::*;

verus! {

/// Marker for the pipeline's phases.
pub struct Pipeline;

} // verus!
