//! The effect that leaves the audio as it is.
use vstd::prelude::*;

verus! {

/// An effect that does nothing to the samples and ignores the tuning.
pub struct NopEffect {}

impl NopEffect {
    pub fn new() -> (e: NopEffect)
        ensures
            e == (NopEffect {}),
    {
        NopEffect {}
    }
}

} // verus!
