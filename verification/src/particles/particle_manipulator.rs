use vstd::prelude::*;

verus! {

/// Utility to help with particle manipulation; the forces it applies act on
/// the continuous particle data.
pub struct ParticleManipulator {}

impl ParticleManipulator {
    pub fn new() -> (m: ParticleManipulator)
        ensures
            m == (ParticleManipulator {  }),
    {
        ParticleManipulator {  }
    }
}

} // verus!
