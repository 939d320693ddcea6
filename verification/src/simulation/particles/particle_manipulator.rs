use vstd::prelude::*;

verus! {

/// Utility to help with particle manipulation, such as applying a torque
/// around a point; the forces act on the continuous particle data.
pub struct ParticleManipulator {}

impl ParticleManipulator {
    pub fn new() -> (m: ParticleManipulator)
        ensures
            m == (ParticleManipulator {  }),
    {
        ParticleManipulator {  }
    }
}

} // verus!
