use vstd::prelude::*;

pub use crate::particles::particle::ParticleType;

verus! {

/// The phase of matter a particle belongs to.
#[derive(Debug, Clone, Copy, PartialEq, Eq, Structural)]
pub enum Phase {
    Solid,
    Fluid,
    Gas,
}

} // verus!
