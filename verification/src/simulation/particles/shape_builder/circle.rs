use vstd::prelude::*;

verus! {

/// How a circle of particles distributes the space left over when the
/// particles do not fill its perimeter exactly.
#[derive(Debug, Clone, Copy, PartialEq, Eq, Structural)]
pub enum SpaceDistribution {
    /// Adjust the particles' radius so that there is no left over space.
    AdjustRadius,
    /// Spread out any left over space so all particles are evenly spaced out.
    SpaceBetweenParticles,
}

} // verus!
