use vstd::prelude::*;

verus! {

/// Whether an entry of the particle vector is an ordinary particle or a meta
/// particle that stands for two merged particles.
#[derive(Debug, Clone, Copy, PartialEq, Eq, Structural)]
pub enum ParticleType {
    Particle,
    MetaParticle,
}

/// The discrete part of a particle: everything that merging and splitting
/// read and write besides the continuous quantities (position, velocity,
/// mass, radius, energy).
#[derive(Debug, Clone, Copy, PartialEq, Eq, Structural)]
pub struct ParticleTopology {
    /// Position of the particle in its vector.
    pub index: usize,
    pub is_static: bool,
    pub particle_type: ParticleType,
    /// The particle is hidden inside a meta particle.
    pub is_merged: bool,
    /// For a meta particle: index of its left child.
    pub left_index: usize,
    /// For a meta particle: index of its right child.
    pub right_index: usize,
}

impl ParticleTopology {
    /// The discrete state of `Particle::default()`: an unmerged, dynamic
    /// ordinary particle that has no index and no children.
    pub open spec fn spec_default() -> ParticleTopology {
        ParticleTopology {
            index: usize::MAX,
            is_static: false,
            particle_type: ParticleType::Particle,
            is_merged: false,
            left_index: usize::MAX,
            right_index: usize::MAX,
        }
    }

    pub fn new() -> (p: ParticleTopology)
        ensures
            p == Self::spec_default(),
    {
        ParticleTopology {
            index: usize::MAX,
            is_static: false,
            particle_type: ParticleType::Particle,
            is_merged: false,
            left_index: usize::MAX,
            right_index: usize::MAX,
        }
    }

    pub fn set_static(&mut self, is_static: bool) -> (r: &mut Self)
        ensures
            *r == (ParticleTopology { is_static, ..*old(self) }),
            *final(self) == *final(r),
    {
        self.is_static = is_static;
        self
    }

    pub fn set_index(&mut self, index: usize) -> (r: &mut Self)
        ensures
            *r == (ParticleTopology { index, ..*old(self) }),
            *final(self) == *final(r),
    {
        self.index = index;
        self
    }

    pub fn set_particle_type(&mut self, particle_type: ParticleType) -> (r: &mut Self)
        ensures
            *r == (ParticleTopology { particle_type, ..*old(self) }),
            *final(self) == *final(r),
    {
        self.particle_type = particle_type;
        self
    }

    pub fn set_left_index(&mut self, left_index: usize) -> (r: &mut Self)
        ensures
            *r == (ParticleTopology { left_index, ..*old(self) }),
            *final(self) == *final(r),
    {
        self.left_index = left_index;
        self
    }

    pub fn set_right_index(&mut self, right_index: usize) -> (r: &mut Self)
        ensures
            *r == (ParticleTopology { right_index, ..*old(self) }),
            *final(self) == *final(r),
    {
        self.right_index = right_index;
        self
    }

    pub fn set_merged(&mut self, is_merged: bool) -> (r: &mut Self)
        ensures
            *r == (ParticleTopology { is_merged, ..*old(self) }),
            *final(self) == *final(r),
    {
        self.is_merged = is_merged;
        self
    }
}

impl ParticleTopology {
    /// Static and merged particles neither move nor count towards the
    /// metrics of the system.
    pub fn is_simulated(&self) -> (b: bool)
        ensures
            b == (!self.is_static && !self.is_merged),
    {
        !self.is_static && !self.is_merged
    }
}

impl Default for ParticleTopology {
    fn default() -> (p: ParticleTopology)
        ensures
            p == ParticleTopology::spec_default(),
    {
        ParticleTopology::new()
    }
}

} // verus!
