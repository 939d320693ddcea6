use vstd::prelude::*;
use crate::particles::particle::ParticleTopology;

verus! {

/// The value `p` takes when it is stored at position `i`.
pub open spec fn placed_at(p: ParticleTopology, i: int) -> ParticleTopology {
    ParticleTopology { index: i as usize, ..p }
}

/// Every entry records its own position in its `index` field.
pub open spec fn indices_match_positions(s: Seq<ParticleTopology>) -> bool {
    forall|i: int| 0 <= i < s.len() ==> #[trigger] s[i].index == i
}

/// A growable vector of particles in which every particle knows its own
/// position: pushing, extending and building from a sequence all stamp each
/// new entry with the position it lands at.
pub struct TopologyVec {
    particles: Vec<ParticleTopology>,
}

impl View for TopologyVec {
    type V = Seq<ParticleTopology>;

    closed spec fn view(&self) -> Seq<ParticleTopology> {
        self.particles@
    }
}

impl TopologyVec {
    #[verifier::type_invariant]
    closed spec fn inv(self) -> bool {
        indices_match_positions(self.particles@)
    }

    pub fn new() -> (v: TopologyVec)
        ensures
            v@ == Seq::<ParticleTopology>::empty(),
    {
        TopologyVec { particles: Vec::new() }
    }

    /// Builds a vector holding `values` in order, each stamped with its
    /// position.
    pub fn from_vec(values: Vec<ParticleTopology>) -> (v: TopologyVec)
        ensures
            v@.len() == values@.len(),
            forall|i: int| 0 <= i < values@.len() ==> #[trigger] v@[i] == placed_at(values@[i], i),
    {
        let mut values = values;
        let ghost original = values@;
        let n = values.len();
        let mut i: usize = 0;
        while i < n
            invariant
                0 <= i <= n,
                n == values@.len(),
                original.len() == n,
                forall|k: int| 0 <= k < i ==> #[trigger] values@[k] == placed_at(original[k], k),
                forall|k: int| i <= k < n ==> #[trigger] values@[k] == original[k],
            decreases n - i,
        {
            let mut p = values[i];
            p.index = i;
            values[i] = p;
            i = i + 1;
        }
        TopologyVec { particles: values }
    }

    /// The number of particles; every call also makes known that each
    /// particle records its own position.
    pub fn len(&self) -> (n: usize)
        ensures
            n == self@.len(),
            indices_match_positions(self@),
    {
        proof {
            use_type_invariant(self);
        }
        self.particles.len()
    }

    pub fn clear(&mut self)
        ensures
            final(self)@ == Seq::<ParticleTopology>::empty(),
    {
        self.particles = Vec::new();
    }

    pub fn as_slice(&self) -> (s: &[ParticleTopology])
        ensures
            s@ == self@,
    {
        self.particles.as_slice()
    }

    /// The particle at position `i` (by value).
    pub fn get(&self, i: usize) -> (p: ParticleTopology)
        requires
            i < self@.len(),
        ensures
            p == self@[i as int],
    {
        self.particles[i]
    }

    /// Appends `value`, stamped with the position it lands at.
    pub fn push(&mut self, value: ParticleTopology)
        ensures
            final(self)@ == old(self)@.push(placed_at(value, old(self)@.len() as int)),
    {
        proof {
            use_type_invariant(&*self);
        }
        let mut p = value;
        p.index = self.particles.len();
        let mut particles = Vec::new();
        std::mem::swap(&mut particles, &mut self.particles);
        particles.push(p);
        self.particles = particles;
    }

    /// Keeps the first `len` particles (all of them when `len` is not smaller
    /// than the length).
    pub fn truncate(&mut self, len: usize)
        ensures
            len <= old(self)@.len() ==> final(self)@ == old(self)@.subrange(0, len as int),
            len > old(self)@.len() ==> final(self)@ == old(self)@,
    {
        proof {
            use_type_invariant(&*self);
        }
        let mut particles = Vec::new();
        std::mem::swap(&mut particles, &mut self.particles);
        particles.truncate(len);
        self.particles = particles;
    }

    /// Appends copies of the particles of `other`, each stamped with the
    /// position it lands at.
    pub fn extend(&mut self, other: &TopologyVec)
        ensures
            final(self)@.len() == old(self)@.len() + other@.len(),
            final(self)@.subrange(0, old(self)@.len() as int) == old(self)@,
            forall|k: int|
                0 <= k < other@.len() ==> #[trigger] final(self)@[old(self)@.len() + k] == placed_at(
                    other@[k],
                    old(self)@.len() + k,
                ),
    {
        let n = other.particles.len();
        let ghost start = self@;
        let mut k: usize = 0;
        while k < n
            invariant
                0 <= k <= n,
                n == other@.len(),
                self@.len() == start.len() + k,
                self@.subrange(0, start.len() as int) == start,
                forall|j: int|
                    0 <= j < k ==> #[trigger] self@[start.len() + j] == placed_at(
                        other@[j],
                        start.len() + j,
                    ),
            decreases n - k,
        {
            let p = other.particles[k];
            self.push(p);
            proof {
                assert(self@.subrange(0, start.len() as int) =~= start);
            }
            k = k + 1;
        }
    }

    /// Sets whether the particle at position `i` is hidden inside a meta
    /// particle; nothing else changes.
    pub fn set_merged(&mut self, i: usize, is_merged: bool)
        requires
            i < old(self)@.len(),
        ensures
            final(self)@ == old(self)@.update(
                i as int,
                ParticleTopology { is_merged, ..old(self)@[i as int] },
            ),
    {
        proof {
            use_type_invariant(&*self);
        }
        let mut p = self.particles[i];
        p.is_merged = is_merged;
        let mut particles = Vec::new();
        std::mem::swap(&mut particles, &mut self.particles);
        particles.set(i, p);
        self.particles = particles;
    }
}

} // verus!
