use vstd::prelude::*;

verus! {

/// `size` empty neighbour lists and `size` deltas, each `zero`.
pub fn init_neighbours_and_deltas_for_size<D: Copy>(size: usize, zero: D) -> (r: (Vec<Vec<usize>>, Vec<D>))
    ensures
        r.0@.len() == size,
        forall|k: int| 0 <= k < size ==> (#[trigger] r.0@[k])@.len() == 0,
        r.1@ == Seq::new(size as nat, |k: int| zero),
{
    let mut neighbors: Vec<Vec<usize>> = Vec::new();
    let mut deltas: Vec<D> = Vec::new();
    let mut i: usize = 0;
    while i < size
        invariant
            0 <= i <= size,
            neighbors@.len() == i,
            forall|k: int| 0 <= k < i ==> (#[trigger] neighbors@[k])@.len() == 0,
            deltas@ == Seq::new(i as nat, |k: int| zero),
        decreases size - i,
    {
        neighbors.push(Vec::new());
        deltas.push(zero);
        proof {
            assert(deltas@ =~= Seq::new((i + 1) as nat, |k: int| zero));
        }
        i = i + 1;
    }
    (neighbors, deltas)
}

/// The particles a fluid constraint holds together, with one neighbour list
/// and one position delta (of type `D`) per particle. The neighbour lists
/// and deltas are working space for the solver: they start empty and zero.
pub struct FluidParticles<D> {
    /// The indices of the fluid's particles in the particle vector.
    pub ps: Vec<usize>,
    pub neighbors: Vec<Vec<usize>>,
    pub deltas: Vec<D>,
}

impl<D: Copy> FluidParticles<D> {
    /// One empty neighbour list and one `zero` delta per particle.
    pub open spec fn fresh(self, zero: D) -> bool {
        &&& self.neighbors@.len() == self.ps@.len()
        &&& forall|k: int| 0 <= k < self.ps@.len() ==> (#[trigger] self.neighbors@[k])@.len() == 0
        &&& self.deltas@ == Seq::new(self.ps@.len(), |k: int| zero)
    }

    /// A fluid made of the particles at `particles`.
    pub fn new(particles: &Vec<usize>, zero: D) -> (f: Self)
        ensures
            f.ps@ == particles@,
            f.fresh(zero),
    {
        let num_particles = particles.len();
        let mut ps: Vec<usize> = Vec::new();
        let mut i: usize = 0;
        while i < num_particles
            invariant
                0 <= i <= num_particles,
                num_particles == particles@.len(),
                ps@ == particles@.subrange(0, i as int),
            decreases num_particles - i,
        {
            ps.push(particles[i]);
            proof {
                assert(ps@ =~= particles@.subrange(0, i + 1));
            }
            i = i + 1;
        }
        proof {
            assert(ps@ =~= particles@);
        }
        let (neighbors, deltas) = init_neighbours_and_deltas_for_size(num_particles, zero);
        FluidParticles { ps, neighbors, deltas }
    }

    /// Adds the particle at `index` to the fluid; the working space starts
    /// over.
    pub fn add_particle(&mut self, index: usize, zero: D)
        ensures
            final(self).ps@ == old(self).ps@.push(index),
            final(self).fresh(zero),
    {
        self.ps.push(index);
        let (neighbors, deltas) = init_neighbours_and_deltas_for_size(self.ps.len(), zero);
        self.neighbors = neighbors;
        self.deltas = deltas;
    }

    /// Removes the `index`-th particle of the fluid (a position in `ps`, not
    /// in the particle vector); the working space starts over.
    pub fn remove_particle(&mut self, index: usize, zero: D)
        requires
            index < old(self).ps@.len(),
        ensures
            final(self).ps@ == old(self).ps@.remove(index as int),
            final(self).fresh(zero),
    {
        self.ps.remove(index);
        let (neighbors, deltas) = init_neighbours_and_deltas_for_size(self.ps.len(), zero);
        self.neighbors = neighbors;
        self.deltas = deltas;
    }
}

} // verus!
