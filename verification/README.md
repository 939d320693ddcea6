# particle_sim

A 2D position-based particle simulation, split in two:

- `src/` is the verified library (Verus). It holds the discrete decisions of
  the simulation and proves them against their contracts:
  - `particles::particle_vec`: a particle vector whose entries always record
    their own position;
  - `particles::operations::merge` and `particles::operations::split`:
    grouping colliding particles into balanced trees of meta particles, and
    taking the trees apart again (a split pass gives back the particles a
    merge pass started from);
  - `simulation::particles::operations::split`: the recursive split that
    walks each tree from its root;
  - `simulation::particles::simulation`: the contact search of a simulation
    step (which pairs get rigid or plain contact constraints, which
    particles touch which wall);
  - `simulation::constraints`: constraint counting and the index layout of
    volume and fluid constraints;
  - `particles::shape_builder::adjacent_sticks`: which particles of a shape
    are joined by sticks;
  - `sort`: the input, dispatch size and result check of the GPU sort.
- `app/` is ordinary Rust around it: the floating-point state of the
  particles (positions, velocities, masses, energies), the constraint
  solvers, the emitters and the wgpu sort driver. It measures what needs
  floating point (overlaps, collision tests) and hands the library plain
  values.

`tests/` runs the library on concrete inputs.
