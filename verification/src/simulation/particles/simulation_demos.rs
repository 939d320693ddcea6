use vstd::prelude::*;

verus! {

/// The collection of demo scenes that fill a simulation with particles.
pub struct SimulationDemos {}

} // verus!
