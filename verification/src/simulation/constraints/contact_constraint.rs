use vstd::prelude::*;
use crate::simulation::constraints::constraint_counts::{add_pair_counts, pair_counted};

verus! {

/// Keeps two particles from overlapping.
pub struct ContactConstraint {
    pub i1: usize,
    pub i2: usize,
    pub stable: bool,
}

impl ContactConstraint {
    pub fn new(i1: usize, i2: usize, stable: bool) -> (c: ContactConstraint)
        ensures
            c == (ContactConstraint { i1, i2, stable }),
    {
        ContactConstraint { i1, i2, stable }
    }

    /// Counts this constraint once for each of its two particles.
    pub fn update_counts(&self, counts: &mut Vec<usize>)
        requires
            self.i1 < old(counts)@.len(),
            self.i2 < old(counts)@.len(),
            old(counts)@[self.i1 as int] + 1 <= usize::MAX,
            old(counts)@[self.i2 as int] + 1 + (if self.i1 == self.i2 { 1int } else { 0 }) <= usize::MAX,
        ensures
            final(counts)@ == pair_counted(old(counts)@, self.i1 as int, self.i2 as int),
    {
        add_pair_counts(counts, self.i1, self.i2);
    }
}

} // verus!
