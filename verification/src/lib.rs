//! Discrete bookkeeping of a position-based particle simulation: which
//! particles merge into meta particles and how they are split apart again,
//! how constraint counts are accumulated, and which particle pairs receive
//! contact or stick constraints.
pub mod particles;
pub mod simulation;
pub mod sort;
