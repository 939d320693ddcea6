pub mod operations;
pub mod particle;
pub mod particle_manipulator;
pub mod shape_builder;
pub mod simulation;
pub mod simulation_demos;
