pub mod particle;
pub mod particle_vec;
pub mod particle_manipulator;
pub mod operations;
pub mod shape_builder;
