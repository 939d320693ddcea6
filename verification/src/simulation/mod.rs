pub mod constraints;
pub mod particles;
