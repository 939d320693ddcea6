pub mod constraint_counts;
pub mod contact_constraint;
pub mod total_fluid_constraint;
pub mod volume_constraint;
