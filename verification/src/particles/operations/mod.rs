pub mod operation;
pub mod merge;
pub mod split;
