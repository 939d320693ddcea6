pub mod split;
