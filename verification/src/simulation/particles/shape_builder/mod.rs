pub mod circle;
