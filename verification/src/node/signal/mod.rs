pub mod imp;
pub mod points;
