pub mod dummy;
