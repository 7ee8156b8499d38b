pub mod float;
