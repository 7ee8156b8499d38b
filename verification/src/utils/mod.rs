pub mod compare;
pub mod stem;
pub mod token;
