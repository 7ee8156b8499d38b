pub mod chain;
