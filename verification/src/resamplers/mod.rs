pub mod do_algorithm;
pub mod engine;
pub mod file_use;
