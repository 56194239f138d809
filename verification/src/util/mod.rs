//! Helpers: decimal numbers as text, and keys and values for trials.

pub mod decimal;
pub mod file;
pub mod rand_kv;
