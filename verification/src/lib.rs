//! A log-structured key-value storage engine: an append-only record log in
//! byte segments, and a key directory that maps each live key to the place of
//! its newest record.

pub mod batch;
pub mod data;
pub mod db;
pub mod errors;
pub mod fio;
pub mod index;
pub mod iterator;
pub mod load;
pub mod merge;
pub mod options;
pub mod recovery;
pub mod util;
