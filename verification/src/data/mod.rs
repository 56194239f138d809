//! Records, their wire format and the segments that hold them.

pub mod checksum;
pub mod data_file;
pub mod log_record;
pub mod varint;
