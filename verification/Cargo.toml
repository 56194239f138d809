[package]
name = "kv_data"
version = "0.1.0"
edition = "2021"
publish = false

[dependencies]
bytes = "*"
crc32fast = "*"
crossbeam-skiplist = "*"
fs2 = "*"
fs_extra = "*"
jammdb = "*"
log = "*"
parking_lot = "*"
prost = { version = "*", default-features = false, features = ["std"] }
thiserror = "*"
