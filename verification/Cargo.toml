[package]
name = "overlaydb"
version = "0.1.0"
edition = "2021"
publish = false

[dependencies]
rlp = { version = "=0.6.1", default-features = false, features = ["std"] }
tiny-keccak = { version = "=2.0.2", features = ["keccak"] }
rocksdb = { version = "=0.25.0", default-features = false }
