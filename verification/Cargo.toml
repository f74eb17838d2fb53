[package]
name = "bao-tree"
version = "0.1.0"
edition = "2021"
publish = false

[dependencies]
blake3 = { version = "1.5", features = ["pure"] }
range-collections = "0.4"
smallvec = "1"
bytes = "1"
positioned-io = "0.3"
self_cell = "1"
