[package]
name = "bench_shuffle"
version = "0.1.0"
edition = "2021"
publish = false

[dependencies]
arrow = { version = "*", default-features = false, features = ["test_utils"] }
arrow-array = "*"
arrow-buffer = "*"
arrow-data = "*"
arrow-schema = "*"
arrow-select = "*"
arrow-row = "*"
hashbrown = "*"
num-traits = "0.2"
rand = "0.9"
