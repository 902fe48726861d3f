[package]
name = "linfa-clustering"
version = "0.1.0"
edition = "2021"
publish = false

[dependencies]
linfa = "0.7"
ndarray = "0.15"
ndarray-rand = "0.14"
rand_xoshiro = "0.6"
serde = { version = "1", features = ["derive"] }
thiserror = "1"
