[package]
name = "hnsw_itu"
version = "0.1.0"
edition = "2021"
publish = false

[dependencies]
min-max-heap = "1.3"
rand = "0.8"
rayon = "1"
serde = { version = "1", features = ["derive"] }
bincode = "1"
clap = { version = "4", features = ["derive"] }
hdf5 = "*"
ndarray = "0.15"
anyhow = "1"
