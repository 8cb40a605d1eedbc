[package]
name = "estrace"
version = "0.1.0"
edition = "2021"
publish = false

[dependencies]
regex = "1"
rand = "0.8"
serde = { version = "1", features = ["derive"] }
serde_json = "1"
arrow = { version = "*", default-features = false, features = ["ipc", "csv"] }
parquet = { version = "*", default-features = false, features = ["arrow"] }
chrono = "0.4"
memmap2 = "0.9"
num_cpus = "1"
rayon = "1"
flate2 = "1"
dirs = "*"
rusqlite = { version = "*", features = ["bundled"] }
once_cell = "1"
lazy_static = "1"
