[package]
name = "cafein"
version = "0.1.0"
edition = "2021"
publish = false

[dependencies]
sha2 = "0.10"
chrono = { version = "0.4", default-features = false, features = ["std"] }
serde = { version = "1", features = ["derive"] }
bincode = "1.3"
memmap2 = "0.9"
rayon = "1"
pyo3 = { version = "0.25", features = ["extension-module", "abi3-py39"] }
numpy = "0.25"
