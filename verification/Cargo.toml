[package]
name = "minimap"
version = "0.1.0"
edition = "2021"
publish = false

[dependencies]
lru = "0.12"
bincode = "1"
serde = { version = "1", features = ["derive"] }
serde_json = "1"
fst = "0.4"
memmap2 = "0.9"
thiserror = "1"
nalgebra = "0.33"
