[package]
name = "cronos_ctc"
version = "0.7.0"
edition = "2021"
publish = false

[dependencies]
serde = { version = "1", features = ["derive"] }
toml = "0.8"
nalgebra = "0.33"
rustc-hash = "2"
parking_lot = "0.12"
thiserror = "1"
