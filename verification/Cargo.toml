[package]
name = "kzg"
version = "0.1.0"
edition = "2021"
publish = false

[dependencies]
ark-bls12-381 = "0.4"
ark-ec = "0.4"
ark-ff = "0.4"
ark-serialize = "0.4"
ark-std = "0.4"
serde = { version = "1", features = ["derive"] }
serde_bytes = "0.11"
