[package]
name = "firefly"
version = "0.1.0"
edition = "2021"
publish = false

[dependencies]
nalgebra = "=0.33.3"
purecv = "=0.11.1"
serde = { version = "=1.0.229", features = ["derive"] }
toml = "=0.8.23"
