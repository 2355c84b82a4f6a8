[package]
name = "sportball_sidecar"
version = "0.1.0"
edition = "2021"
publish = false

[dependencies]
uuid = { version = "1", features = ["v4"] }
chrono = "0.4"
walkdir = "2"
rayon = "1"

[dev-dependencies]
serde_json = "1"
bincode = "1"
