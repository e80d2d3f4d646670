[package]
name = "advent"
version = "0.1.0"
edition = "2021"
publish = false

[dependencies]
itertools = "0.10"
nalgebra = { version = "0.31", default-features = false, features = ["std"] }
serde = { version = "1", features = ["derive"] }
serde_json = "1"
