[package]
name = "avenue_model"
version = "0.1.0"
edition = "2021"
publish = false

[dependencies]
ring = "0.17"
serde = { version = "1", features = ["derive"] }
serde_json = "1"
rayon = "1"
polars = { version = "*", default-features = false, features = ["dtype-categorical"] }
