[package]
name = "partitioned_gc"
version = "0.1.0"
edition = "2021"
publish = false

[dependencies]
rand = "0.9"
sha2 = "0.10"
serde = { version = "1", features = ["derive"] }
serde_json = "1"
