[package]
name = "codewars_tracker"
version = "0.1.0"
edition = "2021"
publish = false

[dependencies]
sled = "0.34"
serde = { version = "1", features = ["derive"] }
serde_json = "1"
log = "0.4"
fern = "*"
chrono = "0.4"
