[package]
name = "hamgraph"
version = "0.1.0"
edition = "2021"
publish = false

[dependencies]
rand = "0.8"
macroquad = "*"
serde = { version = "1", features = ["derive"] }
serde_json = "1"
