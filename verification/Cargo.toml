[package]
name = "serde_indextree"
version = "0.1.0"
edition = "2021"
publish = false

[dependencies]
indextree = "3"
serde = { version = "1", features = ["derive"] }

[dev-dependencies]
serde_json = "1"
