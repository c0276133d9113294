[package]
name = "memory_graph"
version = "0.1.0"
edition = "2021"
publish = false

[dependencies]
serde = { version = "*", features = ["derive"] }
serde_json = "*"
rusqlite = { version = "*", features = ["bundled"] }
chrono = "*"
reqwest = { version = "*", default-features = false, features = ["blocking", "json"] }
walkdir = "*"
