[package]
name = "tetra-master"
version = "1.0.2"
edition = "2021"
publish = false

[dependencies]
anyhow = "1"
crossterm = "*"
ratatui = "*"
rusqlite = { version = "*", features = ["bundled"] }
serde = { version = "1", features = ["derive"] }
serde_json = "1"
