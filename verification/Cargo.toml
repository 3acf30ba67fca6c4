[package]
name = "oc_sessions"
version = "0.1.0"
edition = "2021"
publish = false

[dependencies]
chrono = "*"
clap = { version = "*", features = ["derive"] }
dirs = "*"
fuzzy-matcher = "*"
ratatui = "*"
rusqlite = { version = "*", features = ["bundled"] }
